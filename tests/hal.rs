use coap_hal_server::device_resource::{Attribute, Device};
use coap_hal_server::hal::{
    mock_oscillation, HalAttribute, HalAttributeType, HalDeviceEv3, HalDeviceType, HalFactory, HalKind, HalMock,
};

#[test]
fn attribute_constructors() {
    let rw = HalAttribute::new_rw(HalAttributeType::Int8, "duty_cycle_sp");
    assert!(rw.is_readable && rw.is_writable && !rw.is_array);
    let ro = HalAttribute::new_readonly(HalAttributeType::Int32, "position");
    assert!(ro.is_readable && !ro.is_writable);
    let wo = HalAttribute::new_writeonly(HalAttributeType::String, "command");
    assert!(!wo.is_readable && wo.is_writable);
    let arr = HalAttribute::new_readonly_array(HalAttributeType::String, "commands");
    assert!(arr.is_array && arr.is_readable && !arr.is_writable);
    assert_eq!(arr.name, "commands");
}

#[test]
fn attribute_records() {
    let a = Attribute::from_hal(HalAttribute::new_readonly_array(HalAttributeType::String, "modes"));
    assert_eq!(a.type_label, "[string]");
    assert_eq!(a.name, "modes");
    let b = Attribute::from_hal(HalAttribute::new_rw(HalAttributeType::UInt16, "x"));
    assert_eq!(b.type_label, "int16");
    let c = Attribute::from_hal(HalAttribute::new_readonly(HalAttributeType::Float64, "y"));
    assert_eq!(c.type_label, "double");
}

#[test]
fn mock_devices() {
    let hal = HalMock::with_hardcoded_devices();
    let all = hal.list_devices();
    assert_eq!(all.len(), 1);
    assert_eq!(all[0].address, "ev3-ports:in1");
    assert_eq!(hal.by_driver("lego-ev3-ir").len(), 1);
    assert_eq!(hal.by_driver("lego-ev3-l-motor").len(), 0);
    assert!(hal.by_address("ev3-ports:in1").is_some());
    assert!(hal.by_address("ev3-ports:outA").is_none());
    let d = hal.by_address("ev3-ports:in1").unwrap();
    let record = Device::from_parts(d.device_type, d.driver_name.clone(), d.address.clone(), d.attributes);
    assert_eq!(record.type_label, "sensor");
    assert_eq!(record.attributes.len(), 2);
    assert_eq!(record.attributes[1].type_label, "int32");
}

#[test]
fn mock_oscillates() {
    assert_eq!(mock_oscillation(0), 0);
    assert_eq!(mock_oscillation(100), 100);
    assert_eq!(mock_oscillation(150), 50);
    assert_eq!(mock_oscillation(250), 50);
}

#[test]
fn hal_selection() {
    assert_eq!(HalFactory::sense_from_environment(true), HalKind::Ev3);
    assert_eq!(HalFactory::sense_from_environment(false), HalKind::Mock);
}

#[test]
fn ev3_attribute_tables() {
    let motor = HalDeviceEv3 { sysfs_class: "tacho-motor".to_owned(), full_device_path: String::new() };
    assert_eq!(motor.applicable_attributes().len(), 17);
    assert_eq!(motor.device_type().unwrap(), HalDeviceType::Actuator);
    let sensor = HalDeviceEv3 { sysfs_class: "lego-sensor".to_owned(), full_device_path: String::new() };
    assert_eq!(sensor.applicable_attributes().len(), 16);
    assert_eq!(sensor.device_type().unwrap(), HalDeviceType::Sensor);
    let other = HalDeviceEv3 { sysfs_class: "other".to_owned(), full_device_path: String::new() };
    assert_eq!(other.applicable_attributes().len(), 5);
    assert!(other.device_type().is_err());
}

#[test]
fn mock_attribute_text() {
    let hal = HalMock::with_hardcoded_devices();
    let d = hal.by_address("ev3-ports:in1").unwrap();
    assert_eq!(d.attribute_text("mode", None).unwrap(), "IR-PROX");
    assert_eq!(d.attribute_text("value0", Some(150)).unwrap(), "50");
    assert_eq!(d.attribute_text("value0", Some(1_000_042)).unwrap(), "42");
    assert!(d.attribute_text("value0", None).is_err());
    assert!(d.attribute_text("speed", Some(1)).is_err());
}
