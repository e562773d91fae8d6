//! The hardware-abstraction data model: devices, their attributes, and lookups over a fixed
//! set of devices.
use std::time::{SystemTime, UNIX_EPOCH};

use crate::text::{decimal, decimal_text, same_text};
use vstd::prelude::*;
use vstd::string::StringExecFns;

verus! {

#[derive(Debug, Clone, Copy, PartialEq, Eq, Structural)]
pub enum HalDeviceType {
    Sensor,
    Actuator,
}

#[derive(Debug, Clone, Copy, PartialEq, Eq, Structural)]
pub enum HalAttributeType {
    Int8,
    Int16,
    Int32,
    Int64,
    UInt8,
    UInt16,
    UInt32,
    UInt64,
    Float32,
    Float64,
    String,
}

/// An attribute a device has: its data type, name, and access.
#[derive(Debug)]
pub struct HalAttribute {
    pub is_array: bool,
    pub data_type: HalAttributeType,
    pub name: String,
    pub is_readable: bool,
    pub is_writable: bool,
}

/// An attribute with these fields.
pub open spec fn attribute_is(
    a: HalAttribute,
    data_type: HalAttributeType,
    name: Seq<char>,
    is_array: bool,
    is_readable: bool,
    is_writable: bool,
) -> bool {
    a.data_type == data_type && a.name@ == name && a.is_array == is_array && a.is_readable
        == is_readable && a.is_writable == is_writable
}

impl HalAttribute {
    pub fn new_rw(typ: HalAttributeType, name: &str) -> (r: HalAttribute)
        ensures
            attribute_is(r, typ, name@, false, true, true),
    {
        HalAttribute { data_type: typ, is_array: false, name: name.to_owned(), is_readable: true, is_writable: true }
    }

    pub fn new_readonly(typ: HalAttributeType, name: &str) -> (r: HalAttribute)
        ensures
            attribute_is(r, typ, name@, false, true, false),
    {
        HalAttribute { data_type: typ, is_array: false, name: name.to_owned(), is_readable: true, is_writable: false }
    }

    pub fn new_writeonly(typ: HalAttributeType, name: &str) -> (r: HalAttribute)
        ensures
            attribute_is(r, typ, name@, false, false, true),
    {
        HalAttribute { data_type: typ, is_array: false, name: name.to_owned(), is_readable: false, is_writable: true }
    }

    pub fn new_readonly_array(typ: HalAttributeType, name: &str) -> (r: HalAttribute)
        ensures
            attribute_is(r, typ, name@, true, true, false),
    {
        HalAttribute { data_type: typ, is_array: true, name: name.to_owned(), is_readable: true, is_writable: false }
    }

    /// A copy with equal fields.
    pub fn duplicate(&self) -> (r: HalAttribute)
        ensures
            attribute_is(r, self.data_type, self.name@, self.is_array, self.is_readable, self.is_writable),
    {
        HalAttribute {
            data_type: self.data_type,
            is_array: self.is_array,
            name: self.name.clone(),
            is_readable: self.is_readable,
            is_writable: self.is_writable,
        }
    }
}

/// A failed hardware access.
#[derive(Debug)]
pub enum HalError {
    NotApplicable,
    InternalError(String),
    NotConnected {
        /// The device concerned.
        device: String,
        /// The port it was expected on, where one was given.
        port: Option<String>,
    },
}

pub type HalResult<T> = Result<T, HalError>;

/// One device, as the resources read and write it.
pub trait HalDevice {
    fn get_type(&self) -> HalResult<HalDeviceType>;

    fn get_driver_name(&self) -> HalResult<String>;

    fn get_address(&self) -> HalResult<String>;

    fn get_applicable_attributes(&self) -> HalResult<Vec<HalAttribute>>;

    fn get_attribute_str(&self, name: &str) -> HalResult<String>;

    fn set_attribute_str(&mut self, name: &str, value: &str) -> HalResult<()>;
}

/// A set of devices.
pub trait Hal {
    type Device: HalDevice;

    fn list_devices(&self) -> HalResult<Vec<Self::Device>>;

    fn by_driver(&self, driver: &str) -> HalResult<Vec<Self::Device>>;

    fn by_address(&self, address: &str) -> HalResult<Option<Self::Device>>;
}

/// Which hardware layer to use.
#[derive(Debug, Clone, Copy, PartialEq, Eq, Structural)]
pub enum HalKind {
    Mock,
    Ev3,
}

/// Chooses and makes the hardware layer.
pub struct HalFactory;

impl HalFactory {
    /// The mock hardware layer.
    pub fn for_mocking() -> (r: HalMock)
        ensures
            r.spec_devices() == mock_devices(),
    {
        HalMock::with_hardcoded_devices()
    }

    /// The EV3 hardware layer.
    pub fn for_ev3() -> HalEv3 {
        HalEv3 {}
    }

    /// The EV3 layer where its port directory exists, the mock one otherwise.
    pub fn sense_from_environment(lego_port_root_exists: bool) -> (r: HalKind)
        ensures
            r == (if lego_port_root_exists { HalKind::Ev3 } else { HalKind::Mock }),
    {
        if lego_port_root_exists {
            HalKind::Ev3
        } else {
            HalKind::Mock
        }
    }
}

/// A device of the mock layer.
#[derive(Debug)]
pub struct HalDeviceMock {
    pub device_type: HalDeviceType,
    pub driver_name: String,
    pub address: String,
    pub attributes: Vec<HalAttribute>,
}

/// The row of an attribute: data type, name, array, readable, writable.
pub open spec fn row_of(a: HalAttribute) -> AttributeRow {
    (a.data_type, a.name@, a.is_array, a.is_readable, a.is_writable)
}

/// The view of a mock device: type, driver, address, attribute rows.
pub open spec fn mock_view(d: HalDeviceMock) -> (HalDeviceType, Seq<char>, Seq<char>, Seq<AttributeRow>) {
    (d.device_type, d.driver_name@, d.address@, d.attributes@.map_values(|a: HalAttribute| row_of(a)))
}

pub open spec fn mock_views(v: Seq<HalDeviceMock>) -> Seq<(HalDeviceType, Seq<char>, Seq<char>, Seq<AttributeRow>)> {
    v.map_values(|d: HalDeviceMock| mock_view(d))
}

/// The devices of the mock layer: an infrared sensor on input port 1, with a read-only text
/// `mode` and a read-only unsigned `value0`.
pub open spec fn mock_devices() -> Seq<(HalDeviceType, Seq<char>, Seq<char>, Seq<AttributeRow>)> {
    seq![(
        HalDeviceType::Sensor,
        "lego-ev3-ir"@,
        "ev3-ports:in1"@,
        seq![ro(HalAttributeType::String, "mode"@), ro(HalAttributeType::UInt32, "value0"@)],
    )]
}

impl HalDeviceMock {
    /// A copy with equal fields.
    pub fn duplicate(&self) -> (r: HalDeviceMock)
        ensures
            mock_view(r) == mock_view(*self),
    {
        let mut attributes: Vec<HalAttribute> = Vec::new();
        let mut i: usize = 0;
        while i < self.attributes.len()
            invariant
                i <= self.attributes@.len(),
                attributes@.map_values(|a: HalAttribute| row_of(a)) == self.attributes@.map_values(
                    |a: HalAttribute| row_of(a),
                ).subrange(0, i as int),
            decreases self.attributes@.len() - i,
        {
            let ghost before = attributes@.map_values(|a: HalAttribute| row_of(a));
            let a = self.attributes[i].duplicate();
            attributes.push(a);
            assert(attributes@.map_values(|a: HalAttribute| row_of(a)) =~= before.push(row_of(a)));
            i = i + 1;
            assert(attributes@.map_values(|a: HalAttribute| row_of(a)) =~= self.attributes@.map_values(
                |a: HalAttribute| row_of(a),
            ).subrange(0, i as int));
        }
        assert(self.attributes@.map_values(|a: HalAttribute| row_of(a)).subrange(0, i as int)
            =~= self.attributes@.map_values(|a: HalAttribute| row_of(a)));
        HalDeviceMock {
            device_type: self.device_type,
            driver_name: self.driver_name.clone(),
            address: self.address.clone(),
            attributes,
        }
    }
}

/// Relies on `SystemTime::now`: whole seconds since the Unix epoch, `None` for a clock set
/// before it. Nothing is known of the value.
#[verifier::external_body]
fn unix_time_secs() -> (r: Option<u64>) {
    SystemTime::now().duration_since(UNIX_EPOCH).ok().map(|d| d.as_secs())
}

/// What the mock sensor reads for attribute `name` at `now_secs`.
pub open spec fn mock_reading(name: Seq<char>, now_secs: u64) -> Option<Seq<char>> {
    if name == "mode"@ {
        Some("IR-PROX"@)
    } else if name == "value0"@ {
        Some(decimal_text(
            (if now_secs % 200 > 100 { 200 - now_secs % 200 } else { (now_secs % 200) as int }) as nat,
        ))
    } else {
        None
    }
}

impl HalDeviceMock {
    /// The text of attribute `name` with the clock at `now_secs`: `IR-PROX` for `mode`, the
    /// oscillating reading for `value0`; an error for any other name, or for `value0` without
    /// a clock.
    pub fn attribute_text(&self, name: &str, now_secs: Option<u64>) -> (r: HalResult<String>)
        ensures
            match (mock_reading(name@, 0), now_secs) {
                (None, _) => r is Err,
                (Some(_), Some(t)) => r matches Ok(v) && mock_reading(name@, t) == Some(v@),
                (Some(_), None) => (name@ == "mode"@) == (r is Ok) && (r matches Ok(v) ==> v@ == "IR-PROX"@),
            },
    {
        if same_text(name, "mode") {
            return Ok("IR-PROX".to_owned());
        }
        if same_text(name, "value0") {
            return match now_secs {
                Some(t) => Ok(decimal(mock_oscillation(t))),
                None => Err(HalError::InternalError("The clock is before the epoch".to_owned())),
            };
        }
        Err(HalError::InternalError("Invalid attribute: name=".to_owned().concat(name)))
    }
}

impl HalDevice for HalDeviceMock {
    fn get_type(&self) -> HalResult<HalDeviceType> {
        Ok(self.device_type)
    }

    fn get_driver_name(&self) -> HalResult<String> {
        Ok(self.driver_name.clone())
    }

    fn get_address(&self) -> HalResult<String> {
        Ok(self.address.clone())
    }

    fn get_applicable_attributes(&self) -> HalResult<Vec<HalAttribute>> {
        let mut out: Vec<HalAttribute> = Vec::new();
        let mut i: usize = 0;
        while i < self.attributes.len()
            invariant
                i <= self.attributes@.len(),
            decreases self.attributes@.len() - i,
        {
            out.push(self.attributes[i].duplicate());
            i = i + 1;
        }
        Ok(out)
    }

    fn get_attribute_str(&self, name: &str) -> HalResult<String> {
        self.attribute_text(name, unix_time_secs())
    }

    fn set_attribute_str(&mut self, name: &str, _value: &str) -> HalResult<()> {
        Err(HalError::InternalError("Attribute not writable: name=".to_owned().concat(name)))
    }
}

/// A fixed set of devices standing in for hardware.
pub struct HalMock {
    devices: Vec<HalDeviceMock>,
}

impl HalMock {
    pub closed spec fn spec_devices(&self) -> Seq<(HalDeviceType, Seq<char>, Seq<char>, Seq<AttributeRow>)> {
        mock_views(self.devices@)
    }

    /// The mock layer's devices.
    pub fn with_hardcoded_devices() -> (r: HalMock)
        ensures
            r.spec_devices() == mock_devices(),
    {
        let attributes = vec![
            HalAttribute::new_readonly(HalAttributeType::String, "mode"),
            HalAttribute::new_readonly(HalAttributeType::UInt32, "value0"),
        ];
        let device = HalDeviceMock {
            device_type: HalDeviceType::Sensor,
            driver_name: "lego-ev3-ir".to_owned(),
            address: "ev3-ports:in1".to_owned(),
            attributes,
        };
        let devices = vec![device];
        proof {
            assert(device.attributes@.map_values(|a: HalAttribute| row_of(a)) =~= seq![
                ro(HalAttributeType::String, "mode"@),
                ro(HalAttributeType::UInt32, "value0"@),
            ]);
            assert(mock_views(devices@) =~= mock_devices());
        }
        HalMock { devices }
    }

    /// Every device, in order.
    pub fn list_devices(&self) -> (r: Vec<HalDeviceMock>)
        ensures
            mock_views(r@) == self.spec_devices(),
    {
        let mut out: Vec<HalDeviceMock> = Vec::new();
        let mut i: usize = 0;
        while i < self.devices.len()
            invariant
                i <= self.devices@.len(),
                mock_views(out@) == self.spec_devices().subrange(0, i as int),
            decreases self.devices@.len() - i,
        {
            let ghost before = mock_views(out@);
            let d = self.devices[i].duplicate();
            out.push(d);
            assert(mock_views(out@) =~= before.push(mock_view(d)));
            i = i + 1;
            assert(mock_views(out@) =~= self.spec_devices().subrange(0, i as int));
        }
        assert(self.spec_devices().subrange(0, i as int) =~= self.spec_devices());
        out
    }

    /// The devices with driver `driver`, in order.
    pub fn by_driver(&self, driver: &str) -> (r: Vec<HalDeviceMock>)
        ensures
            mock_views(r@) == self.spec_devices().filter(
                |d: (HalDeviceType, Seq<char>, Seq<char>, Seq<AttributeRow>)| d.1 == driver@,
            ),
    {
        let mut out: Vec<HalDeviceMock> = Vec::new();
        let mut i: usize = 0;
        proof {
            reveal(Seq::filter);
            assert(self.spec_devices().subrange(0, 0).filter(
                |d: (HalDeviceType, Seq<char>, Seq<char>, Seq<AttributeRow>)| d.1 == driver@,
            ) =~= mock_views(out@));
        }
        while i < self.devices.len()
            invariant
                i <= self.devices@.len(),
                mock_views(out@) == self.spec_devices().subrange(0, i as int).filter(
                    |d: (HalDeviceType, Seq<char>, Seq<char>, Seq<AttributeRow>)| d.1 == driver@,
                ),
            decreases self.devices@.len() - i,
        {
            proof {
                reveal(Seq::filter);
                assert(self.spec_devices().subrange(0, i as int + 1).drop_last() =~= self.spec_devices().subrange(
                    0,
                    i as int,
                ));
            }
            let ghost before = mock_views(out@);
            if same_text(self.devices[i].driver_name.as_str(), driver) {
                let d = self.devices[i].duplicate();
                out.push(d);
                assert(mock_views(out@) =~= before.push(mock_view(d)));
                assert(mock_views(out@) =~= before.push(self.spec_devices()[i as int]));
            }
            i = i + 1;
        }
        assert(self.spec_devices().subrange(0, i as int) =~= self.spec_devices());
        out
    }

    /// The first device at `address`, if any.
    pub fn by_address(&self, address: &str) -> (r: Option<HalDeviceMock>)
        ensures
            match r {
                Some(d) => exists|i: int|
                    0 <= i < self.spec_devices().len() && self.spec_devices()[i].2 == address@ && mock_view(d)
                        == self.spec_devices()[i] && forall|k: int| 0 <= k < i ==> #[trigger] self.spec_devices()[k].2
                        != address@,
                None => forall|k: int| 0 <= k < self.spec_devices().len() ==> #[trigger] self.spec_devices()[k].2
                    != address@,
            },
    {
        let mut i: usize = 0;
        while i < self.devices.len()
            invariant
                i <= self.devices@.len(),
                forall|k: int| 0 <= k < i ==> #[trigger] self.spec_devices()[k].2 != address@,
            decreases self.devices@.len() - i,
        {
            if same_text(self.devices[i].address.as_str(), address) {
                let d = self.devices[i].duplicate();
                assert(self.spec_devices()[i as int].2 == address@);
                return Some(d);
            }
            i = i + 1;
        }
        None
    }
}

/// The value the mock sensor reads `secs` seconds after the epoch: rising from 0 to 100 and
/// falling back, one step a second.
pub fn mock_oscillation(secs: u64) -> (r: u64)
    ensures
        r == (if secs % 200 > 100 { 200 - secs % 200 } else { (secs % 200) as int }),
        r <= 100,
{
    let interval = secs % 200;
    if interval > 100 {
        200 - interval
    } else {
        interval
    }
}

impl Hal for HalMock {
    type Device = HalDeviceMock;

    fn list_devices(&self) -> HalResult<Vec<HalDeviceMock>> {
        Ok(HalMock::list_devices(self))
    }

    fn by_driver(&self, driver: &str) -> HalResult<Vec<HalDeviceMock>> {
        Ok(HalMock::by_driver(self, driver))
    }

    fn by_address(&self, address: &str) -> HalResult<Option<HalDeviceMock>> {
        Ok(HalMock::by_address(self, address))
    }
}

/// The EV3 hardware layer (devices under `/sys/class`).
pub struct HalEv3 {}

/// One EV3 device: its sysfs class and directory.
pub struct HalDeviceEv3 {
    pub sysfs_class: String,
    pub full_device_path: String,
}

/// An attribute row: data type, name, array, readable, writable.
pub type AttributeRow = (HalAttributeType, Seq<char>, bool, bool, bool);

/// The attributes `v` are the rows of `table`, in order.
pub open spec fn attributes_are(v: Seq<HalAttribute>, table: Seq<AttributeRow>) -> bool {
    v.len() == table.len() && forall|i: int|
        0 <= i < v.len() ==> attribute_is(
            #[trigger] v[i],
            table[i].0,
            table[i].1,
            table[i].2,
            table[i].3,
            table[i].4,
        )
}

pub open spec fn ro(t: HalAttributeType, name: Seq<char>) -> AttributeRow {
    (t, name, false, true, false)
}

pub open spec fn rw(t: HalAttributeType, name: Seq<char>) -> AttributeRow {
    (t, name, false, true, true)
}

/// The attributes every EV3 device has.
pub open spec fn common_attributes() -> Seq<AttributeRow> {
    seq![
        ro(HalAttributeType::String, "address"@),
        (HalAttributeType::String, "command"@, false, false, true),
        (HalAttributeType::String, "commands"@, true, true, false),
        ro(HalAttributeType::String, "driver_name"@),
        ro(HalAttributeType::String, "fw_version"@),
    ]
}

/// The attributes of a motor beyond the common ones.
pub open spec fn motor_attributes() -> Seq<AttributeRow> {
    seq![
        ro(HalAttributeType::Int32, "count_per_rot"@),
        ro(HalAttributeType::Int8, "duty_cycle"@),
        rw(HalAttributeType::Int8, "duty_cycle_sp"@),
        ro(HalAttributeType::Int32, "position"@),
        rw(HalAttributeType::Int32, "position_sp"@),
        rw(HalAttributeType::Int32, "ramp_down_sp"@),
        rw(HalAttributeType::Int32, "ramp_up_sp"@),
        ro(HalAttributeType::Int32, "speed"@),
        rw(HalAttributeType::Int32, "speed_sp"@),
        ro(HalAttributeType::String, "state"@),
        rw(HalAttributeType::String, "stop_action"@),
        (HalAttributeType::String, "stop_actions"@, true, true, false),
    ]
}

/// The attributes of a sensor beyond the common ones.
pub open spec fn sensor_attributes() -> Seq<AttributeRow> {
    seq![
        rw(HalAttributeType::String, "mode"@),
        (HalAttributeType::String, "modes"@, true, true, false),
        ro(HalAttributeType::UInt8, "num_values"@),
        ro(HalAttributeType::Int32, "value0"@),
        ro(HalAttributeType::Int32, "value1"@),
        ro(HalAttributeType::Int32, "value2"@),
        ro(HalAttributeType::Int32, "value3"@),
        ro(HalAttributeType::Int32, "value4"@),
        ro(HalAttributeType::Int32, "value5"@),
        ro(HalAttributeType::Int32, "value6"@),
        ro(HalAttributeType::Int32, "value7"@),
    ]
}

/// The attributes of a device of sysfs class `class`.
pub open spec fn class_attributes(class: Seq<char>) -> Seq<AttributeRow> {
    if class == "tacho-motor"@ {
        common_attributes() + motor_attributes()
    } else if class == "lego-sensor"@ {
        common_attributes() + sensor_attributes()
    } else {
        common_attributes()
    }
}

/// What the type of a device of sysfs class `class` is, if the class is known.
pub open spec fn class_device_type(class: Seq<char>) -> Option<HalDeviceType> {
    if class == "tacho-motor"@ {
        Some(HalDeviceType::Actuator)
    } else if class == "lego-sensor"@ {
        Some(HalDeviceType::Sensor)
    } else {
        None
    }
}

impl HalDeviceEv3 {
    /// Actuator for a motor, sensor for a sensor; an error for another class.
    pub fn device_type(&self) -> (r: HalResult<HalDeviceType>)
        ensures
            match class_device_type(self.sysfs_class@) {
                Some(t) => r matches Ok(x) && x == t,
                None => r is Err,
            },
    {
        let class = self.sysfs_class.as_str();
        if same_text(class, "tacho-motor") {
            Ok(HalDeviceType::Actuator)
        } else if same_text(class, "lego-sensor") {
            Ok(HalDeviceType::Sensor)
        } else {
            Err(HalError::InternalError("Unknown sysfs class".to_owned()))
        }
    }

    /// The attributes a device of this class has: the common ones, then the class's own.
    pub fn applicable_attributes(&self) -> (r: Vec<HalAttribute>)
        ensures
            attributes_are(r@, class_attributes(self.sysfs_class@)),
    {
        let mut result: Vec<HalAttribute> = Vec::new();
        result.push(HalAttribute::new_readonly(HalAttributeType::String, "address"));
        result.push(HalAttribute::new_writeonly(HalAttributeType::String, "command"));
        result.push(HalAttribute::new_readonly_array(HalAttributeType::String, "commands"));
        result.push(HalAttribute::new_readonly(HalAttributeType::String, "driver_name"));
        result.push(HalAttribute::new_readonly(HalAttributeType::String, "fw_version"));
        let class = self.sysfs_class.as_str();
        if same_text(class, "tacho-motor") {
            result.push(HalAttribute::new_readonly(HalAttributeType::Int32, "count_per_rot"));
            result.push(HalAttribute::new_readonly(HalAttributeType::Int8, "duty_cycle"));
            result.push(HalAttribute::new_rw(HalAttributeType::Int8, "duty_cycle_sp"));
            result.push(HalAttribute::new_readonly(HalAttributeType::Int32, "position"));
            result.push(HalAttribute::new_rw(HalAttributeType::Int32, "position_sp"));
            result.push(HalAttribute::new_rw(HalAttributeType::Int32, "ramp_down_sp"));
            result.push(HalAttribute::new_rw(HalAttributeType::Int32, "ramp_up_sp"));
            result.push(HalAttribute::new_readonly(HalAttributeType::Int32, "speed"));
            result.push(HalAttribute::new_rw(HalAttributeType::Int32, "speed_sp"));
            result.push(HalAttribute::new_readonly(HalAttributeType::String, "state"));
            result.push(HalAttribute::new_rw(HalAttributeType::String, "stop_action"));
            result.push(HalAttribute::new_readonly_array(HalAttributeType::String, "stop_actions"));
        } else if same_text(class, "lego-sensor") {
            result.push(HalAttribute::new_rw(HalAttributeType::String, "mode"));
            result.push(HalAttribute::new_readonly_array(HalAttributeType::String, "modes"));
            result.push(HalAttribute::new_readonly(HalAttributeType::UInt8, "num_values"));
            result.push(HalAttribute::new_readonly(HalAttributeType::Int32, "value0"));
            result.push(HalAttribute::new_readonly(HalAttributeType::Int32, "value1"));
            result.push(HalAttribute::new_readonly(HalAttributeType::Int32, "value2"));
            result.push(HalAttribute::new_readonly(HalAttributeType::Int32, "value3"));
            result.push(HalAttribute::new_readonly(HalAttributeType::Int32, "value4"));
            result.push(HalAttribute::new_readonly(HalAttributeType::Int32, "value5"));
            result.push(HalAttribute::new_readonly(HalAttributeType::Int32, "value6"));
            result.push(HalAttribute::new_readonly(HalAttributeType::Int32, "value7"));
        }
        proof {
            let t = class_attributes(self.sysfs_class@);
            assert(result@.len() == t.len());
            assert forall|i: int| 0 <= i < result@.len() implies attribute_is(
                #[trigger] result@[i],
                t[i].0,
                t[i].1,
                t[i].2,
                t[i].3,
                t[i].4,
            ) by {}
        }
        result
    }
}

} // verus!
