//! The device and attribute records that the device resources serve, built from the HAL.
use crate::hal::{HalAttribute, HalAttributeType, HalDevice, HalDeviceType, HalResult};
use crate::text::{split_on, split_str};
use vstd::prelude::*;
use vstd::string::StringExecFns;

verus! {

/// A device as listed to clients.
#[derive(Debug)]
pub struct Device {
    pub type_label: String,
    pub driver_name: String,
    pub address: String,
    pub attributes: Vec<Attribute>,
}

/// An attribute as listed to clients.
#[derive(Debug)]
pub struct Attribute {
    pub type_label: String,
    pub name: String,
    pub is_readable: bool,
    pub is_writable: bool,
}

/// The name clients see for a device type.
pub open spec fn device_type_label(t: HalDeviceType) -> Seq<char> {
    match t {
        HalDeviceType::Sensor => "sensor"@,
        HalDeviceType::Actuator => "actuator"@,
    }
}

/// The name clients see for a data type; unsigned types go by their signed names.
pub open spec fn data_type_label(t: HalAttributeType) -> Seq<char> {
    match t {
        HalAttributeType::Int8 | HalAttributeType::UInt8 => "int8"@,
        HalAttributeType::Int16 | HalAttributeType::UInt16 => "int16"@,
        HalAttributeType::Int32 | HalAttributeType::UInt32 => "int32"@,
        HalAttributeType::Int64 | HalAttributeType::UInt64 => "int64"@,
        HalAttributeType::Float32 => "float"@,
        HalAttributeType::Float64 => "double"@,
        HalAttributeType::String => "string"@,
    }
}

/// The type name of an attribute: its data type's, in brackets for an array.
pub open spec fn attribute_type_label(a: HalAttribute) -> Seq<char> {
    if a.is_array {
        seq!['['] + data_type_label(a.data_type) + seq![']']
    } else {
        data_type_label(a.data_type)
    }
}

/// The record of an attribute.
pub open spec fn is_attribute_record(r: Attribute, a: HalAttribute) -> bool {
    &&& r.type_label@ == attribute_type_label(a)
    &&& r.name@ == a.name@
    &&& r.is_readable == a.is_readable
    &&& r.is_writable == a.is_writable
}

fn data_type_text(t: HalAttributeType) -> (r: &'static str)
    ensures
        r@ == data_type_label(t),
{
    proof {
        reveal_strlit("int8");
        reveal_strlit("int16");
        reveal_strlit("int32");
        reveal_strlit("int64");
        reveal_strlit("float");
        reveal_strlit("double");
        reveal_strlit("string");
    }
    match t {
        HalAttributeType::Int8 | HalAttributeType::UInt8 => "int8",
        HalAttributeType::Int16 | HalAttributeType::UInt16 => "int16",
        HalAttributeType::Int32 | HalAttributeType::UInt32 => "int32",
        HalAttributeType::Int64 | HalAttributeType::UInt64 => "int64",
        HalAttributeType::Float32 => "float",
        HalAttributeType::Float64 => "double",
        HalAttributeType::String => "string",
    }
}

impl Attribute {
    /// The record of a HAL attribute.
    pub fn from_hal(hal: HalAttribute) -> (r: Attribute)
        ensures
            is_attribute_record(r, hal),
    {
        let data_type = data_type_text(hal.data_type);
        let shown_type = if hal.is_array {
            proof {
                reveal_strlit("[");
                reveal_strlit("]");
            }
            let t = "[".to_owned().concat(data_type).concat("]");
            assert(t@ =~= seq!['['] + data_type_label(hal.data_type) + seq![']']);
            t
        } else {
            data_type.to_owned()
        };
        Attribute { type_label: shown_type, name: hal.name, is_readable: hal.is_readable, is_writable: hal.is_writable }
    }
}

impl Device {
    /// The record of a device of type `device_type`, with these driver, address and
    /// attributes.
    pub fn from_parts(
        device_type: HalDeviceType,
        driver_name: String,
        address: String,
        hal_attributes: Vec<HalAttribute>,
    ) -> (r: Device)
        ensures
            r.type_label@ == device_type_label(device_type),
            r.driver_name == driver_name,
            r.address == address,
            r.attributes@.len() == hal_attributes@.len(),
            forall|i: int|
                0 <= i < hal_attributes@.len() ==> is_attribute_record(
                    #[trigger] r.attributes@[i],
                    hal_attributes@[i],
                ),
    {
        let shown_type = match device_type {
            HalDeviceType::Sensor => "sensor".to_owned(),
            HalDeviceType::Actuator => "actuator".to_owned(),
        };
        let mut attributes: Vec<Attribute> = Vec::new();
        let mut rest = hal_attributes;
        let ghost all = rest@;
        // Converted from the back, then put back in order.
        let mut reversed: Vec<Attribute> = Vec::new();
        while rest.len() > 0
            invariant
                rest@ == all.subrange(0, rest@.len() as int),
                rest@.len() + reversed@.len() == all.len(),
                forall|k: int|
                    0 <= k < reversed@.len() ==> is_attribute_record(
                        #[trigger] reversed@[k],
                        all[all.len() - 1 - k],
                    ),
            decreases rest@.len(),
        {
            let a = rest.pop().unwrap();
            let rec = Attribute::from_hal(a);
            reversed.push(rec);
        }
        while reversed.len() > 0
            invariant
                attributes@.len() + reversed@.len() == all.len(),
                forall|k: int|
                    0 <= k < reversed@.len() ==> is_attribute_record(
                        #[trigger] reversed@[k],
                        all[all.len() - 1 - k],
                    ),
                forall|k: int| 0 <= k < attributes@.len() ==> is_attribute_record(#[trigger] attributes@[k], all[k]),
            decreases reversed@.len(),
        {
            let rec = reversed.pop().unwrap();
            attributes.push(rec);
        }
        Device { type_label: shown_type, driver_name, address, attributes }
    }

    /// The record of a HAL device, or the first error reading it.
    pub fn from_hal<D: HalDevice>(hal: &D) -> (r: HalResult<Device>)
        ensures
            r matches Ok(d) ==> (d.type_label@ == "sensor"@ || d.type_label@ == "actuator"@),
    {
        let device_type = match hal.get_type() {
            Ok(t) => t,
            Err(e) => return Err(e),
        };
        let attributes = match hal.get_applicable_attributes() {
            Ok(a) => a,
            Err(e) => return Err(e),
        };
        let driver_name = match hal.get_driver_name() {
            Ok(n) => n,
            Err(e) => return Err(e),
        };
        let address = match hal.get_address() {
            Ok(a) => a,
            Err(e) => return Err(e),
        };
        Ok(Self::from_parts(device_type, driver_name, address, attributes))
    }
}

} // verus!

verus! {

/// What a request below `/devices` asks for.
#[derive(Debug)]
pub enum DevicesQuery {
    /// Every device.
    All,
    /// The devices with this driver.
    ByDriver(String),
}

/// What a request below `/device` asks for.
#[derive(Debug)]
pub enum DeviceQuery {
    /// The device record.
    Device { address: String },
    /// Every attribute value.
    AllAttributes { address: String },
    /// The values of these attributes (a comma-separated list).
    SomeAttributes { address: String, names: Vec<String> },
    /// The value of one attribute.
    OneAttribute { address: String, name: String },
}

/// Why a device path names nothing.
#[derive(Debug, Clone, Copy, PartialEq, Eq, Structural)]
pub enum DevicePathError {
    /// 4.00: a driver name or address is missing.
    MissingSegment,
    /// 4.04: the path has no meaning.
    NotFound,
}

/// The segments of a path, as strings.
pub open spec fn segs(p: Seq<String>) -> Seq<Seq<char>> {
    crate::text::strings_view(p)
}

/// Reads the path below `/devices`: nothing for all devices, `by_driver/<name>` for one driver.
pub fn parse_devices_path(remaining: &Vec<String>) -> (r: Result<DevicesQuery, DevicePathError>)
    ensures
        remaining@.len() == 0 ==> r matches Ok(DevicesQuery::All),
        remaining@.len() > 0 && segs(remaining@)[0] != "by_driver"@ ==> r == Err::<
            DevicesQuery,
            DevicePathError,
        >(DevicePathError::NotFound),
        remaining@.len() == 1 && segs(remaining@)[0] == "by_driver"@ ==> r == Err::<
            DevicesQuery,
            DevicePathError,
        >(DevicePathError::MissingSegment),
        remaining@.len() > 1 && segs(remaining@)[0] == "by_driver"@ ==> (r matches Ok(
            DevicesQuery::ByDriver(d),
        ) && d@ == segs(remaining@)[1]),
{
    if remaining.len() == 0 {
        return Ok(DevicesQuery::All);
    }
    if !crate::text::same_text(remaining[0].as_str(), "by_driver") {
        return Err(DevicePathError::NotFound);
    }
    if remaining.len() == 1 {
        return Err(DevicePathError::MissingSegment);
    }
    Ok(DevicesQuery::ByDriver(remaining[1].clone()))
}

/// Reads the path below `/device`: `<address>`, `<address>/attributes`, or
/// `<address>/attributes/<name>[,<name>...]`.
pub fn parse_device_path(remaining: &Vec<String>) -> (r: Result<DeviceQuery, DevicePathError>)
    ensures
        remaining@.len() == 0 ==> r == Err::<DeviceQuery, DevicePathError>(DevicePathError::MissingSegment),
        remaining@.len() == 1 ==> (r matches Ok(DeviceQuery::Device { address }) && address@ == segs(
            remaining@,
        )[0]),
        remaining@.len() >= 2 && segs(remaining@)[1] != "attributes"@ ==> r == Err::<
            DeviceQuery,
            DevicePathError,
        >(DevicePathError::NotFound),
        remaining@.len() == 2 && segs(remaining@)[1] == "attributes"@ ==> (r matches Ok(
            DeviceQuery::AllAttributes { address },
        ) && address@ == segs(remaining@)[0]),
        remaining@.len() >= 3 && segs(remaining@)[1] == "attributes"@ && segs(remaining@)[2].contains(',')
            ==> (r matches Ok(DeviceQuery::SomeAttributes { address, names }) && address@ == segs(
            remaining@,
        )[0] && crate::text::strings_view(names@) == split_on(segs(remaining@)[2], ',')),
        remaining@.len() >= 3 && segs(remaining@)[1] == "attributes"@ && !segs(remaining@)[2].contains(',')
            ==> (r matches Ok(DeviceQuery::OneAttribute { address, name }) && address@ == segs(
            remaining@,
        )[0] && name@ == segs(remaining@)[2]),
{
    if remaining.len() == 0 {
        return Err(DevicePathError::MissingSegment);
    }
    let address = remaining[0].clone();
    if remaining.len() == 1 {
        return Ok(DeviceQuery::Device { address });
    }
    if !crate::text::same_text(remaining[1].as_str(), "attributes") {
        return Err(DevicePathError::NotFound);
    }
    if remaining.len() == 2 {
        return Ok(DeviceQuery::AllAttributes { address });
    }
    let names = split_str(remaining[2].as_str(), ',');
    if names.len() > 1 {
        proof {
            lemma_split_contains(remaining@[2]@, ',');
        }
        Ok(DeviceQuery::SomeAttributes { address, names })
    } else {
        proof {
            lemma_split_contains(remaining@[2]@, ',');
        }
        Ok(DeviceQuery::OneAttribute { address, name: remaining[2].clone() })
    }
}

/// A text holds the separator exactly when splitting it gives more than one piece.
pub proof fn lemma_split_contains(s: Seq<char>, sep: char)
    ensures
        s.contains(sep) <==> split_on(s, sep).len() > 1,
    decreases s.len(),
{
    crate::text::lemma_split_on_nonempty(s, sep);
    if s.len() > 0 {
        lemma_split_contains(s.drop_last(), sep);
        crate::text::lemma_split_on_nonempty(s.drop_last(), sep);
        if s.drop_last().contains(sep) {
            let i = choose|i: int| 0 <= i < s.drop_last().len() && s.drop_last()[i] == sep;
            assert(s[i] == sep);
        }
        if s.contains(sep) && s.last() != sep {
            let i = choose|i: int| 0 <= i < s.len() && s[i] == sep;
            assert(i < s.len() - 1);
            assert(s.drop_last()[i] == sep);
        }
        if s.last() == sep {
            assert(s[s.len() - 1] == sep);
        }
    }
}

} // verus!
