//! Object identification: object types, object identifiers, event states and
//! property identifiers.
use vstd::prelude::*;
use vstd::std_specs::convert::FromSpecImpl;

pub use crate::datatypes::datetime::{Date, Time};

verus! {

/// `BACnetObjectType`. Types without a name here are carried as `Other(n)`.
#[derive(Debug, Clone, Copy, PartialEq, Eq, Structural)]
pub enum ObjectType {
    AnalogInput,
    AnalogOutput,
    AnalogValue,
    BinaryInput,
    BinaryOutput,
    BinaryValue,
    Calendar,
    Command,
    Device,
    EventEnrollment,
    File,
    Group,
    Loop,
    MultiStateInput,
    MultiStateOutput,
    NotificationClass,
    Program,
    Schedule,
    Averaging,
    MultiStateValue,
    TrendLog,
    Other(u16),
}

/// The number of an object type.
pub open spec fn object_type_number(t: ObjectType) -> u16 {
    match t {
        ObjectType::AnalogInput => 0,
        ObjectType::AnalogOutput => 1,
        ObjectType::AnalogValue => 2,
        ObjectType::BinaryInput => 3,
        ObjectType::BinaryOutput => 4,
        ObjectType::BinaryValue => 5,
        ObjectType::Calendar => 6,
        ObjectType::Command => 7,
        ObjectType::Device => 8,
        ObjectType::EventEnrollment => 9,
        ObjectType::File => 10,
        ObjectType::Group => 11,
        ObjectType::Loop => 12,
        ObjectType::MultiStateInput => 13,
        ObjectType::MultiStateOutput => 14,
        ObjectType::NotificationClass => 15,
        ObjectType::Program => 16,
        ObjectType::Schedule => 17,
        ObjectType::Averaging => 18,
        ObjectType::MultiStateValue => 19,
        ObjectType::TrendLog => 20,
        ObjectType::Other(n) => n,
    }
}

/// The object type with number `n`.
pub open spec fn object_type_from_number(n: u16) -> ObjectType {
    if n == 0 {
        ObjectType::AnalogInput
    } else if n == 1 {
        ObjectType::AnalogOutput
    } else if n == 2 {
        ObjectType::AnalogValue
    } else if n == 3 {
        ObjectType::BinaryInput
    } else if n == 4 {
        ObjectType::BinaryOutput
    } else if n == 5 {
        ObjectType::BinaryValue
    } else if n == 6 {
        ObjectType::Calendar
    } else if n == 7 {
        ObjectType::Command
    } else if n == 8 {
        ObjectType::Device
    } else if n == 9 {
        ObjectType::EventEnrollment
    } else if n == 10 {
        ObjectType::File
    } else if n == 11 {
        ObjectType::Group
    } else if n == 12 {
        ObjectType::Loop
    } else if n == 13 {
        ObjectType::MultiStateInput
    } else if n == 14 {
        ObjectType::MultiStateOutput
    } else if n == 15 {
        ObjectType::NotificationClass
    } else if n == 16 {
        ObjectType::Program
    } else if n == 17 {
        ObjectType::Schedule
    } else if n == 18 {
        ObjectType::Averaging
    } else if n == 19 {
        ObjectType::MultiStateValue
    } else if n == 20 {
        ObjectType::TrendLog
    } else {
        ObjectType::Other(n)
    }
}

/// A type is in canonical form when a named type is not spelled as `Other`.
pub open spec fn object_type_canonical(t: ObjectType) -> bool {
    match t {
        ObjectType::Other(n) => n > 20,
        _ => true,
    }
}

pub proof fn lemma_object_type_number(t: ObjectType, n: u16)
    ensures
        object_type_canonical(t) ==> object_type_from_number(object_type_number(t)) == t,
        object_type_number(object_type_from_number(n)) == n,
        object_type_canonical(object_type_from_number(n)),
{
}

impl ObjectType {
    pub fn to_u16(self) -> (r: u16)
        ensures
            r == object_type_number(self),
    {
        match self {
            ObjectType::AnalogInput => 0,
            ObjectType::AnalogOutput => 1,
            ObjectType::AnalogValue => 2,
            ObjectType::BinaryInput => 3,
            ObjectType::BinaryOutput => 4,
            ObjectType::BinaryValue => 5,
            ObjectType::Calendar => 6,
            ObjectType::Command => 7,
            ObjectType::Device => 8,
            ObjectType::EventEnrollment => 9,
            ObjectType::File => 10,
            ObjectType::Group => 11,
            ObjectType::Loop => 12,
            ObjectType::MultiStateInput => 13,
            ObjectType::MultiStateOutput => 14,
            ObjectType::NotificationClass => 15,
            ObjectType::Program => 16,
            ObjectType::Schedule => 17,
            ObjectType::Averaging => 18,
            ObjectType::MultiStateValue => 19,
            ObjectType::TrendLog => 20,
            ObjectType::Other(n) => n,
        }
    }

    pub fn from_u16(n: u16) -> (r: ObjectType)
        ensures
            r == object_type_from_number(n),
    {
        match n {
            0 => ObjectType::AnalogInput,
            1 => ObjectType::AnalogOutput,
            2 => ObjectType::AnalogValue,
            3 => ObjectType::BinaryInput,
            4 => ObjectType::BinaryOutput,
            5 => ObjectType::BinaryValue,
            6 => ObjectType::Calendar,
            7 => ObjectType::Command,
            8 => ObjectType::Device,
            9 => ObjectType::EventEnrollment,
            10 => ObjectType::File,
            11 => ObjectType::Group,
            12 => ObjectType::Loop,
            13 => ObjectType::MultiStateInput,
            14 => ObjectType::MultiStateOutput,
            15 => ObjectType::NotificationClass,
            16 => ObjectType::Program,
            17 => ObjectType::Schedule,
            18 => ObjectType::Averaging,
            19 => ObjectType::MultiStateValue,
            20 => ObjectType::TrendLog,
            _ => ObjectType::Other(n),
        }
    }
}

/// `BACnetObjectIdentifier`: a 10-bit object type and a 22-bit instance number.
#[derive(Debug, Clone, Copy, PartialEq, Eq, Structural)]
pub struct ObjectIdentifier {
    pub object_type: ObjectType,
    pub instance: u32,
}

/// Largest instance number an object identifier can carry.
pub const MAX_INSTANCE: u32 = 0x3F_FFFF;

/// Largest object type number an object identifier can carry.
pub const MAX_OBJECT_TYPE: u16 = 0x3FF;

/// An identifier fits the 32-bit wire form.
pub open spec fn object_id_encodable(oid: ObjectIdentifier) -> bool {
    object_type_number(oid.object_type) <= MAX_OBJECT_TYPE && oid.instance <= MAX_INSTANCE
}

/// An identifier that fits the wire form and spells its type canonically.
pub open spec fn object_id_wf(oid: ObjectIdentifier) -> bool {
    object_id_encodable(oid) && object_type_canonical(oid.object_type)
}

/// The 32-bit wire value of an identifier.
pub open spec fn object_id_value(oid: ObjectIdentifier) -> nat {
    object_type_number(oid.object_type) as nat * 4194304 + oid.instance as nat
}

/// The identifier that a 32-bit wire value stands for.
pub open spec fn object_id_from_value(v: nat) -> ObjectIdentifier {
    ObjectIdentifier {
        object_type: object_type_from_number((v / 4194304) as u16),
        instance: (v % 4194304) as u32,
    }
}

pub proof fn lemma_object_id_value(oid: ObjectIdentifier)
    requires
        object_id_encodable(oid),
    ensures
        object_id_value(oid) < 0x1_0000_0000,
        object_type_canonical(oid.object_type) ==> object_id_from_value(object_id_value(oid)) == oid,
{
    lemma_object_type_number(oid.object_type, 0);
    let v = object_id_value(oid);
    assert(v / 4194304 == object_type_number(oid.object_type) as nat);
    assert(v % 4194304 == oid.instance as nat);
}

impl ObjectIdentifier {
    pub fn new(object_type: ObjectType, instance: u32) -> (r: Self)
        ensures
            r.object_type == object_type,
            r.instance == instance,
    {
        ObjectIdentifier { object_type, instance }
    }
}

/// `BACnetEventState`. States without a name here are carried as `Other(n)`.
#[derive(Debug, Clone, Copy, PartialEq, Eq, Structural)]
pub enum EventState {
    Normal,
    Fault,
    Offnormal,
    HighLimit,
    LowLimit,
    LifeSafetyAlarm,
    Other(u16),
}

pub open spec fn event_state_number(s: EventState) -> u16 {
    match s {
        EventState::Normal => 0,
        EventState::Fault => 1,
        EventState::Offnormal => 2,
        EventState::HighLimit => 3,
        EventState::LowLimit => 4,
        EventState::LifeSafetyAlarm => 5,
        EventState::Other(n) => n,
    }
}

pub open spec fn event_state_from_number(n: u16) -> EventState {
    if n == 0 {
        EventState::Normal
    } else if n == 1 {
        EventState::Fault
    } else if n == 2 {
        EventState::Offnormal
    } else if n == 3 {
        EventState::HighLimit
    } else if n == 4 {
        EventState::LowLimit
    } else if n == 5 {
        EventState::LifeSafetyAlarm
    } else {
        EventState::Other(n)
    }
}

/// A state is in canonical form when a named state is not spelled as `Other`.
pub open spec fn event_state_canonical(s: EventState) -> bool {
    match s {
        EventState::Other(n) => n > 5,
        _ => true,
    }
}

pub proof fn lemma_event_state_number(s: EventState)
    requires
        event_state_canonical(s),
    ensures
        event_state_from_number(event_state_number(s)) == s,
{
}

impl EventState {
    pub fn to_u16(self) -> (r: u16)
        ensures
            r == event_state_number(self),
    {
        match self {
            EventState::Normal => 0,
            EventState::Fault => 1,
            EventState::Offnormal => 2,
            EventState::HighLimit => 3,
            EventState::LowLimit => 4,
            EventState::LifeSafetyAlarm => 5,
            EventState::Other(n) => n,
        }
    }

    pub fn from_u16(n: u16) -> (r: EventState)
        ensures
            r == event_state_from_number(n),
    {
        match n {
            0 => EventState::Normal,
            1 => EventState::Fault,
            2 => EventState::Offnormal,
            3 => EventState::HighLimit,
            4 => EventState::LowLimit,
            5 => EventState::LifeSafetyAlarm,
            _ => EventState::Other(n),
        }
    }
}

/// `BACnetPropertyIdentifier`, carried as its number.
#[derive(Debug, Clone, Copy, PartialEq, Eq, Structural)]
pub struct PropertyIdentifier {
    pub id: u32,
}

impl PropertyIdentifier {
    pub fn to_u32(self) -> (r: u32)
        ensures
            r == self.id,
    {
        self.id
    }
}

impl From<u32> for PropertyIdentifier {
    fn from(id: u32) -> (r: PropertyIdentifier) {
        PropertyIdentifier { id }
    }
}

impl FromSpecImpl<u32> for PropertyIdentifier {
    open spec fn obeys_from_spec() -> bool {
        true
    }

    open spec fn from_spec(id: u32) -> PropertyIdentifier {
        PropertyIdentifier { id }
    }
}

} // verus!
