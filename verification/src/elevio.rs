use vstd::prelude::*;

verus! {

/// Motor direction command: move down (the driver's encoding of -1).
pub const DIRN_DOWN: u8 = 255;

/// Motor direction command: stand still.
pub const DIRN_STOP: u8 = 0;

/// Motor direction command: move up.
pub const DIRN_UP: u8 = 1;

/// The three kinds of call button an elevator has at a floor.
#[derive(Debug, PartialEq, Eq, Structural, Hash, Clone, Copy)]
pub enum CallType {
    HallUp,
    HallDown,
    Cab,
}

/// The button code that the elevator driver uses for each call type.
pub open spec fn call_code(c: CallType) -> u8 {
    match c {
        CallType::HallUp => 0,
        CallType::HallDown => 1,
        CallType::Cab => 2,
    }
}

/// The call type with a given driver button code (codes 0, 1 and 2).
pub open spec fn call_of_code(v: u8) -> CallType
    recommends
        v < 3,
{
    if v == 0 {
        CallType::HallUp
    } else if v == 1 {
        CallType::HallDown
    } else {
        CallType::Cab
    }
}

impl CallType {
    /// Decodes a driver button code; codes above 2 are not call types.
    pub fn from_u8(v: u8) -> (c: CallType)
        requires
            v < 3,
        ensures
            c == call_of_code(v),
            call_code(c) == v,
    {
        match v {
            0 => CallType::HallUp,
            1 => CallType::HallDown,
            _ => CallType::Cab,
        }
    }

    /// The driver button code of this call type.
    pub fn as_u8(self) -> (v: u8)
        ensures
            v == call_code(self),
            v < 3,
    {
        match self {
            CallType::HallUp => 0,
            CallType::HallDown => 1,
            CallType::Cab => 2,
        }
    }

    /// Whether this is a hall call (up or down), as opposed to a cab call.
    pub fn is_hall(self) -> (b: bool)
        ensures
            b <==> (self == CallType::HallUp || self == CallType::HallDown),
            b <==> self != CallType::Cab,
    {
        match self {
            CallType::Cab => false,
            _ => true,
        }
    }
}

/// Decoding a button code and encoding it again gives back the code, and
/// encoding a call type and decoding it again gives back the call type.
pub proof fn lemma_call_code_round_trip(c: CallType, v: u8)
    ensures
        call_of_code(call_code(c)) == c,
        v < 3 ==> call_code(call_of_code(v)) == v,
{
}

/// A call button: a floor and a call type.
#[derive(Debug, PartialEq, Eq, Structural, Hash, Clone, Copy)]
pub struct CallButton {
    pub floor: u8,
    pub call: CallType,
}

} // verus!
