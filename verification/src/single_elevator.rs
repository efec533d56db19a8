//! The single-elevator controller: call buttons with numeric call codes,
//! door handling, the motor's way to a floor, order bookkeeping for a
//! small fixed fleet, and the framing of its UDP packets.

pub mod barrier_system;
pub mod order_management;
pub mod udp;

use vstd::prelude::*;

use crate::elevio::{DIRN_STOP, DIRN_UP};
use crate::motor::{direction_change, find_direction};

verus! {

/// Number of floors of the single-elevator controller.
pub const NUM_FLOORS: u8 = 4;

/// Number of elevators the single-elevator controller plans for.
pub const NUM_ELEVATORS: u8 = 3;

/// A call button: a floor and a call code (0 hall up, 1 hall down, 2 cab).
#[derive(Debug, Clone, Copy, PartialEq, Eq, Structural)]
pub struct CallButton {
    pub floor: u8,
    pub call: u8,
}

/// The door state of the single elevator.
pub struct Elevator {
    door_state: bool,
}

impl Elevator {
    /// Whether the door is open.
    pub closed spec fn door_open(&self) -> bool {
        self.door_state
    }

    /// An elevator with its door closed.
    pub fn new() -> (e: Self)
        ensures
            !e.door_open(),
    {
        Elevator { door_state: false }
    }

    /// Opens the door; returns the state to give the door light (on).
    pub fn open_doors(&mut self) -> (light: bool)
        ensures
            final(self).door_open(),
            light,
    {
        self.door_state = true;
        true
    }

    /// Closes the door; returns the state to give the door light (off).
    pub fn close_doors(&mut self) -> (light: bool)
        ensures
            !final(self).door_open(),
            !light,
    {
        self.door_state = false;
        false
    }

    /// Whether the door is open.
    pub fn is_door_open(&self) -> (b: bool)
        ensures
            b == self.door_open(),
    {
        self.door_state
    }
}

/// The state with which the single elevator drives to a floor.
#[derive(Debug, Clone, Copy)]
pub struct GotoFloor {
    pub last_floor: u8,
    pub between_floors: bool,
    pub direction: Option<u8>,
    pub target_floor: u8,
}

impl GotoFloor {
    /// Starts at a floor read by the sensor.
    pub fn at_floor(floor: u8) -> (g: Self)
        ensures
            g.last_floor == floor,
            !g.between_floors,
            g.direction is None,
            g.target_floor == 0,
    {
        GotoFloor { last_floor: floor, between_floors: false, direction: None, target_floor: 0 }
    }

    /// Starts after driving up to the first floor seen, `floor`; the
    /// controller records the floor above it.
    pub fn after_search(floor: u8) -> (g: Self)
        requires
            floor < 255,
        ensures
            g.last_floor == floor + 1,
            !g.between_floors,
            g.direction is None,
            g.target_floor == 0,
    {
        GotoFloor { last_floor: floor + 1, between_floors: false, direction: None, target_floor: 0 }
    }

    /// A call: the target becomes its floor and the motor turns when needed.
    pub fn on_call(&mut self, call: CallButton) -> (r: Option<u8>)
        ensures
            final(self).target_floor == call.floor,
            final(self).last_floor == old(self).last_floor,
            final(self).between_floors == old(self).between_floors,
            r == direction_change(old(self).last_floor, old(self).between_floors, call.floor, old(self).direction),
            final(self).direction == (if r is Some {
                r
            } else {
                old(self).direction
            }),
    {
        self.target_floor = call.floor;
        let r = find_direction(self.last_floor, self.between_floors, self.target_floor, self.direction);
        if let Some(dir) = r {
            self.direction = Some(dir);
        }
        r
    }

    /// A floor sensor reading: at the target floor the motor stops.
    pub fn on_floor(&mut self, reading: Option<u8>) -> (r: Option<u8>)
        ensures
            final(self).target_floor == old(self).target_floor,
            match reading {
                None => final(self).between_floors && final(self).last_floor == old(self).last_floor
                    && final(self).direction == old(self).direction && r is None,
                Some(f) => !final(self).between_floors && final(self).last_floor == f && if f == old(
                    self,
                ).target_floor {
                    final(self).direction == Some(DIRN_STOP) && r == Some(DIRN_STOP)
                } else {
                    final(self).direction == old(self).direction && r is None
                },
            },
    {
        match reading {
            Some(floor) => {
                self.between_floors = false;
                self.last_floor = floor;
                if floor == self.target_floor {
                    self.direction = Some(DIRN_STOP);
                    Some(DIRN_STOP)
                } else {
                    None
                }
            },
            None => {
                self.between_floors = true;
                None
            },
        }
    }
}

/// Searching for a floor at start-up runs the motor upwards.
pub fn search_direction() -> (d: u8)
    ensures
        d == DIRN_UP,
{
    DIRN_UP
}

} // verus!
