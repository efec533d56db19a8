use vstd::prelude::*;

use crate::elevio::{CallButton, CallType};

verus! {

/// How often the sensors and buttons are read, in milliseconds.
pub const POLL_PERIOD_MS: u64 = 25;

/// The press of button `call` at floor `f` when it reads pressed now and
/// did not at the last scan.
pub open spec fn press_if(f: u8, call: CallType, was: bool, is: bool) -> Seq<CallButton> {
    if is && !was {
        seq![CallButton { floor: f, call }]
    } else {
        Seq::empty()
    }
}

/// The presses at floor `f`, hall up first, then hall down, then cab.
pub open spec fn row_presses(f: u8, was: [bool; 3], is: [bool; 3]) -> Seq<CallButton> {
    press_if(f, CallType::HallUp, was[0], is[0]) + press_if(f, CallType::HallDown, was[1], is[1])
        + press_if(f, CallType::Cab, was[2], is[2])
}

/// The presses of the first `n` floors, floor by floor from the ground.
pub open spec fn presses(was: Seq<[bool; 3]>, is: Seq<[bool; 3]>, n: nat) -> Seq<CallButton>
    decreases n,
{
    if n == 0 {
        Seq::empty()
    } else {
        presses(was, is, (n - 1) as nat) + row_presses((n - 1) as u8, was[n - 1], is[n - 1])
    }
}

/// The call buttons as last read, one row per floor, to report each press once.
pub struct ButtonScanner {
    num_floors: u8,
    prev: Vec<[bool; 3]>,
}

impl ButtonScanner {
    /// The buttons as last read.
    pub closed spec fn prev_view(&self) -> Seq<[bool; 3]> {
        self.prev@
    }

    /// The number of floors.
    pub closed spec fn floors_view(&self) -> u8 {
        self.num_floors
    }

    /// Every button of `num_floors` floors read as released.
    pub fn new(num_floors: u8) -> (s: Self)
        ensures
            s.floors_view() == num_floors,
            s.prev_view().len() == num_floors,
            forall|f: int, c: int| 0 <= f < num_floors && 0 <= c < 3 ==> !#[trigger] s.prev_view()[f][c],
    {
        let mut prev: Vec<[bool; 3]> = Vec::new();
        let mut i: u8 = 0;
        while i < num_floors
            invariant
                0 <= i <= num_floors,
                prev@.len() == i,
                forall|f: int, c: int| 0 <= f < i && 0 <= c < 3 ==> !#[trigger] prev@[f][c],
            decreases num_floors - i,
        {
            prev.push([false, false, false]);
            i = i + 1;
        }
        ButtonScanner { num_floors, prev }
    }

    /// One scan: `readings` holds a row per floor (hall up, hall down,
    /// cab). A button reads as a new press when it is pressed now and was
    /// not at the last scan; the presses come floor by floor from the
    /// ground, and the readings are kept for the next scan.
    pub fn scan(&mut self, readings: &Vec<[bool; 3]>) -> (r: Vec<CallButton>)
        requires
            readings@.len() == old(self).floors_view(),
            old(self).prev_view().len() == old(self).floors_view(),
        ensures
            final(self).floors_view() == old(self).floors_view(),
            final(self).prev_view() == readings@,
            r@ == presses(old(self).prev_view(), readings@, readings@.len() as nat),
    {
        let ghost was = self.prev@;
        let n = self.num_floors;
        let mut out: Vec<CallButton> = Vec::new();
        let mut f: u8 = 0;
        while f < n
            invariant
                n == self.num_floors,
                n == readings@.len(),
                0 <= f <= n,
                was.len() == n,
                self.prev@.len() == n,
                forall|k: int| 0 <= k < f ==> self.prev@[k] == readings@[k],
                forall|k: int| f <= k < n ==> self.prev@[k] == was[k],
                out@ == presses(was, readings@, f as nat),
            decreases n - f,
        {
            let fi = f as usize;
            let old_row = self.prev[fi];
            let row = readings[fi];
            let ghost before = out@;
            if row[0] && !old_row[0] {
                out.push(CallButton { floor: f, call: CallType::HallUp });
            }
            let ghost mid1 = out@;
            if row[1] && !old_row[1] {
                out.push(CallButton { floor: f, call: CallType::HallDown });
            }
            let ghost mid2 = out@;
            if row[2] && !old_row[2] {
                out.push(CallButton { floor: f, call: CallType::Cab });
            }
            proof {
                assert(mid1 =~= before + press_if(f, CallType::HallUp, old_row[0], row[0]));
                assert(mid2 =~= mid1 + press_if(f, CallType::HallDown, old_row[1], row[1]));
                assert(out@ =~= mid2 + press_if(f, CallType::Cab, old_row[2], row[2]));
                assert(out@ =~= before + row_presses(f, old_row, row));
                assert(((f + 1) as nat - 1) as u8 == f);
            }
            self.prev.set(fi, row);
            f = f + 1;
        }
        assert(self.prev@ =~= readings@);
        out
    }
}

/// The last reading of the floor sensor, to report each change once.
pub struct FloorWatch {
    prev: Option<u8>,
}

impl FloorWatch {
    /// The last reading.
    pub closed spec fn prev_view(&self) -> Option<u8> {
        self.prev
    }

    /// No floor read yet.
    pub fn new() -> (w: Self)
        ensures
            w.prev_view() is None,
    {
        FloorWatch { prev: None }
    }

    /// A reading of the sensor: it is reported when it differs from the last one.
    pub fn observe(&mut self, current: Option<u8>) -> (r: Option<Option<u8>>)
        ensures
            final(self).prev_view() == current,
            r == (if current != old(self).prev_view() {
                Some(current)
            } else {
                None
            }),
    {
        let changed = match (current, self.prev) {
            (Some(a), Some(b)) => a != b,
            (None, None) => false,
            _ => true,
        };
        if changed {
            self.prev = current;
            Some(current)
        } else {
            None
        }
    }
}

/// The last reading of a switch (the stop button or the obstruction
/// switch), to report each change once.
pub struct SwitchWatch {
    prev: bool,
}

impl SwitchWatch {
    /// The last reading.
    pub closed spec fn prev_view(&self) -> bool {
        self.prev
    }

    /// The switch read as off.
    pub fn new() -> (w: Self)
        ensures
            !w.prev_view(),
    {
        SwitchWatch { prev: false }
    }

    /// A reading of the switch: it is reported when it differs from the last one.
    pub fn observe(&mut self, current: bool) -> (r: Option<bool>)
        ensures
            final(self).prev_view() == current,
            r == (if current != old(self).prev_view() {
                Some(current)
            } else {
                None
            }),
    {
        if current != self.prev {
            self.prev = current;
            Some(current)
        } else {
            None
        }
    }
}

} // verus!
