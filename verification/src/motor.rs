use vstd::prelude::*;

use crate::elevio::{CallButton, CallType, DIRN_DOWN, DIRN_STOP, DIRN_UP};
use crate::types::{Position, NUM_FLOORS};

verus! {

/// The motor direction needed to go from `last_floor` to `target_floor`,
/// or nothing when the motor already runs that way. At the target floor the
/// motor stops, unless the car is between floors, where it turns back.
pub open spec fn direction_change(last_floor: u8, between_floors: bool, target_floor: u8, direction: Option<u8>) -> Option<u8> {
    if last_floor < target_floor {
        if direction == Some(DIRN_UP) {
            None
        } else {
            Some(DIRN_UP)
        }
    } else if last_floor > target_floor {
        if direction == Some(DIRN_DOWN) {
            None
        } else {
            Some(DIRN_DOWN)
        }
    } else if direction == Some(DIRN_STOP) {
        None
    } else if !between_floors {
        Some(DIRN_STOP)
    } else if direction == Some(DIRN_UP) {
        Some(DIRN_DOWN)
    } else {
        Some(DIRN_UP)
    }
}

/// The motor direction needed to reach `target_floor`, or nothing when the
/// motor already runs the right way.
pub fn find_direction(last_floor: u8, between_floors: bool, target_floor: u8, direction: Option<u8>) -> (r: Option<u8>)
    ensures
        r == direction_change(last_floor, between_floors, target_floor, direction),
{
    if last_floor < target_floor {
        match direction {
            Some(DIRN_UP) => None,
            _ => Some(DIRN_UP),
        }
    } else if last_floor > target_floor {
        match direction {
            Some(DIRN_DOWN) => None,
            _ => Some(DIRN_DOWN),
        }
    } else {
        match direction {
            Some(DIRN_STOP) => None,
            _ => {
                if between_floors == false {
                    Some(DIRN_STOP)
                } else {
                    if direction == Some(DIRN_UP) {
                        Some(DIRN_DOWN)
                    } else {
                        Some(DIRN_UP)
                    }
                }
            },
        }
    }
}

/// A direction change never repeats the direction the motor already runs,
/// and away from the target floor it always points towards it.
pub proof fn lemma_direction_change_is_new(last_floor: u8, between_floors: bool, target_floor: u8, direction: Option<u8>)
    ensures
        direction_change(last_floor, between_floors, target_floor, direction) matches Some(d) ==> Some(d)
            != direction,
        last_floor < target_floor ==> direction_change(last_floor, between_floors, target_floor, direction)
            != Some(DIRN_DOWN),
        last_floor > target_floor ==> direction_change(last_floor, between_floors, target_floor, direction)
            != Some(DIRN_UP),
        last_floor == target_floor && !between_floors ==> direction_change(
            last_floor,
            between_floors,
            target_floor,
            direction,
        ) is None || direction_change(last_floor, between_floors, target_floor, direction) == Some(DIRN_STOP),
{
}

/// What the motor controller asks of the elevator hardware.
#[derive(Debug, Clone, Copy, PartialEq, Eq, Structural)]
pub enum MotorAction {
    /// Run the motor in a direction.
    Motor(u8),
    /// Serve the call at the current floor: open the door, keep it open for
    /// the door time and while it is obstructed, close it, and report the call done.
    ServeCall(CallButton),
    /// Report that the car is at a floor.
    ReportFloor(u8),
}

/// The state of the motor controller.
#[derive(Debug, Clone, Copy)]
pub struct MotorState {
    pub last_floor: u8,
    pub between_floors: bool,
    pub direction: Option<u8>,
    pub target_call: CallButton,
}

/// The light commands that turn off every call light before the controller starts.
pub open spec fn lights_off_list(n: nat) -> Seq<(CallButton, bool)>
    decreases n,
{
    if n == 0 {
        seq![]
    } else {
        let f = (n - 1) as u8;
        lights_off_list((n - 1) as nat) + seq![
            (CallButton { floor: f, call: CallType::Cab }, false),
            (CallButton { floor: f, call: CallType::HallDown }, false),
            (CallButton { floor: f, call: CallType::HallUp }, false),
        ]
    }
}

/// The light commands that turn off every call light, floor by floor: cab,
/// hall down, hall up.
pub fn initial_lights() -> (r: Vec<(CallButton, bool)>)
    ensures
        r@ == lights_off_list(NUM_FLOORS as nat),
{
    let mut r: Vec<(CallButton, bool)> = Vec::new();
    let mut i: u8 = 0;
    while i < NUM_FLOORS
        invariant
            0 <= i <= NUM_FLOORS,
            r@ == lights_off_list(i as nat),
        decreases NUM_FLOORS - i,
    {
        r.push((CallButton { floor: i, call: CallType::Cab }, false));
        r.push((CallButton { floor: i, call: CallType::HallDown }, false));
        r.push((CallButton { floor: i, call: CallType::HallUp }, false));
        assert(r@ =~= lights_off_list((i + 1) as nat));
        i = i + 1;
    }
    r
}

/// What the motor controller reacts to.
pub enum MotorInput {
    /// A call assigned to this elevator.
    Assign(CallButton),
    /// A reading of the floor sensor.
    Floor(Option<u8>),
}

/// The controller and its actions after one input, as `on_assigned` and
/// `on_floor_sensor` leave and return them.
pub open spec fn motor_step(m: MotorState, e: MotorInput) -> (MotorState, Seq<MotorAction>) {
    match e {
        MotorInput::Assign(call) => match direction_change(m.last_floor, m.between_floors, call.floor, m.direction) {
            Some(d) => (MotorState { direction: Some(d), target_call: call, ..m }, seq![MotorAction::Motor(d)]),
            None => (
                MotorState { target_call: call, ..m },
                if m.direction == Some(DIRN_STOP) {
                    seq![MotorAction::ServeCall(call)]
                } else {
                    Seq::empty()
                },
            ),
        },
        MotorInput::Floor(None) => (MotorState { between_floors: true, ..m }, Seq::empty()),
        MotorInput::Floor(Some(f)) => if f == m.target_call.floor {
            (
                MotorState { between_floors: false, last_floor: f, direction: Some(DIRN_STOP), ..m },
                seq![MotorAction::ReportFloor(f), MotorAction::Motor(DIRN_STOP), MotorAction::ServeCall(m.target_call)],
            )
        } else {
            (MotorState { between_floors: false, last_floor: f, ..m }, seq![MotorAction::ReportFloor(f)])
        },
    }
}

/// The controller after a run of inputs.
pub open spec fn motor_run(m: MotorState, inputs: Seq<MotorInput>) -> MotorState
    decreases inputs.len(),
{
    if inputs.len() == 0 {
        m
    } else {
        motor_step(motor_run(m, inputs.drop_last()), inputs.last()).0
    }
}

/// The last call assigned in a run, or `t0` when none was.
pub open spec fn last_assigned(t0: CallButton, inputs: Seq<MotorInput>) -> CallButton
    decreases inputs.len(),
{
    if inputs.len() == 0 {
        t0
    } else {
        match inputs.last() {
            MotorInput::Assign(c) => c,
            MotorInput::Floor(_) => last_assigned(t0, inputs.drop_last()),
        }
    }
}

/// The controller's target is the last assigned call.
proof fn lemma_target_is_last_assigned(m0: MotorState, inputs: Seq<MotorInput>)
    ensures
        motor_run(m0, inputs).target_call == last_assigned(m0.target_call, inputs),
    decreases inputs.len(),
{
    if inputs.len() > 0 {
        lemma_target_is_last_assigned(m0, inputs.drop_last());
    }
}

/// Over any run of the motor controller, a call is reported served only if
/// it is the last call assigned (or the first target when none was): on a
/// floor reading, only at that call's floor and right after the motor was
/// stopped there; on an assignment, only when the car already stood still
/// at that call's floor.
pub proof fn lemma_serves_only_latest_call(m0: MotorState, inputs: Seq<MotorInput>, e: MotorInput, i: int)
    requires
        0 <= i < motor_step(motor_run(m0, inputs), e).1.len(),
        motor_step(motor_run(m0, inputs), e).1[i] is ServeCall,
    ensures
        ({
            let m = motor_run(m0, inputs);
            let acts = motor_step(m, e).1;
            let c = acts[i]->ServeCall_0;
            &&& c == last_assigned(m0.target_call, inputs.push(e))
            &&& match e {
                MotorInput::Floor(r) => r == Some(c.floor) && i == 2 && acts[1] == MotorAction::Motor(DIRN_STOP),
                MotorInput::Assign(_) => m.direction == Some(DIRN_STOP) && m.last_floor == c.floor,
            }
        }),
{
    lemma_target_is_last_assigned(m0, inputs);
    let p = inputs.push(e);
    assert(p.drop_last() =~= inputs);
    assert(p.last() == e);
}

impl MotorState {
    /// The controller once the car stands at `floor`: stopped, aiming at a hall-up call at floor 0.
    pub fn new(floor: u8) -> (m: Self)
        ensures
            m.last_floor == floor,
            !m.between_floors,
            m.direction == Some(DIRN_STOP),
            m.target_call == (CallButton { floor: 0, call: CallType::HallUp }),
    {
        MotorState {
            last_floor: floor,
            between_floors: false,
            direction: Some(DIRN_STOP),
            target_call: CallButton { floor: 0, call: CallType::HallUp },
        }
    }

    /// A new call to serve: the motor turns towards it when needed; a call
    /// at the floor where the car stands still is served at once.
    pub fn on_assigned(&mut self, call: CallButton) -> (r: Option<MotorAction>)
        ensures
            (*final(self), match r {
                Some(a) => seq![a],
                None => Seq::<MotorAction>::empty(),
            }) == motor_step(*old(self), MotorInput::Assign(call)),
            final(self).target_call == call,
            final(self).last_floor == old(self).last_floor,
            final(self).between_floors == old(self).between_floors,
            match direction_change(old(self).last_floor, old(self).between_floors, call.floor, old(self).direction) {
                Some(d) => final(self).direction == Some(d) && r == Some(MotorAction::Motor(d)),
                None => final(self).direction == old(self).direction && r == (if old(self).direction == Some(
                    DIRN_STOP,
                ) {
                    Some(MotorAction::ServeCall(call))
                } else {
                    None
                }),
            },
    {
        self.target_call = call;
        match find_direction(self.last_floor, self.between_floors, call.floor, self.direction) {
            Some(dir) => {
                self.direction = Some(dir);
                Some(MotorAction::Motor(dir))
            },
            None => {
                if self.direction == Some(DIRN_STOP) {
                    Some(MotorAction::ServeCall(call))
                } else {
                    None
                }
            },
        }
    }

    /// A new reading of the floor sensor: at a floor the car reports it, and
    /// at the target floor it stops and serves the call; no reading means
    /// the car is between floors.
    pub fn on_floor_sensor(&mut self, reading: Option<u8>) -> (r: Vec<MotorAction>)
        ensures
            (*final(self), r@) == motor_step(*old(self), MotorInput::Floor(reading)),
            final(self).target_call == old(self).target_call,
            match reading {
                None => {
                    &&& final(self).between_floors
                    &&& final(self).last_floor == old(self).last_floor
                    &&& final(self).direction == old(self).direction
                    &&& r@ == Seq::<MotorAction>::empty()
                },
                Some(floor) => {
                    &&& !final(self).between_floors
                    &&& final(self).last_floor == floor
                    &&& if floor == old(self).target_call.floor {
                        &&& final(self).direction == Some(DIRN_STOP)
                        &&& r@ == seq![
                            MotorAction::ReportFloor(floor),
                            MotorAction::Motor(DIRN_STOP),
                            MotorAction::ServeCall(old(self).target_call),
                        ]
                    } else {
                        &&& final(self).direction == old(self).direction
                        &&& r@ == seq![MotorAction::ReportFloor(floor)]
                    }
                },
            },
    {
        let mut r: Vec<MotorAction> = Vec::new();
        match reading {
            Some(floor) => {
                self.between_floors = false;
                self.last_floor = floor;
                r.push(MotorAction::ReportFloor(floor));
                if floor == self.target_call.floor {
                    self.direction = Some(DIRN_STOP);
                    r.push(MotorAction::Motor(DIRN_STOP));
                    r.push(MotorAction::ServeCall(self.target_call));
                }
            },
            None => {
                self.between_floors = true;
            },
        }
        r
    }
}

/// Whether the door is obstructed, as the obstruction switch last toggled it.
pub struct ObstructionState {
    obstructed: bool,
}

impl ObstructionState {
    /// Whether the door is obstructed.
    pub closed spec fn obstructed_view(&self) -> bool {
        self.obstructed
    }

    /// Not obstructed.
    pub fn new() -> (o: Self)
        ensures
            !o.obstructed_view(),
    {
        ObstructionState { obstructed: false }
    }

    /// Whether the door is obstructed.
    pub fn is_obstructed(&self) -> (b: bool)
        ensures
            b == self.obstructed_view(),
    {
        self.obstructed
    }

    /// The obstruction switch changed while the car's last floor is
    /// `last_floor`: the obstruction flips, and the position to report is
    /// that floor with the new obstruction.
    pub fn toggle(&mut self, last_floor: u8) -> (p: Position)
        ensures
            final(self).obstructed_view() == !old(self).obstructed_view(),
            p == (Position { floor: last_floor, obstruction: !old(self).obstructed_view() }),
    {
        self.obstructed = !self.obstructed;
        Position { floor: last_floor, obstruction: self.obstructed }
    }
}

/// How long the door stays open at a served call, in milliseconds.
pub const DOOR_OPEN_MS: u64 = 3000;

/// How long an obstructed door waits before it is checked again, in milliseconds.
pub const OBSTRUCTION_RECHECK_MS: u64 = 100;

/// What the door does after a wait while it serves a call.
#[derive(Debug, Clone, Copy, PartialEq, Eq, Structural)]
pub enum DoorStep {
    /// Stay open this many milliseconds more.
    KeepOpen(u64),
    /// Close, and report the call done.
    CloseAndReport,
}

/// The door's decision when a wait ends: while it is obstructed it stays
/// open for another recheck period, else it closes and the call is done.
pub fn door_after_wait(obstructed: bool) -> (s: DoorStep)
    ensures
        s == (if obstructed {
            DoorStep::KeepOpen(OBSTRUCTION_RECHECK_MS)
        } else {
            DoorStep::CloseAndReport
        }),
{
    if obstructed {
        DoorStep::KeepOpen(OBSTRUCTION_RECHECK_MS)
    } else {
        DoorStep::CloseAndReport
    }
}

} // verus!
