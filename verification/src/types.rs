use vstd::prelude::*;

use crate::elevio::CallButton;

verus! {

/// Number of floors served.
pub const NUM_FLOORS: u8 = 4;

/// Number of elevators in the cluster.
pub const NUM_ELEVATORS: u8 = 3;

/// Where an elevator is and whether its door is obstructed.
#[derive(Debug, Clone, Copy, PartialEq, Eq, Structural)]
pub struct Position {
    pub floor: u8,
    pub obstruction: bool,
}

/// The position of one elevator, tagged with its id, as shared over the network.
#[derive(Debug, Clone, Copy, PartialEq, Eq, Structural)]
pub struct ElevatorState {
    pub id: u8,
    pub floor: u8,
    pub obstruction: bool,
}

/// What the elevator driver reports to the order manager.
#[derive(Debug, Clone, Copy, PartialEq, Eq, Structural)]
pub enum ElevatorEvent {
    ButtonPress(CallButton),
    StateUpdate(Position),
    OrderComplete(CallButton),
}

/// What the order manager asks of the elevator driver.
#[derive(Debug, Clone, Copy, PartialEq, Eq, Structural)]
pub enum ElevatorCommand {
    AssignOrder(CallButton),
    SetLight(CallButton, bool),
}

} // verus!
