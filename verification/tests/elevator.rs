use elevator_system::elevio::{CallButton, CallType, DIRN_DOWN, DIRN_STOP, DIRN_UP};
use elevator_system::motor::{
    door_after_wait, find_direction, initial_lights, DoorStep, MotorAction, MotorState, ObstructionState,
    DOOR_OPEN_MS,
};
use elevator_system::poll::{ButtonScanner, FloorWatch, SwitchWatch};
use elevator_system::single_elevator::barrier_system::{bit_for, merge_order, Order as SharedOrder, OrderPhase};
use elevator_system::single_elevator::order_management::{
    assign_new_orders, assign_next_order, FloorAction, FloorOrders, Order as FloorOrder,
};
use std::collections::VecDeque;
use elevator_system::single_elevator::udp::{frame_packet, packet_payload};
use elevator_system::single_elevator::{search_direction, CallButton as CodedButton, Elevator, GotoFloor};
use elevator_system::types::Position;

fn cb(floor: u8, call: CallType) -> CallButton {
    CallButton { floor, call }
}

#[test]
fn direction_to_target() {
    assert_eq!(find_direction(0, false, 3, None), Some(DIRN_UP));
    assert_eq!(find_direction(0, false, 3, Some(DIRN_UP)), None);
    assert_eq!(find_direction(3, false, 1, Some(DIRN_UP)), Some(DIRN_DOWN));
    assert_eq!(find_direction(2, false, 2, Some(DIRN_UP)), Some(DIRN_STOP));
    assert_eq!(find_direction(2, false, 2, Some(DIRN_STOP)), None);
    // between floors past the target: turn back
    assert_eq!(find_direction(2, true, 2, Some(DIRN_UP)), Some(DIRN_DOWN));
    assert_eq!(find_direction(2, true, 2, Some(DIRN_DOWN)), Some(DIRN_UP));
}

#[test]
fn motor_drives_to_call_and_serves_it() {
    let mut m = MotorState::new(0);
    let call = cb(2, CallType::HallDown);
    assert_eq!(m.on_assigned(call), Some(MotorAction::Motor(DIRN_UP)));
    assert_eq!(m.on_floor_sensor(None), Vec::<MotorAction>::new());
    assert_eq!(m.on_floor_sensor(Some(1)), vec![MotorAction::ReportFloor(1)]);
    assert_eq!(
        m.on_floor_sensor(Some(2)),
        vec![MotorAction::ReportFloor(2), MotorAction::Motor(DIRN_STOP), MotorAction::ServeCall(call)]
    );
    // a call at the floor where the car stands is served at once
    let here = cb(2, CallType::Cab);
    assert_eq!(m.on_assigned(here), Some(MotorAction::ServeCall(here)));
}

#[test]
fn all_lights_start_off() {
    let lights = initial_lights();
    assert_eq!(lights.len(), 12);
    assert!(lights.iter().all(|(_, on)| !on));
    assert_eq!(lights[0], (cb(0, CallType::Cab), false));
}

#[test]
fn obstruction_toggles() {
    let mut o = ObstructionState::new();
    assert_eq!(o.toggle(2), Position { floor: 2, obstruction: true });
    assert_eq!(o.toggle(2), Position { floor: 2, obstruction: false });
}

#[test]
fn buttons_report_each_press_once() {
    let mut s = ButtonScanner::new(2);
    let presses = s.scan(&vec![[true, false, false], [false, false, true]]);
    assert_eq!(presses, vec![cb(0, CallType::HallUp), cb(1, CallType::Cab)]);
    assert!(s.scan(&vec![[true, false, false], [false, false, true]]).is_empty());
    assert!(s.scan(&vec![[false, false, false], [false, true, true]]) == vec![cb(1, CallType::HallDown)]);
    assert_eq!(s.scan(&vec![[true, false, false], [false, true, true]]), vec![cb(0, CallType::HallUp)]);
}

#[test]
fn sensors_report_changes() {
    let mut f = FloorWatch::new();
    assert_eq!(f.observe(None), None);
    assert_eq!(f.observe(Some(1)), Some(Some(1)));
    assert_eq!(f.observe(Some(1)), None);
    assert_eq!(f.observe(None), Some(None));
    let mut s = SwitchWatch::new();
    assert_eq!(s.observe(false), None);
    assert_eq!(s.observe(true), Some(true));
    assert_eq!(s.observe(true), None);
    assert_eq!(s.observe(false), Some(false));
}

#[test]
fn doors_and_search() {
    let mut e = Elevator::new();
    assert!(!e.is_door_open());
    assert!(e.open_doors());
    assert!(e.is_door_open());
    assert!(!e.close_doors());
    assert!(!e.is_door_open());
    assert_eq!(search_direction(), DIRN_UP);
}

#[test]
fn single_elevator_goes_to_floor() {
    let mut g = GotoFloor::at_floor(0);
    assert_eq!(g.on_call(CodedButton { floor: 2, call: 2 }), Some(DIRN_UP));
    assert_eq!(g.on_floor(None), None);
    assert_eq!(g.on_floor(Some(1)), None);
    assert_eq!(g.on_floor(Some(2)), Some(DIRN_STOP));
    let h = GotoFloor::after_search(0);
    assert_eq!(h.last_floor, 1);
}

#[test]
fn packets_round_trip() {
    let pkt = frame_packet(&[7, 8]);
    assert_eq!(pkt, vec![69, 86, 76, 49, 1, 7, 8]);
    assert_eq!(packet_payload(&pkt), Some(vec![7, 8]));
    assert_eq!(packet_payload(&[69, 86, 76, 49]), None);
    assert_eq!(packet_payload(&[69, 86, 76, 50, 1, 7]), None);
    assert_eq!(packet_payload(&[69, 86, 76, 49, 2, 7]), None);
}

#[test]
fn shared_orders_merge() {
    assert_eq!(bit_for(2), 4);
    let call = CodedButton { floor: 1, call: 0 };
    let mut local = SharedOrder { call, owner: 0, phase: OrderPhase::New, confirm_acks: 1, complete_acks: 0 };
    let remote = SharedOrder { call, owner: 0, phase: OrderPhase::New, confirm_acks: 6, complete_acks: 0 };
    merge_order(&mut local, &remote, 7);
    assert_eq!(local.confirm_acks, 7);
    assert_eq!(local.phase, OrderPhase::Confirmed);
    let done = SharedOrder { call, owner: 0, phase: OrderPhase::Complete, confirm_acks: 7, complete_acks: 2 };
    merge_order(&mut local, &done, 7);
    assert_eq!(local.phase, OrderPhase::Complete);
    assert_eq!(local.complete_acks, 2);
}

#[test]
fn floor_orders_assign_and_clear() {
    let mut s = FloorOrders::new();
    let o = FloorOrder { cb: CodedButton { floor: 2, call: 0 }, elev_idx: 0 };
    let acts = s.on_new_order(o, vec![Some(0), None, None]);
    assert_eq!(acts, vec![FloorAction::Light(o, true), FloorAction::Command(o)]);
    let acts = s.on_order_done(o, vec![Some(2), None, None]);
    assert_eq!(acts, vec![FloorAction::Light(o, false), FloorAction::Light(o, false)]);
}

#[test]
fn floor_order_far_away_is_taken() {
    let mut s = FloorOrders::new();
    let o = FloorOrder { cb: CodedButton { floor: 3, call: 1 }, elev_idx: 1 };
    let acts = s.on_new_order(o, vec![Some(0), None, None, Some(2)]);
    assert_eq!(
        acts,
        vec![FloorAction::Light(o, true), FloorAction::Command(FloorOrder { cb: o.cb, elev_idx: 0 })]
    );
}

#[test]
fn merging_in_either_order_gives_the_same_acknowledgements() {
    let call = CodedButton { floor: 0, call: 2 };
    let a = SharedOrder { call, owner: 1, phase: OrderPhase::New, confirm_acks: 1, complete_acks: 0 };
    let b = SharedOrder { call, owner: 1, phase: OrderPhase::Confirmed, confirm_acks: 2, complete_acks: 4 };
    let mut ab = a;
    merge_order(&mut ab, &b, 7);
    let mut ba = b;
    merge_order(&mut ba, &a, 7);
    assert_eq!(ab.confirm_acks, ba.confirm_acks);
    assert_eq!(ab.complete_acks, ba.complete_acks);
    assert_eq!(ab.phase, ba.phase);
    assert_eq!(ab.phase, OrderPhase::Confirmed);
}

#[test]
fn new_order_is_queued_behind_other_orders() {
    let waiting = FloorOrder { cb: CodedButton { floor: 1, call: 0 }, elev_idx: 0 };
    let mut orders: VecDeque<FloorOrder> = VecDeque::new();
    orders.push_back(waiting);
    let mut current = vec![None, None, None];
    let positions = vec![Some(3), None, None];
    let o = FloorOrder { cb: CodedButton { floor: 0, call: 0 }, elev_idx: 0 };
    // the only free elevator is three floors away and takes the order
    assert_eq!(assign_new_orders(o, &mut orders, &positions, &mut current, &vec![0]), Some(0));
    assert_eq!(current[0], Some(o));
    assert_eq!(orders, VecDeque::from(vec![waiting, o]));
    // an order already queued is left as it is
    let mut current2 = vec![Some(o), None, None];
    assert_eq!(assign_new_orders(waiting, &mut orders, &positions, &mut current2, &vec![0]), None);
    assert_eq!(orders, VecDeque::from(vec![waiting, o]));
}

#[test]
fn order_on_the_way_is_promoted() {
    let far = FloorOrder { cb: CodedButton { floor: 0, call: 2 }, elev_idx: 0 };
    let mut orders: VecDeque<FloorOrder> = VecDeque::new();
    let mut current = vec![Some(far), None, None];
    let positions = vec![Some(3), None, None];
    let on_way = FloorOrder { cb: CodedButton { floor: 1, call: 1 }, elev_idx: 1 };
    assert_eq!(assign_new_orders(on_way, &mut orders, &positions, &mut current, &vec![0]), Some(0));
    assert_eq!(current[0], Some(on_way));
    assert_eq!(orders, VecDeque::from(vec![far]));
}

#[test]
fn next_order_takes_the_first_slot() {
    let down_above = FloorOrder { cb: CodedButton { floor: 3, call: 1 }, elev_idx: 1 };
    let mut orders: VecDeque<FloorOrder> = VecDeque::from(vec![down_above]);
    let mut current = vec![None, None, None];
    let done = FloorOrder { cb: CodedButton { floor: 1, call: 0 }, elev_idx: 2 };
    let (next, clear) = assign_next_order(done, &mut orders, &mut current);
    assert_eq!(next, Some(down_above));
    assert_eq!(clear, None);
    assert_eq!(current, vec![Some(down_above), None, None]);
}

#[test]
fn door_stays_open_while_obstructed() {
    assert_eq!(DOOR_OPEN_MS, 3000);
    assert_eq!(door_after_wait(true), DoorStep::KeepOpen(100));
    assert_eq!(door_after_wait(false), DoorStep::CloseAndReport);
}

#[test]
fn reassigned_call_replaces_served_one() {
    let mut m = MotorState::new(0);
    m.on_assigned(cb(3, CallType::Cab));
    let latest = cb(1, CallType::HallUp);
    m.on_assigned(latest);
    assert_eq!(
        m.on_floor_sensor(Some(1)),
        vec![MotorAction::ReportFloor(1), MotorAction::Motor(DIRN_STOP), MotorAction::ServeCall(latest)]
    );
}
