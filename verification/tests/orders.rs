use std::collections::{HashMap, VecDeque};

use elevator_system::assignment::{assign_new_order, assign_next_order};
use elevator_system::elevio::{CallButton, CallType};
use elevator_system::manager::{event_from_elevator, ManagerAction, ManagerState};
use elevator_system::membership::MembershipState;
use elevator_system::msg::Msg;
use elevator_system::order::{Event, Order, Role};
use elevator_system::order_list::OrderList;
use elevator_system::types::{ElevatorCommand, ElevatorEvent, Position};
use elevator_system::utils::is_mine;

fn order(floor: u8, call: CallType, elev_idx: usize) -> Order {
    Order { cb: CallButton { floor, call }, elev_idx }
}

fn positions(entries: &[(usize, u8, bool)]) -> HashMap<usize, Position> {
    let mut m = HashMap::new();
    for &(idx, floor, obstruction) in entries {
        m.insert(idx, Position { floor, obstruction });
    }
    m
}

#[test]
fn call_type_codes_round_trip() {
    for v in 0u8..3 {
        assert_eq!(CallType::from_u8(v).as_u8(), v);
    }
    assert_eq!(CallType::from_u8(0), CallType::HallUp);
    assert_eq!(CallType::from_u8(1), CallType::HallDown);
    assert_eq!(CallType::from_u8(2), CallType::Cab);
    assert!(CallType::HallUp.is_hall());
    assert!(CallType::HallDown.is_hall());
    assert!(!CallType::Cab.is_hall());
}

#[test]
fn cab_order_is_only_for_its_elevator() {
    let cab = order(1, CallType::Cab, 2);
    assert!(cab.is_for(2));
    assert!(!cab.is_for(1));
    let hall = order(1, CallType::HallUp, 2);
    assert!(hall.is_for(0));
}

#[test]
fn enqueue_is_idempotent_and_dequeue_removes() {
    let mut list = OrderList::new();
    let o = order(2, CallType::HallUp, 0);
    list.enqueue(o);
    list.enqueue(o);
    assert_eq!(list.queue().len(), 1);
    assert!(list.contains(&o));
    // a hall call from another elevator is the same request
    assert!(list.contains(&order(2, CallType::HallUp, 1)));
    list.dequeue(&order(2, CallType::HallUp, 1));
    assert!(!list.contains(&o));
    assert_eq!(list.queue().len(), 0);
}

#[test]
fn assigned_order_counts_as_known() {
    let mut list = OrderList::new();
    let o = order(3, CallType::Cab, 1);
    list.assign(1, o);
    assert!(list.has_assignment(1));
    assert_eq!(list.current_order(1), Some(&o));
    list.enqueue(o);
    assert_eq!(list.queue().len(), 0);
    assert_eq!(list.unassign(1), Some(o));
    assert!(!list.has_assignment(1));
}

#[test]
fn new_order_goes_to_closest_idle_elevator() {
    let mut list = OrderList::new();
    let pos = positions(&[(0, 0, false), (1, 3, false)]);
    let o = order(2, CallType::HallUp, 0);
    let r = assign_new_order(o, &mut list, &pos, &[0, 1]);
    assert_eq!(r, Some(1));
    assert_eq!(list.current_order(1), Some(&o));
    assert_eq!(list.queue().len(), 0);
}

#[test]
fn obstructed_elevator_takes_no_order() {
    let mut list = OrderList::new();
    let pos = positions(&[(0, 0, false), (1, 3, true)]);
    let o = order(2, CallType::HallUp, 0);
    assert_eq!(assign_new_order(o, &mut list, &pos, &[0, 1]), Some(0));
    assert!(!list.has_assignment(1));
}

#[test]
fn order_without_able_elevator_stays_queued() {
    let mut list = OrderList::new();
    let pos = positions(&[(1, 3, true)]);
    let o = order(2, CallType::HallDown, 0);
    assert_eq!(assign_new_order(o, &mut list, &pos, &[0, 1]), None);
    assert!(list.contains(&o));
    assert_eq!(list.queue().len(), 1);
    // asking again changes nothing
    assert_eq!(assign_new_order(o, &mut list, &pos, &[0, 1]), None);
    assert_eq!(list.queue().len(), 1);
}

#[test]
fn cab_order_of_other_elevator_is_not_taken() {
    let mut list = OrderList::new();
    let pos = positions(&[(0, 1, false)]);
    let o = order(2, CallType::Cab, 1);
    assert_eq!(assign_new_order(o, &mut list, &pos, &[0]), None);
    assert!(list.contains(&o));
}

#[test]
fn next_order_after_cab_call_is_first_eligible() {
    let mut list = OrderList::new();
    list.push_back(order(3, CallType::HallDown, 1));
    let done = order(1, CallType::Cab, 0);
    let r = assign_next_order(done, &mut list);
    assert_eq!(r.next, Some(order(3, CallType::HallDown, 0)));
    // the elevator heads up, so the hall-up call at its floor is served too
    assert_eq!(r.clear, Some(order(1, CallType::HallUp, 0)));
    assert_eq!(list.queue().len(), 0);
    assert_eq!(list.current_order(0), Some(&order(3, CallType::HallDown, 1)));
}

#[test]
fn next_order_with_empty_queue_is_none() {
    let mut list = OrderList::new();
    let r = assign_next_order(order(1, CallType::Cab, 0), &mut list);
    assert_eq!(r.next, None);
    assert!(!list.has_assignment(0));
}

#[test]
fn utils_assignment_over_plain_maps() {
    let mut orders: VecDeque<Order> = VecDeque::new();
    let mut floors: HashMap<usize, u8> = HashMap::new();
    floors.insert(0, 0);
    floors.insert(1, 2);
    let mut current: HashMap<usize, Option<Order>> = HashMap::new();
    let o = order(3, CallType::HallDown, 0);
    let r = elevator_system::utils::assign_new_order(o, &mut orders, &floors, &mut current, &[0, 1]);
    assert_eq!(r, Some(1));
    assert_eq!(current.get(&1), Some(&Some(o)));
    assert!(orders.is_empty());
}

#[test]
fn lowest_alive_id_is_master() {
    let mut m = MembershipState::new();
    assert!(!m.is_network_ready());
    let c = m.update_membership(&[2, 1], 1);
    assert!(m.is_master());
    assert!(c.became_master);
    assert_eq!(*m.role(), Role::Master);
    let mut newly = c.newly_alive.clone();
    newly.sort();
    assert_eq!(newly, vec![1, 2]);
    assert!(c.lost.is_empty());
    let c2 = m.update_membership(&[0, 2], 1);
    assert!(!m.is_master());
    assert_eq!(c2.lost, vec![1]);
    assert_eq!(c2.newly_alive, vec![0]);
    assert!(!c2.became_master);
}

#[test]
fn network_event_from_message_depends_on_role() {
    let o = order(1, CallType::HallUp, 0);
    assert!(Event::from_msg(Msg::Heartbeat, &Role::Master).is_none());
    assert!(matches!(
        Event::from_msg(Msg::CompleteOrder { order: o }, &Role::Master),
        Some(Event::CompleteOrder { .. })
    ));
}

#[test]
fn driver_events_become_manager_events() {
    let cb = CallButton { floor: 2, call: CallType::Cab };
    match event_from_elevator(ElevatorEvent::ButtonPress(cb), 4) {
        Event::RequestOrder { order } => assert_eq!(order, Order { cb, elev_idx: 4 }),
        _ => panic!("wrong event"),
    }
    match event_from_elevator(ElevatorEvent::StateUpdate(Position { floor: 1, obstruction: true }), 4) {
        Event::StateUpdateAndShare { states } => {
            assert_eq!(states.len(), 1);
            assert_eq!(states[0].id, 4);
            assert_eq!(states[0].floor, 1);
            assert!(states[0].obstruction);
        }
        _ => panic!("wrong event"),
    }
}

#[test]
fn single_master_assigns_its_own_order() {
    let mut m = ManagerState::new(0, Position { floor: 0, obstruction: false });
    assert!(!m.is_master());
    m.handle_event(Event::AlivesUpdate { alive_elevs: vec![0] });
    assert!(m.is_master());
    let o = order(2, CallType::HallUp, 0);
    let acts = m.handle_event(Event::RequestOrder { order: o });
    assert!(acts.iter().any(|a| matches!(a, ManagerAction::Send(Msg::RequestOrder { order }) if *order == o)));
    let acts = m.handle_event(Event::AckReceived(Msg::RequestOrder { order: o }));
    assert!(acts.iter().any(|a| matches!(a, ManagerAction::Send(Msg::QueueOrders { .. }))));
    assert!(acts
        .iter()
        .any(|a| matches!(a, ManagerAction::Command(ElevatorCommand::AssignOrder(cb)) if *cb == o.cb)));
    assert!(acts.iter().any(|a| matches!(a, ManagerAction::Command(ElevatorCommand::SetLight(cb, true)) if *cb == o.cb)));
}

#[test]
fn slave_forwards_completed_order_to_master() {
    let mut m = ManagerState::new(2, Position { floor: 1, obstruction: false });
    m.handle_event(Event::AlivesUpdate { alive_elevs: vec![1, 2] });
    assert!(!m.is_master());
    let o = order(1, CallType::Cab, 2);
    let acts = m.handle_event(Event::CompleteOrder { order: o });
    assert_eq!(acts.len(), 1);
    assert!(matches!(&acts[0], ManagerAction::Send(Msg::CompleteOrder { order }) if *order == o));
}

#[test]
fn lost_elevator_order_is_assigned_again() {
    let mut m = ManagerState::new(0, Position { floor: 0, obstruction: false });
    m.handle_event(Event::AlivesUpdate { alive_elevs: vec![0, 1] });
    m.handle_event(Event::StateUpdate {
        states: vec![elevator_system::types::ElevatorState { id: 1, floor: 3, obstruction: false }],
    });
    let o = order(3, CallType::HallDown, 1);
    let acts = m.handle_event(Event::AckReceived(Msg::RequestOrder { order: o }));
    assert!(acts.iter().any(|a| matches!(a, ManagerAction::Send(Msg::AssignOrders { .. }))));
    // elevator 1 dies: its order comes back to elevator 0
    let acts = m.handle_event(Event::AlivesUpdate { alive_elevs: vec![0] });
    assert!(acts.iter().any(|a| matches!(a, ManagerAction::RemoveOrderWatchdog(1))));
    assert!(acts
        .iter()
        .any(|a| matches!(a, ManagerAction::Command(ElevatorCommand::AssignOrder(cb)) if *cb == o.cb)));
}

#[test]
fn ownership_of_orders() {
    assert!(is_mine(order(0, CallType::Cab, 1), 1));
    assert!(!is_mine(order(0, CallType::Cab, 1), 2));
    assert!(is_mine(order(0, CallType::HallDown, 1), 2));
}

#[test]
fn timed_out_order_is_assigned_again() {
    let mut m = ManagerState::new(0, Position { floor: 0, obstruction: false });
    m.handle_event(Event::AlivesUpdate { alive_elevs: vec![0, 1] });
    m.handle_event(Event::StateUpdate {
        states: vec![elevator_system::types::ElevatorState { id: 1, floor: 3, obstruction: false }],
    });
    let o = order(3, CallType::HallDown, 1);
    m.handle_event(Event::AckReceived(Msg::RequestOrder { order: o }));
    let acts = m.handle_event(Event::OrderTimeout { elev_idx: 1 });
    assert!(acts.iter().any(|a| matches!(a, ManagerAction::RemoveOrderWatchdog(1))));
    // the order goes out again to an elevator
    assert!(acts.iter().any(|a| matches!(a, ManagerAction::Send(Msg::QueueOrders { .. }))));
    assert!(acts.iter().any(|a| matches!(a, ManagerAction::ResetIdleWatchdog(1))));
}

#[test]
fn only_one_node_is_master() {
    let alive = [21u8, 19, 20];
    let masters: Vec<u8> = alive
        .iter()
        .filter(|&&id| {
            let mut m = MembershipState::new();
            m.update_membership(&alive, id);
            m.is_master()
        })
        .copied()
        .collect();
    assert_eq!(masters, vec![19]);
}
