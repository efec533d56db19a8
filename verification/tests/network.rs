use std::collections::HashSet;

use elevator_system::address::{
    addr_for, driver_addr, local_addr, msg_port, peer_msg_addr, peer_ping_addr, ping_port, random_port_addr,
};
use elevator_system::elevio::{CallButton, CallType};
use elevator_system::msg::{acknowledges, msg_eq, Frame, Msg};
use elevator_system::network::{
    accept_frame, ack_copies, after_attempt, AttemptOutcome, NetAction, NetworkEvent, NetworkState, MAX_APP_RETRIES,
    MAX_SEND_ATTEMPTS,
};
use elevator_system::order::Order;
use elevator_system::peers::Peers;
use elevator_system::pending::PendingMap;

fn hall(floor: u8) -> Msg {
    Msg::RequestOrder { order: Order { cb: CallButton { floor, call: CallType::HallUp }, elev_idx: 1 } }
}

fn sends(acts: &[NetAction]) -> Vec<(u8, String, u32, u32)> {
    acts.iter()
        .filter_map(|a| match a {
            NetAction::Send { addr, seq, peer, retry, .. } => Some((*peer, addr.clone(), *seq, *retry)),
            _ => None,
        })
        .collect()
}

fn completes(acts: &[NetAction]) -> usize {
    acts.iter().filter(|a| matches!(a, NetAction::Emit(NetworkEvent::AckComplete(_)))).count()
}

#[test]
fn lab_addresses() {
    assert_eq!(local_addr(19, 21000), "10.100.23.19:21000");
    assert_eq!(random_port_addr(19), "10.100.23.19:0");
    assert_eq!(peer_msg_addr(20), "10.100.23.20:21020");
    assert_eq!(peer_ping_addr(20), "10.100.23.20:30020");
    assert_eq!(msg_port(20), 21020);
    assert_eq!(ping_port(20), 30020);
    assert_eq!(addr_for(5), "localhost:21005");
    assert_eq!(driver_addr(19), "127.0.0.1:25019");
    assert_eq!(local_addr(7, 0), "10.100.23.7:0");
}

#[test]
fn peers_follow_alive_list() {
    let mut p = Peers::new();
    assert!(!p.is_master());
    assert_eq!(p.master_id(), None);
    let alive = p.update(&[19, 20, 21], 20);
    assert_eq!(alive, [19u8, 20, 21].into_iter().collect::<HashSet<u8>>());
    assert!(!p.is_master());
    assert_eq!(p.master_id(), Some(19));
    assert_eq!(p.ids(), &[19, 21]);
    assert_eq!(p.addr(21).map(|s| s.as_str()), Some("10.100.23.21:21021"));
    assert_eq!(p.addr(20), None);
    p.update(&[20, 21], 20);
    assert!(p.is_master());
    assert_eq!(p.ids(), &[21]);
    p.update(&[], 20);
    assert_eq!(p.master_id(), None);
    assert!(!p.is_master());
}

#[test]
fn message_completes_at_last_ack() {
    let mut p = PendingMap::new();
    let expected: HashSet<u8> = [2u8, 3].into_iter().collect();
    p.insert(7, expected, hall(1));
    assert!(p.resolve_peer(7, 2).is_none());
    assert!(p.resolve_peer(8, 3).is_none());
    let m = p.resolve_peer(7, 3).expect("last acknowledgement completes");
    assert!(msg_eq(&m, &hall(1)));
    assert!(p.resolve_peer(7, 3).is_none());
}

#[test]
fn dead_peers_are_no_longer_awaited() {
    let mut p = PendingMap::new();
    p.insert(1, [2u8].into_iter().collect(), hall(1));
    p.insert(2, [2u8, 3].into_iter().collect(), hall(2));
    let alive: HashSet<u8> = [1u8, 3].into_iter().collect();
    let done = p.remove_dead_elevators(&alive);
    assert_eq!(done.len(), 1);
    assert_eq!(done[0].0, 1);
    assert!(p.resolve_peer(2, 3).is_some());
}

#[test]
fn retarget_moves_wait_to_new_master() {
    let mut p = PendingMap::new();
    p.insert(4, [1u8].into_iter().collect(), hall(3));
    p.retarget(4, 1, 2);
    assert!(p.resolve_peer(4, 1).is_none());
    assert!(p.resolve_peer(4, 2).is_some());
}

#[test]
fn master_sends_to_every_peer_and_completes_after_all_acks() {
    let mut s = NetworkState::new(1);
    let ev = s.on_alive_update(&[1, 2, 3]);
    assert!(ev.is_empty());
    let acts = s.on_outgoing(hall(2));
    let mut out = sends(&acts);
    out.sort();
    assert_eq!(
        out,
        vec![(2, "10.100.23.2:21002".to_string(), 0, 0), (3, "10.100.23.3:21003".to_string(), 0, 0)]
    );
    assert!(s.on_ack(0, 2).is_none());
    assert!(matches!(s.on_ack(0, 3), Some(NetworkEvent::AckComplete(_))));
    // the next message gets the next number
    let acts = s.on_outgoing(hall(3));
    assert!(sends(&acts).iter().all(|x| x.2 == 1));
}

#[test]
fn slave_sends_only_to_master() {
    let mut s = NetworkState::new(2);
    s.on_alive_update(&[1, 2, 3]);
    let acts = s.on_outgoing(hall(2));
    assert_eq!(sends(&acts), vec![(1, "10.100.23.1:21001".to_string(), 0, 0)]);
}

#[test]
fn message_with_nobody_to_send_to_completes_at_once() {
    let mut s = NetworkState::new(4);
    let acts = s.on_outgoing(hall(0));
    assert_eq!(acts.len(), 1);
    assert_eq!(completes(&acts), 1);
}

#[test]
fn death_of_awaited_peer_completes_message() {
    let mut s = NetworkState::new(1);
    s.on_alive_update(&[1, 2]);
    s.on_outgoing(hall(1));
    let ev = s.on_alive_update(&[1]);
    assert_eq!(ev.len(), 1);
    assert!(matches!(ev[0], NetworkEvent::AckComplete(_)));
}

#[test]
fn failed_send_is_retried_then_given_up() {
    let mut s = NetworkState::new(1);
    s.on_alive_update(&[1, 2]);
    s.on_outgoing(hall(1));
    let addr = "10.100.23.2:21002".to_string();
    let acts = s.on_send_failure(0, 2, hall(1), addr.clone(), 3);
    assert_eq!(sends(&acts), vec![(2, addr.clone(), 0, 4)]);
    let acts = s.on_send_failure(0, 2, hall(1), addr.clone(), MAX_APP_RETRIES);
    assert!(sends(&acts).is_empty());
    assert_eq!(completes(&acts), 1);
}

#[test]
fn slave_redirects_failed_send_to_new_master() {
    let mut s = NetworkState::new(3);
    s.on_alive_update(&[1, 3]);
    s.on_outgoing(hall(1));
    s.on_alive_update(&[2, 3]);
    let acts = s.on_send_failure(0, 1, hall(1), "10.100.23.1:21001".to_string(), 0);
    assert_eq!(sends(&acts), vec![(2, "10.100.23.2:21002".to_string(), 0, 0)]);
}

#[test]
fn duplicate_within_window_is_not_delivered() {
    let mut s = NetworkState::new(1);
    let sender = "10.100.23.2:40000".to_string();
    assert!(matches!(s.on_incoming(hall(1), 5, &sender, 1000), Some(NetworkEvent::Message(_))));
    assert!(s.on_incoming(hall(1), 5, &sender, 2000).is_none());
    // another number or another sender is another message
    assert!(s.on_incoming(hall(1), 6, &sender, 2100).is_some());
    assert!(s.on_incoming(hall(1), 5, &"10.100.23.3:40000".to_string(), 2200).is_some());
    // a repeat refreshes the memory of the message
    assert!(s.on_incoming(hall(1), 5, &sender, 4500).is_none());
    // once the window passed, the number can be used again
    assert!(s.on_incoming(hall(1), 5, &sender, 7600).is_some());
}

#[test]
fn frames_and_acknowledgements() {
    let m = hall(2);
    let (seq, got, ack) = accept_frame(Frame::Data { seq: 9, msg: hall(2) }).expect("data is delivered");
    assert_eq!(seq, 9);
    assert!(msg_eq(&got, &m));
    assert!(acknowledges(&ack, 9, &m));
    assert!(!acknowledges(&ack, 8, &m));
    assert!(!acknowledges(&ack, 9, &hall(3)));
    assert!(accept_frame(Frame::Ack { seq: 9, msg: hall(2) }).is_none());
    assert!(!acknowledges(&Frame::Data { seq: 9, msg: hall(2) }, 9, &m));
}

#[test]
fn send_attempts() {
    assert_eq!(after_attempt(0, true), AttemptOutcome::Delivered);
    assert_eq!(after_attempt(0, false), AttemptOutcome::Retry);
    assert_eq!(after_attempt(MAX_SEND_ATTEMPTS - 2, false), AttemptOutcome::Retry);
    assert_eq!(after_attempt(MAX_SEND_ATTEMPTS - 1, false), AttemptOutcome::GiveUp);
}

#[test]
fn message_equality() {
    assert!(msg_eq(&Msg::Heartbeat, &Msg::Heartbeat));
    assert!(!msg_eq(&hall(1), &hall(2)));
    let a = Msg::ClearOrders { orders: vec![] };
    assert!(msg_eq(&a, &a.copied()));
    assert!(!msg_eq(&a, &Msg::QueueOrders { orders: vec![] }));
}

#[test]
fn three_acknowledgements_per_message() {
    let acks = ack_copies(4, &hall(1));
    assert_eq!(acks.len(), 3);
    assert!(acks.iter().all(|a| acknowledges(a, 4, &hall(1))));
}
