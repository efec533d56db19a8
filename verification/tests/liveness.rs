use elevator_system::liveness::{
    ping_payload, ping_round, ping_sender, OnlineTracker, RestartTimers, JOIN_DEBOUNCE_MS, LEAVE_DEBOUNCE_MS, PEER_TIMEOUT_MS,
    RESTART_DELAY_MS,
};
use elevator_system::process::{after_exit, args_without_flag, is_backup, BackupStep, ChildExit};
use elevator_system::process_pair::{count_bytes, count_of, listen_addr, next_count, observe_count, peer_addr};
use elevator_system::restart::{local_kill_command, remote_kill_command, remote_start_command, ssh_target};
use elevator_system::watchdog::{WatchdogTimers, IDLE_TIMEOUT_MS, ORDER_TIMEOUT_MS};

#[test]
fn documented_timings() {
    assert_eq!(PEER_TIMEOUT_MS, 3000);
    assert_eq!(JOIN_DEBOUNCE_MS, 100);
    assert_eq!(LEAVE_DEBOUNCE_MS, 500);
    assert_eq!(RESTART_DELAY_MS, 5000);
    assert_eq!(ORDER_TIMEOUT_MS, 15000);
    assert_eq!(IDLE_TIMEOUT_MS, 3000);
}

#[test]
fn join_is_announced_after_join_debounce() {
    let mut t = OnlineTracker::new(1);
    assert_eq!(t.deadline(), None);
    t.on_ping(2, 1000);
    assert_eq!(t.deadline(), Some(1100));
    assert_eq!(t.take_due(1099), None);
    assert_eq!(t.take_due(1100), Some(vec![2]));
    assert_eq!(t.deadline(), None);
    // a ping of a known node announces nothing
    t.on_ping(2, 1120);
    assert_eq!(t.deadline(), None);
}

#[test]
fn alive_list_is_sorted_and_drops_silent_nodes() {
    let mut t = OnlineTracker::new(5);
    t.on_ping(9, 0);
    t.on_ping(3, 0);
    t.on_cleanup(50);
    assert_eq!(t.take_due(1000), Some(vec![3, 5, 9]));
    t.on_ping(9, 2000);
    t.on_cleanup(2999);
    assert_eq!(t.deadline(), None);
    t.on_cleanup(3000);
    // node 3 was last heard at 0: gone after the timeout
    assert_eq!(t.deadline(), Some(3500));
    assert_eq!(t.take_due(3500), Some(vec![5, 9]));
}

#[test]
fn restart_after_delay_only_by_master() {
    let mut r = RestartTimers::new(1, vec![1, 2, 3]);
    r.on_alive(&[1, 2], 0);
    assert_eq!(r.on_tick(RESTART_DELAY_MS - 1), Vec::<u8>::new());
    assert_eq!(r.on_tick(RESTART_DELAY_MS), vec![3]);
    assert_eq!(r.on_tick(RESTART_DELAY_MS + 1), Vec::<u8>::new());

    let mut s = RestartTimers::new(2, vec![1, 2, 3]);
    s.on_alive(&[1, 2], 0);
    assert_eq!(s.on_tick(RESTART_DELAY_MS), Vec::<u8>::new());
}

#[test]
fn node_back_in_time_is_not_restarted() {
    let mut r = RestartTimers::new(1, vec![1, 2]);
    r.on_alive(&[1], 0);
    r.on_alive(&[1], 1000);
    r.on_alive(&[1, 2], 2000);
    assert_eq!(r.on_tick(10000), Vec::<u8>::new());
}

#[test]
fn watchdog_reports_each_expiry_once() {
    let mut w = WatchdogTimers::new(ORDER_TIMEOUT_MS);
    w.reset(1, 0);
    w.reset(2, 100);
    assert!(w.expire(14999).is_empty());
    assert_eq!(w.expire(15000), vec![1]);
    assert!(w.expire(15050).is_empty());
    w.remove(2);
    assert!(w.expire(20000).is_empty());
    w.reset(1, 20000);
    w.reset(1, 25000);
    assert!(w.expire(35000).is_empty());
    assert_eq!(w.expire(40000), vec![1]);
}

#[test]
fn ping_datagrams() {
    assert_eq!(ping_payload(7), [7]);
    assert_eq!(ping_sender(&[9, 1]), Some(9));
    assert_eq!(ping_sender(&[]), None);
}

#[test]
fn backup_flag() {
    let args: Vec<String> = vec!["prog".into(), "--backup".into(), "19".into()];
    assert!(is_backup(&args));
    assert_eq!(args_without_flag(&args), vec!["prog".to_string(), "19".to_string()]);
    let plain: Vec<String> = vec!["prog".into(), "19".into()];
    assert!(!is_backup(&plain));
    assert_eq!(args_without_flag(&plain), plain);
    assert_eq!(after_exit(ChildExit::Success), BackupStep::Stop);
    assert_eq!(after_exit(ChildExit::Failure), BackupStep::RestartAfter(1000));
    assert_eq!(after_exit(ChildExit::NotStarted), BackupStep::RestartAfter(2000));
}

#[test]
fn counts_are_big_endian() {
    assert_eq!(count_bytes(0x01020304), [1, 2, 3, 4]);
    assert_eq!(count_of([0, 0, 1, 0]), 256);
    assert_eq!(count_of(count_bytes(4_000_000_000)), 4_000_000_000);
    assert_eq!(count_of(123456789u32.to_be_bytes()), 123456789);
    assert_eq!(observe_count(5, [0, 0, 0, 3]), 5);
    assert_eq!(observe_count(5, [0, 0, 0, 9]), 9);
    assert_eq!(next_count(41), (42, [0, 0, 0, 42]));
    assert_eq!(next_count(255).1, 256u32.to_be_bytes());
}

#[test]
fn process_pair_addresses() {
    assert_eq!(listen_addr("1"), "0.0.0.0:2001");
    assert_eq!(peer_addr("2"), "10.100.23.21:2002");
}

#[test]
fn restart_commands() {
    assert_eq!(ssh_target(20), "student@10.100.23.20");
    assert_eq!(remote_kill_command(20), "kill -9 $(lsof -t -i :25020)");
    assert_eq!(local_kill_command(19), "kill $(lsof -t -i :25019)");
    assert_eq!(
        remote_start_command(20),
        "nohup elevatorserver --port 25020 > /tmp/elevserv.log 2>&1 & nohup ~/.cargo/bin/cargo run --manifest-path ~/sanntid10/Cargo.toml -- 20 > /tmp/elevator.log 2>&1 &"
    );
}

#[test]
fn each_round_pings_every_peer_once() {
    assert_eq!(ping_round(19, &vec![20, 21]), vec![(20, [19]), (21, [19])]);
    assert!(ping_round(19, &vec![]).is_empty());
}

#[test]
fn node_pinged_in_time_stays_alive() {
    let mut t = OnlineTracker::new(1);
    t.on_ping(2, 0);
    for k in 1..10u64 {
        t.on_ping(2, k * 2900);
        t.on_cleanup(k * 2900 + 50);
    }
    assert_eq!(t.take_due(100_000), Some(vec![1, 2]));
}
