use ruserf_core::clock::LamportTime;
use ruserf_core::message::{SerfMessage, UserEventMessage};
use ruserf_core::serf::{BroadcastQueue, MessageAction, SerfCore};
use ruserf_core::snapshot::{encode_record, parse_dec, parse_record, replay, SnapshotRecord};

fn line(s: &str) -> Vec<u8> {
    s.as_bytes().to_vec()
}

#[test]
fn records_are_written_as_lines() {
    let r = SnapshotRecord::Alive { node: 42, addr: line("10.0.0.1:7946") };
    assert_eq!(encode_record(&r), line("alive 42 10.0.0.1:7946"));
    assert_eq!(encode_record(&SnapshotRecord::NotAlive { node: 7 }), line("not-alive 7"));
    assert_eq!(encode_record(&SnapshotRecord::Leave), line("leave"));
    assert_eq!(encode_record(&SnapshotRecord::Clock(0)), line("clock 0"));
    assert_eq!(encode_record(&SnapshotRecord::EventClock(1234)), line("event-clock 1234"));
    assert_eq!(encode_record(&SnapshotRecord::QueryClock(9)), line("query-clock 9"));
    assert_eq!(encode_record(&SnapshotRecord::Coordinate(vec![1, 2])), vec![
        b'c', b'o', b'o', b'r', b'd', b'i', b'n', b'a', b't', b'e', b' ', 1, 2,
    ]);
}

#[test]
fn records_read_back() {
    let records = vec![
        SnapshotRecord::Alive { node: 3, addr: line("host a") },
        SnapshotRecord::NotAlive { node: u64::MAX },
        SnapshotRecord::Leave,
        SnapshotRecord::Clock(77),
        SnapshotRecord::EventClock(42),
        SnapshotRecord::QueryClock(5),
        SnapshotRecord::Coordinate(vec![0, 32, 255]),
    ];
    for r in records {
        let l = encode_record(&r);
        let back = parse_record(&l).unwrap();
        assert_eq!(encode_record(&back), l);
    }
    match parse_record(&line("alive 3 host a")).unwrap() {
        SnapshotRecord::Alive { node, addr } => {
            assert_eq!(node, 3);
            assert_eq!(addr, line("host a"));
        },
        _ => panic!("expected an alive record"),
    }
}

#[test]
fn malformed_lines_hold_no_record() {
    assert!(parse_record(&line("")).is_none());
    assert!(parse_record(&line("clock")).is_none());
    assert!(parse_record(&line("clock x1")).is_none());
    assert!(parse_record(&line("clock 18446744073709551616")).is_none());
    assert!(parse_record(&line("alive 12")).is_none());
    assert!(parse_record(&line("alive x 10.0.0.1")).is_none());
    assert!(parse_record(&line("even-clock 3")).is_none());
    assert!(parse_record(&line("leaves")).is_none());
}

#[test]
fn decimal_numbers() {
    assert_eq!(parse_dec(&line("0")), Some(0));
    assert_eq!(parse_dec(&line("007")), Some(7));
    assert_eq!(parse_dec(&line("18446744073709551615")), Some(u64::MAX));
    assert_eq!(parse_dec(&line("18446744073709551616")), None);
    assert_eq!(parse_dec(&line("")), None);
    assert_eq!(parse_dec(&line("1a")), None);
}

#[test]
fn replay_rebuilds_alive_nodes_and_clocks() {
    let lines = vec![
        line("alive 1 a:1"),
        line("alive 2 b:2"),
        line("clock 5"),
        line("not-alive 1"),
        line("alive 2 b:3"),
        line("event-clock 42"),
        line("query-clock 8"),
        line("coordinate xyz"),
        line("event-cl"),
    ];
    let r = replay(&lines);
    assert_eq!(r.alive.len(), 1);
    assert_eq!(r.alive.get(&2), Some(&line("b:3")));
    assert_eq!(r.clock, 5);
    assert_eq!(r.event_clock, 42);
    assert_eq!(r.query_clock, 8);
    assert!(!r.left);
}

#[test]
fn leave_record_clears_the_alive_nodes() {
    let r = replay(&vec![line("alive 1 a"), line("leave"), line("clock 3")]);
    assert!(r.alive.is_empty());
    assert!(r.left);
    assert_eq!(r.clock, 3);
}

fn user_event(ltime: u64, name: &str) -> UserEventMessage {
    UserEventMessage { ltime: LamportTime::new(ltime), name: name.to_string(), payload: vec![], cc: false }
}

#[test]
fn restart_from_snapshot_replays_no_old_event() {
    // node2 saw one user event at time 42, recorded its clocks, then crashed
    let mut node2 = SerfCore::new(16, 512, 512, false);
    let r = node2.notify_message(3, Some(SerfMessage::UserEvent(user_event(42, "deploy"))));
    assert_eq!(r, MessageAction::Rebroadcast(BroadcastQueue::Event));
    let journal = vec![
        encode_record(&SnapshotRecord::Alive { node: 1, addr: line("node1:7946") }),
        encode_record(&SnapshotRecord::EventClock(node2.events.time().0)),
        encode_record(&SnapshotRecord::Clock(node2.membership.time().0)),
    ];
    let rec = replay(&journal);
    assert_eq!(rec.alive.get(&1), Some(&line("node1:7946")));
    let mut restarted = SerfCore::restore(16, 512, 512, false, &rec);
    assert!(restarted.events.time().0 >= 42);
    // the pre-crash event is not surfaced again
    let again = restarted.notify_message(3, Some(SerfMessage::UserEvent(user_event(42, "deploy"))));
    assert_eq!(again, MessageAction::Drop);
    // a fresh event is delivered
    let fresh = restarted.notify_message(3, Some(SerfMessage::UserEvent(user_event(50, "new"))));
    assert_eq!(fresh, MessageAction::Rebroadcast(BroadcastQueue::Event));
}
