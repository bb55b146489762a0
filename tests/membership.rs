use ruserf_core::clock::LamportTime;
use ruserf_core::membership::{IntentType, MemberEvent, MemberEventType, Membership};
use ruserf_core::table::MemberStatus;

fn three_alive() -> Membership {
    let mut m = Membership::new(16);
    m.handle_node_join(1);
    m.handle_node_join(2);
    m.handle_node_join(3);
    m.take_events();
    m
}

#[test]
fn stale_leave_is_rejected() {
    let mut m = three_alive();
    assert!(m.handle_intent(IntentType::Leave, 1, LamportTime::new(5), false));
    assert_eq!(m.member(1).unwrap().status, MemberStatus::Leaving);
    assert!(m.handle_intent(IntentType::Join, 1, LamportTime::new(7), false));
    let a = m.member(1).unwrap();
    assert_eq!(a.status, MemberStatus::Alive);
    assert_eq!(a.status_ltime, LamportTime::new(7));

    assert!(!m.handle_intent(IntentType::Leave, 1, LamportTime::new(5), false));
    let a = m.member(1).unwrap();
    assert_eq!(a.status, MemberStatus::Alive);
    assert_eq!(a.status_ltime, LamportTime::new(7));
    assert_eq!(m.num_members(), 3);
    assert_eq!(m.members().len(), 3);
}

#[test]
fn equal_time_intent_is_stale() {
    let mut m = three_alive();
    assert!(m.handle_intent(IntentType::Join, 2, LamportTime::new(4), false));
    assert!(!m.handle_intent(IntentType::Leave, 2, LamportTime::new(4), false));
    assert_eq!(m.member(2).unwrap().status, MemberStatus::Alive);
}

#[test]
fn intent_witnesses_the_membership_clock() {
    let mut m = three_alive();
    m.handle_intent(IntentType::Join, 3, LamportTime::new(20), false);
    assert_eq!(m.time(), LamportTime::new(21));
    m.handle_intent(IntentType::Join, 3, LamportTime::new(2), false);
    assert_eq!(m.time(), LamportTime::new(21));
}

#[test]
fn intent_for_unknown_node_is_held_and_applied_on_join() {
    let mut m = Membership::new(4);
    assert!(m.handle_intent(IntentType::Join, 9, LamportTime::new(12), false));
    assert!(m.member(9).is_none());
    // the same intent again is still gossiped, the held one is unchanged
    assert!(m.handle_intent(IntentType::Join, 9, LamportTime::new(12), false));
    m.handle_node_join(9);
    let r = m.member(9).unwrap();
    assert_eq!(r.status, MemberStatus::Alive);
    assert_eq!(r.status_ltime, LamportTime::new(12));
    assert_eq!(m.take_events(), vec![MemberEvent { ty: MemberEventType::Join, node: 9 }]);
}

#[test]
fn held_leave_makes_a_new_member_leaving() {
    let mut m = Membership::new(4);
    m.handle_intent(IntentType::Leave, 5, LamportTime::new(3), false);
    m.handle_node_join(5);
    let r = m.member(5).unwrap();
    assert_eq!(r.status, MemberStatus::Leaving);
    assert_eq!(r.status_ltime, LamportTime::new(3));
}

#[test]
fn intent_ring_keeps_its_capacity() {
    let mut m = Membership::new(2);
    for n in 10..20u64 {
        m.handle_intent(IntentType::Join, n, LamportTime::new(n), false);
    }
    // only the two newest are held: 18 and 19
    m.handle_node_join(18);
    m.handle_node_join(12);
    assert_eq!(m.member(18).unwrap().status_ltime, LamportTime::new(18));
    assert_eq!(m.member(12).unwrap().status_ltime, LamportTime::new(0));
}

#[test]
fn failed_node_leaving_moves_to_left_with_event() {
    let mut m = three_alive();
    m.handle_node_leave(2, 50);
    assert_eq!(m.member(2).unwrap().status, MemberStatus::Failed);
    assert_eq!(m.failed_members(), vec![2]);
    assert_eq!(m.take_events(), vec![MemberEvent { ty: MemberEventType::Failed, node: 2 }]);
    assert!(m.handle_intent(IntentType::Leave, 2, LamportTime::new(8), false));
    assert_eq!(m.member(2).unwrap().status, MemberStatus::Left);
    assert_eq!(m.left_members(), vec![2]);
    assert_eq!(m.take_events(), vec![MemberEvent { ty: MemberEventType::Leave, node: 2 }]);
}

#[test]
fn pruning_leave_forgets_a_failed_node() {
    let mut m = three_alive();
    m.handle_node_leave(3, 10);
    assert!(m.handle_intent(IntentType::Leave, 3, LamportTime::new(4), true));
    assert!(m.member(3).is_none());
    assert_eq!(m.num_members(), 2);
}

#[test]
fn leaving_node_gone_has_left() {
    let mut m = three_alive();
    m.handle_intent(IntentType::Leave, 1, LamportTime::new(2), false);
    m.handle_node_leave(1, 10);
    assert_eq!(m.member(1).unwrap().status, MemberStatus::Left);
    assert_eq!(m.member(1).unwrap().leave_time, 10);
    assert_eq!(m.take_events(), vec![MemberEvent { ty: MemberEventType::Leave, node: 1 }]);
}

#[test]
fn failed_node_comes_back_alive() {
    let mut m = three_alive();
    m.handle_node_leave(1, 10);
    m.handle_node_join(1);
    assert_eq!(m.member(1).unwrap().status, MemberStatus::Alive);
}

#[test]
fn reap_removes_failed_node_once() {
    let mut m = three_alive();
    // tombstone timeout of 1 microsecond, times in microseconds
    m.handle_node_leave(1, 0);
    m.take_events();
    let reaped = m.reap(1_000_000, 1);
    assert_eq!(reaped, vec![1]);
    assert!(m.member(1).is_none());
    assert!(m.failed_members().is_empty());
    assert_eq!(m.take_events(), vec![MemberEvent { ty: MemberEventType::Reap, node: 1 }]);
    assert!(m.reap(2_000_000, 1).is_empty());
    assert!(m.take_events().is_empty());
    assert_eq!(m.num_members(), 2);
}

#[test]
fn reap_keeps_recent_and_live_nodes() {
    let mut m = three_alive();
    m.handle_node_leave(1, 100);
    m.handle_intent(IntentType::Leave, 2, LamportTime::new(1), false);
    m.handle_node_leave(2, 0);
    let reaped = m.reap(150, 60);
    assert_eq!(reaped, vec![2]);
    assert_eq!(m.member(1).unwrap().status, MemberStatus::Failed);
    assert_eq!(m.member(3).unwrap().status, MemberStatus::Alive);
}

#[test]
fn reconnect_picks_a_failed_member() {
    let mut m = three_alive();
    assert_eq!(m.reconnect_target(), None);
    m.handle_node_leave(2, 0);
    m.handle_node_leave(3, 0);
    for _ in 0..20 {
        let t = m.reconnect_target().unwrap();
        assert!(t == 2 || t == 3);
    }
    assert_eq!(m.failed_member_at(0).is_some(), true);
    let a = m.failed_member_at(0).unwrap();
    let b = m.failed_member_at(1).unwrap();
    assert_ne!(a, b);
    assert_eq!(m.failed_member_at(2), Some(a));
}

#[test]
fn intents_for_distinct_nodes_commute() {
    let mut a = three_alive();
    let mut b = three_alive();
    a.handle_intent(IntentType::Leave, 1, LamportTime::new(4), false);
    a.handle_intent(IntentType::Join, 2, LamportTime::new(6), false);
    b.handle_intent(IntentType::Join, 2, LamportTime::new(6), false);
    b.handle_intent(IntentType::Leave, 1, LamportTime::new(4), false);
    for id in 1..4u64 {
        let x = a.member(id).unwrap();
        let y = b.member(id).unwrap();
        assert_eq!(x.status, y.status);
        assert_eq!(x.status_ltime, y.status_ltime);
    }
}

#[test]
fn intents_in_any_order_match_newest_first() {
    let mut a = three_alive();
    let mut b = three_alive();
    a.handle_intent(IntentType::Join, 1, LamportTime::new(3), false);
    a.handle_intent(IntentType::Leave, 1, LamportTime::new(9), false);
    a.handle_intent(IntentType::Join, 1, LamportTime::new(6), false);
    b.handle_intent(IntentType::Leave, 1, LamportTime::new(9), false);
    b.handle_intent(IntentType::Join, 1, LamportTime::new(6), false);
    b.handle_intent(IntentType::Join, 1, LamportTime::new(3), false);
    let x = a.member(1).unwrap();
    let y = b.member(1).unwrap();
    assert_eq!(x.status, MemberStatus::Leaving);
    assert_eq!(x.status, y.status);
    assert_eq!(x.status_ltime, y.status_ltime);
}
