use ruserf_core::clock::LamportTime;
use ruserf_core::error::{SerfError, SerfState};
use ruserf_core::message::{
    JoinMessage, LeaveMessage, PushPullMessage, QueryMessage, QueryResponseMessage, SerfMessage,
    UserEvent, UserEventMessage, UserEvents,
};
use ruserf_core::serf::{BroadcastQueue, MessageAction, SerfCore};
use ruserf_core::table::MemberStatus;

fn user_event(ltime: u64, name: &str, payload: &[u8]) -> UserEventMessage {
    UserEventMessage {
        ltime: LamportTime::new(ltime),
        name: name.to_string(),
        payload: payload.to_vec(),
        cc: false,
    }
}

fn query(ltime: u64, id: u32) -> QueryMessage {
    QueryMessage {
        ltime: LamportTime::new(ltime),
        id,
        from: 1,
        filters: vec![],
        flags: 0,
        relay_factor: 0,
        timeout: 200,
        name: "ping".to_string(),
        payload: vec![],
    }
}

#[test]
fn repeated_user_event_is_delivered_once() {
    let mut node2 = SerfCore::new(16, 512, 512, false);
    let msg = user_event(1, "deploy", b"v1");
    let first = node2.notify_message(3, Some(SerfMessage::UserEvent(msg.clone())));
    let second = node2.notify_message(3, Some(SerfMessage::UserEvent(msg)));
    assert_eq!(first, MessageAction::Rebroadcast(BroadcastQueue::Event));
    assert_eq!(second, MessageAction::Drop);
    let buckets = node2.events.buckets();
    let held: Vec<&UserEvents> = buckets.iter().flatten().collect();
    assert_eq!(held.len(), 1);
    assert_eq!(held[0].events.len(), 1);
    assert_eq!(held[0].events[0].name, "deploy");
    assert_eq!(held[0].events[0].payload, b"v1".to_vec());
    assert_eq!(node2.events.time(), LamportTime::new(2));
}

#[test]
fn same_time_different_event_is_kept() {
    let mut core = SerfCore::new(16, 8, 8, false);
    let a = core.notify_message(3, Some(SerfMessage::UserEvent(user_event(4, "a", b"1"))));
    let b = core.notify_message(3, Some(SerfMessage::UserEvent(user_event(4, "a", b"2"))));
    assert_eq!(a, MessageAction::Rebroadcast(BroadcastQueue::Event));
    assert_eq!(b, MessageAction::Rebroadcast(BroadcastQueue::Event));
    let buckets = core.events.buckets();
    assert_eq!(buckets[4].as_ref().unwrap().events.len(), 2);
}

#[test]
fn too_old_event_is_dropped() {
    let mut core = SerfCore::new(16, 4, 4, false);
    core.notify_message(3, Some(SerfMessage::UserEvent(user_event(20, "new", b""))));
    assert_eq!(core.events.time(), LamportTime::new(21));
    // 17 + 4 <= 21: outside the buffer's window
    let r = core.notify_message(3, Some(SerfMessage::UserEvent(user_event(17, "old", b""))));
    assert_eq!(r, MessageAction::Drop);
    let r = core.notify_message(3, Some(SerfMessage::UserEvent(user_event(18, "recent", b""))));
    assert_eq!(r, MessageAction::Rebroadcast(BroadcastQueue::Event));
}

#[test]
fn event_replaces_an_older_bucket_in_its_slot() {
    let mut core = SerfCore::new(16, 4, 4, false);
    core.notify_message(3, Some(SerfMessage::UserEvent(user_event(2, "x", b""))));
    core.notify_message(3, Some(SerfMessage::UserEvent(user_event(6, "y", b""))));
    let buckets = core.events.buckets();
    let slot = buckets[2].as_ref().unwrap();
    assert_eq!(slot.ltime, LamportTime::new(6));
    assert_eq!(slot.events.len(), 1);
    assert_eq!(slot.events[0].name, "y");
}

#[test]
fn repeated_query_is_handled_once() {
    let mut core = SerfCore::new(16, 8, 8, false);
    let a = core.notify_message(4, Some(SerfMessage::Query(query(5, 77))));
    let b = core.notify_message(4, Some(SerfMessage::Query(query(5, 77))));
    let c = core.notify_message(4, Some(SerfMessage::Query(query(5, 78))));
    assert_eq!(a, MessageAction::Rebroadcast(BroadcastQueue::Query));
    assert_eq!(b, MessageAction::Drop);
    assert_eq!(c, MessageAction::Rebroadcast(BroadcastQueue::Query));
    assert_eq!(core.queries.time(), LamportTime::new(6));
}

#[test]
fn intents_are_dispatched_to_the_membership() {
    let mut core = SerfCore::new(16, 8, 8, false);
    core.membership.handle_node_join(1);
    let leave = LeaveMessage { ltime: LamportTime::new(5), node: 1, prune: false };
    let r = core.notify_message(0, Some(SerfMessage::Leave(leave)));
    assert_eq!(r, MessageAction::Rebroadcast(BroadcastQueue::Membership));
    assert_eq!(core.membership.member(1).unwrap().status, MemberStatus::Leaving);
    let r = core.notify_message(0, Some(SerfMessage::Leave(leave)));
    assert_eq!(r, MessageAction::Drop);
    let join = JoinMessage { ltime: LamportTime::new(7), node: 1 };
    let r = core.notify_message(1, Some(SerfMessage::Join(join)));
    assert_eq!(r, MessageAction::Rebroadcast(BroadcastQueue::Membership));
    assert_eq!(core.membership.member(1).unwrap().status, MemberStatus::Alive);
}

#[test]
fn other_messages_are_passed_on_or_dropped() {
    let mut core = SerfCore::new(16, 8, 8, false);
    let resp = QueryResponseMessage {
        ltime: LamportTime::new(1),
        id: 3,
        from: 2,
        flags: 0,
        payload: vec![],
    };
    assert_eq!(
        core.notify_message(5, Some(SerfMessage::QueryResponse(resp))),
        MessageAction::QueryResponse
    );
    assert_eq!(core.notify_message(7, None), MessageAction::Relay);
    assert_eq!(core.notify_message(200, None), MessageAction::Drop);
    assert_eq!(core.notify_message(1, None), MessageAction::Drop);
    // a join message under the leave tag is not acted on
    let join = JoinMessage { ltime: LamportTime::new(7), node: 1 };
    assert_eq!(core.notify_message(0, Some(SerfMessage::Join(join))), MessageAction::Drop);
    assert_eq!(core.membership.time(), LamportTime::new(0));
}

#[test]
fn push_pull_join_converges_clocks() {
    let mut node1 = SerfCore::new(16, 8, 8, false);
    let mut node2 = SerfCore::new(16, 8, 8, false);
    node1.membership.witness(LamportTime::new(9));
    node1.membership.handle_node_join(1);
    node1.membership.handle_node_join(3);
    node1.membership.handle_intent(
        ruserf_core::membership::IntentType::Join,
        3,
        LamportTime::new(4),
        false,
    );
    assert_eq!(node1.membership.time(), LamportTime::new(10));
    node2.membership.witness(LamportTime::new(2));
    node2.membership.handle_node_join(2);
    assert_eq!(node2.membership.time(), LamportTime::new(3));
    node1.membership.take_events();
    node2.membership.take_events();

    let pp1 = node1.local_state();
    let pp2 = node2.local_state();
    node2.merge_remote_state(&pp1, true);
    node1.merge_remote_state(&pp2, true);
    assert_eq!(node1.membership.time(), LamportTime::new(10));
    assert_eq!(node2.membership.time(), LamportTime::new(10));

    // the transport then reports the peers alive; held intents carry over
    node2.membership.handle_node_join(1);
    node2.membership.handle_node_join(3);
    node1.membership.handle_node_join(2);
    assert_eq!(node2.membership.num_members(), 3);
    assert_eq!(node1.membership.num_members(), 3);
    assert_eq!(node2.membership.member(3).unwrap().status_ltime, LamportTime::new(4));
}

#[test]
fn push_pull_left_members_are_applied_before_joins() {
    let mut node1 = SerfCore::new(16, 8, 8, false);
    node1.membership.handle_node_join(5);
    node1.membership.handle_intent(
        ruserf_core::membership::IntentType::Leave,
        5,
        LamportTime::new(3),
        false,
    );
    node1.membership.handle_node_leave(5, 0);
    assert_eq!(node1.membership.member(5).unwrap().status, MemberStatus::Left);
    let mut node2 = SerfCore::new(16, 8, 8, false);
    node2.membership.handle_node_join(5);
    node2.membership.take_events();
    let pp = node1.local_state();
    assert_eq!(pp.left_members, vec![5]);
    node2.merge_remote_state(&pp, false);
    // a leave intent, not a join: the node is leaving, and no event fires
    assert_eq!(node2.membership.member(5).unwrap().status, MemberStatus::Leaving);
    assert!(node2.membership.take_events().is_empty());
}

#[test]
fn push_pull_join_can_ignore_old_events() {
    let mut node1 = SerfCore::new(16, 8, 8, false);
    node1.notify_message(3, Some(SerfMessage::UserEvent(user_event(3, "old", b""))));
    let pp = node1.local_state();
    assert_eq!(pp.event_ltime, LamportTime::new(4));

    let mut ignoring = SerfCore::new(16, 8, 8, true);
    ignoring.merge_remote_state(&pp, true);
    assert_eq!(ignoring.events.min_time_value(), LamportTime::new(4));
    assert!(ignoring.events.buckets().iter().all(|b| b.is_none()));
    assert_eq!(ignoring.events.time(), LamportTime::new(4));

    let mut replaying = SerfCore::new(16, 8, 8, false);
    replaying.merge_remote_state(&pp, true);
    let buckets = replaying.events.buckets();
    assert_eq!(buckets[3].as_ref().unwrap().events[0].name, "old");
}

#[test]
fn push_pull_events_replay_once() {
    let mut core = SerfCore::new(16, 8, 8, false);
    let pp = PushPullMessage {
        ltime: LamportTime::new(0),
        status_ltimes: vec![],
        left_members: vec![],
        event_ltime: LamportTime::new(6),
        events: vec![Some(UserEvents {
            ltime: LamportTime::new(5),
            events: vec![UserEvent { name: "e".to_string(), payload: vec![1] }],
        })],
        query_ltime: LamportTime::new(2),
    };
    core.merge_remote_state(&pp, false);
    core.merge_remote_state(&pp, false);
    let buckets = core.events.buckets();
    assert_eq!(buckets[5].as_ref().unwrap().events.len(), 1);
    assert_eq!(core.events.time(), LamportTime::new(6));
    assert_eq!(core.queries.time(), LamportTime::new(2));
}

#[test]
fn nothing_is_handled_after_shutdown() {
    let mut core = SerfCore::new(16, 8, 8, false);
    core.membership.handle_node_join(1);
    core.shutdown();
    let r = core.notify_message(3, Some(SerfMessage::UserEvent(user_event(1, "late", b""))));
    assert_eq!(r, MessageAction::Drop);
    let leave = LeaveMessage { ltime: LamportTime::new(5), node: 1, prune: false };
    assert_eq!(core.notify_message(0, Some(SerfMessage::Leave(leave))), MessageAction::Drop);
    assert_eq!(core.notify_message(7, None), MessageAction::Drop);
    assert_eq!(core.membership.member(1).unwrap().status, MemberStatus::Alive);
    assert_eq!(core.events.time(), LamportTime::new(0));
    let pp = PushPullMessage {
        ltime: LamportTime::new(9),
        status_ltimes: vec![(1, LamportTime::new(8))],
        left_members: vec![1],
        event_ltime: LamportTime::new(3),
        events: vec![],
        query_ltime: LamportTime::new(3),
    };
    core.merge_remote_state(&pp, true);
    assert_eq!(core.membership.time(), LamportTime::new(0));
    assert_eq!(core.membership.member(1).unwrap().status, MemberStatus::Alive);
}

#[test]
fn join_and_leave_follow_the_lifecycle() {
    let mut core = SerfCore::new(16, 8, 8, false);
    assert_eq!(core.check_join(), Ok(()));
    assert_eq!(core.begin_leave(), Ok(true));
    assert_eq!(core.state, SerfState::Leaving);
    assert_eq!(core.begin_leave(), Err(SerfError::BadLeaveStatus(SerfState::Leaving)));
    assert_eq!(core.check_join(), Err(SerfError::BadJoinStatus(SerfState::Leaving)));
    core.finish_leave();
    assert_eq!(core.state, SerfState::Left);
    assert_eq!(core.begin_leave(), Ok(false));
    core.shutdown();
    assert_eq!(core.begin_leave(), Err(SerfError::BadLeaveStatus(SerfState::Shutdown)));
    assert_eq!(core.check_join(), Err(SerfError::BadJoinStatus(SerfState::Shutdown)));
}

#[test]
fn stats_report_members_queue_and_clocks() {
    let mut core = SerfCore::new(16, 8, 8, false);
    core.membership.handle_node_join(1);
    core.membership.handle_node_join(2);
    core.notify_message(1, Some(SerfMessage::Join(JoinMessage { ltime: LamportTime::new(4), node: 9 })));
    core.notify_message(3, Some(SerfMessage::UserEvent(user_event(2, "e", b""))));
    core.notify_message(4, Some(SerfMessage::Query(query(6, 1))));
    let s = core.stats();
    assert_eq!(s.members, 2);
    assert_eq!(s.intent_queue, 1);
    assert_eq!(s.member_time, 5);
    assert_eq!(s.event_time, 3);
    assert_eq!(s.query_time, 7);
}

#[test]
fn coalescing_keeps_the_latest_event_of_each_name() {
    let window = vec![
        user_event(3, "deploy", b"v1"),
        user_event(4, "restart", b"a"),
        user_event(5, "deploy", b"v2"),
        user_event(5, "deploy", b"v3"),
        user_event(2, "deploy", b"v0"),
    ];
    let out = ruserf_core::events::coalesce_user_events(&window);
    assert_eq!(out.len(), 2);
    assert_eq!(out[0].name, "restart");
    assert_eq!(out[0].payload, b"a".to_vec());
    assert_eq!(out[1].name, "deploy");
    assert_eq!(out[1].payload, b"v3".to_vec());
    assert_eq!(out[1].ltime, LamportTime::new(5));
    assert!(ruserf_core::events::coalesce_user_events(&vec![]).is_empty());
}
