use ruserf_core::delegate::{
    ack_payload, bytes_left, check_meta_size, node_to_member, ping_coordinate, relay_frame,
    relay_inner, PING_VERSION,
};
use ruserf_core::error::{join_result, SerfDelegateError, SerfError, SerfState};
use ruserf_core::table::MemberStatus;

#[test]
fn meta_size_is_checked_against_the_smaller_limit() {
    assert_eq!(check_meta_size(100, 512, 512), Ok(()));
    assert_eq!(check_meta_size(512, 600, 512), Ok(()));
    assert_eq!(check_meta_size(513, 600, 512), Err(SerfError::TagsTooLarge(513)));
    assert_eq!(check_meta_size(200, 100, 512), Err(SerfError::TagsTooLarge(200)));
}

#[test]
fn transport_node_becomes_member() {
    let m = node_to_member(4, true, 10, 512, vec![("role".to_string(), "db".to_string())]).unwrap();
    assert_eq!(m.id, 4);
    assert_eq!(m.status, MemberStatus::Left);
    assert_eq!(m.tags.len(), 1);
    let m = node_to_member(4, false, 10, 512, vec![]).unwrap();
    assert_eq!(m.status, MemberStatus::Unknown);
    assert_eq!(node_to_member(4, false, 600, 512, vec![]).err(), Some(SerfError::TagsTooLarge(600)));
}

#[test]
fn ack_payload_starts_with_the_version() {
    assert!(ack_payload(None).is_empty());
    assert_eq!(ack_payload(Some(vec![9, 8])), vec![PING_VERSION, 9, 8]);
}

#[test]
fn ping_payload_is_read_only_at_our_version() {
    assert_eq!(ping_coordinate(&vec![1, 5, 6], true), Some(vec![5, 6]));
    assert_eq!(ping_coordinate(&vec![1, 5, 6], false), None);
    assert_eq!(ping_coordinate(&vec![2, 5, 6], true), None);
    assert_eq!(ping_coordinate(&vec![], true), None);
    assert_eq!(ping_coordinate(&vec![1], true), Some(vec![]));
}

#[test]
fn gossip_byte_budget() {
    assert_eq!(bytes_left(100, &vec![10, 20]), 70);
    assert_eq!(bytes_left(100, &vec![60, 50]), 0);
    assert_eq!(bytes_left(100, &vec![]), 100);
    assert_eq!(bytes_left(0, &vec![]), 0);
    // three queues in turn: membership, query, event
    let after_members = bytes_left(1000, &vec![100]);
    let after_queries = bytes_left(after_members, &vec![200, 50]);
    let after_events = bytes_left(after_queries, &vec![300]);
    assert_eq!((after_members, after_queries, after_events), (900, 650, 350));
}

#[test]
fn delegate_error_constructors() {
    let e: SerfDelegateError<u8, u16> = SerfDelegateError::transform(3);
    assert!(matches!(e, SerfDelegateError::TransformDelegate(3)));
    let e: SerfDelegateError<u8, u16> = SerfDelegateError::merge(4);
    assert!(matches!(e, SerfDelegateError::MergeDelegate(4)));
    let e: SerfDelegateError<u8, u16> = SerfDelegateError::serf(SerfError::QueryTimeout);
    assert!(matches!(e, SerfDelegateError::Serf(SerfError::QueryTimeout)));
    let e: SerfDelegateError<u8, u16> =
        SerfDelegateError::serf(SerfError::BadJoinStatus(SerfState::Shutdown));
    assert!(matches!(e, SerfDelegateError::Serf(SerfError::BadJoinStatus(SerfState::Shutdown))));
}

#[test]
fn join_succeeds_when_one_peer_joined() {
    let r = join_result(vec![1, 2], vec![(3, SerfError::QueryTimeout)], None);
    assert_eq!(r.ok(), Some(2));
    let e = join_result(vec![], vec![(3, SerfError::QueryTimeout)], None).err().unwrap();
    assert_eq!(e.num_joined(), 0);
    assert_eq!(e.errors.len(), 1);
}

#[test]
fn relay_envelope_round_trip() {
    let frame = relay_frame(&vec![0xAA, 0xBB], &vec![5, 1, 2, 3]);
    assert_eq!(frame, vec![7, 0xAA, 0xBB, 5, 1, 2, 3]);
    assert_eq!(relay_inner(&frame, 2), Some(vec![5, 1, 2, 3]));
    assert_eq!(relay_inner(&frame, 6), Some(vec![]));
    assert_eq!(relay_inner(&frame, 7), None);
}
