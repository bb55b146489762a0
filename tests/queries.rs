use ruserf_core::clock::LamportTime;
use ruserf_core::error::SerfError;
use ruserf_core::queries::{ActiveQuery, QueryBuffer, QueryResponder};

#[test]
fn query_acks_and_responses_from_two_nodes() {
    // node1 asks "ping" with a 200 ms deadline on a three-node cluster
    let mut q = ActiveQuery::new(11, LamportTime::new(1), 200);
    assert!(q.handle_response(11, LamportTime::new(1), 2, true, 10));
    assert!(q.handle_response(11, LamportTime::new(1), 3, true, 12));
    assert!(q.handle_response(11, LamportTime::new(1), 2, false, 30));
    assert!(q.handle_response(11, LamportTime::new(1), 3, false, 40));
    // repeats are dropped
    assert!(!q.handle_response(11, LamportTime::new(1), 3, false, 41));
    assert!(!q.handle_response(11, LamportTime::new(1), 2, true, 42));
    assert_eq!(q.ack_nodes(), &vec![2, 3]);
    assert_eq!(q.response_nodes(), &vec![2, 3]);
}

#[test]
fn stale_or_late_responses_are_dropped() {
    let mut q = ActiveQuery::new(11, LamportTime::new(1), 200);
    assert!(!q.handle_response(12, LamportTime::new(1), 2, false, 10));
    assert!(!q.handle_response(11, LamportTime::new(2), 2, false, 10));
    assert!(!q.handle_response(11, LamportTime::new(1), 2, false, 201));
    assert!(q.response_nodes().is_empty());
}

#[test]
fn responder_responds_once() {
    let mut r = QueryResponder::new(200);
    assert_eq!(r.respond(10, 5, 1024), Ok(()));
    assert_eq!(r.respond(11, 5, 1024), Err(SerfError::QueryAlreadyResponsed));
    assert_eq!(r.respond(12, 5, 1024), Err(SerfError::QueryAlreadyResponsed));
}

#[test]
fn responder_refuses_late_or_large_responses() {
    let mut r = QueryResponder::new(200);
    assert_eq!(r.respond(201, 5, 1024), Err(SerfError::QueryTimeout));
    assert_eq!(
        r.respond(100, 2000, 1024),
        Err(SerfError::QueryResponseTooLarge { limit: 1024, got: 2000 })
    );
    assert_eq!(r.respond(100, 1024, 1024), Ok(()));
}

#[test]
fn seen_query_ring_drops_repeats_and_old_queries() {
    let mut b = QueryBuffer::new(4);
    assert_eq!(b.size(), 4);
    assert!(b.handle_query(LamportTime::new(3), 1));
    assert!(!b.handle_query(LamportTime::new(3), 1));
    assert!(b.handle_query(LamportTime::new(3), 2));
    assert_eq!(b.time(), LamportTime::new(4));
    b.raise_min_time(LamportTime::new(10));
    assert!(!b.handle_query(LamportTime::new(9), 5));
    assert!(b.handle_query(LamportTime::new(10), 5));
    let t = b.next_time();
    assert_eq!(t, LamportTime::new(12));
}
