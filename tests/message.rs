use ruserf_core::clock::LamportTime;
use ruserf_core::message::{
    AsMessageRef, JoinMessage, MessageType, SerfMessage, SerfMessageRef, UnknownMessageType,
};

#[test]
fn tags_round_trip() {
    let all = [
        MessageType::Leave,
        MessageType::Join,
        MessageType::PushPull,
        MessageType::UserEvent,
        MessageType::Query,
        MessageType::QueryResponse,
        MessageType::ConflictResponse,
        MessageType::Relay,
        MessageType::KeyRequest,
        MessageType::KeyResponse,
    ];
    for t in all {
        assert_eq!(MessageType::from_tag(t.tag()), Ok(t));
    }
    assert_eq!(MessageType::Relay.tag(), 7);
    assert_eq!(MessageType::KeyRequest.tag(), 253);
    assert_eq!(MessageType::KeyResponse.tag(), 254);
}

#[test]
fn unknown_tags_are_refused() {
    assert_eq!(MessageType::from_tag(8), Err(UnknownMessageType(8)));
    assert_eq!(MessageType::from_tag(255), Err(UnknownMessageType(255)));
}

#[test]
fn names_of_kinds() {
    assert_eq!(MessageType::PushPull.as_str(), "push pull");
    assert_eq!(MessageType::QueryResponse.as_str(), "query response");
    let m = SerfMessage::Join(JoinMessage { ltime: LamportTime::new(3), node: 9 });
    assert_eq!(m.as_str(), "join");
    assert_eq!(m.message_type(), MessageType::Join);
    match m.as_message_ref() {
        SerfMessageRef::Join(j) => assert_eq!(j.node, 9),
        _ => panic!("expected a join"),
    }
}
