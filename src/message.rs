//! Gossip message kinds and their one-byte tags.
use vstd::prelude::*;

use crate::clock::LamportTime;
use crate::table::MemberStatus;

verus! {

/// The kinds of gossip message sent along the transport.
#[derive(Debug, Copy, Clone, PartialEq, Eq, Hash, Structural)]
pub enum MessageType {
    Leave,
    Join,
    PushPull,
    UserEvent,
    Query,
    QueryResponse,
    ConflictResponse,
    Relay,
    KeyRequest,
    KeyResponse,
}

/// A tag byte that names no message kind.
#[derive(Debug, Copy, Clone, PartialEq, Eq, Structural)]
pub struct UnknownMessageType(pub u8);

/// The tag byte of each message kind.
pub open spec fn tag_of(t: MessageType) -> u8 {
    match t {
        MessageType::Leave => 0,
        MessageType::Join => 1,
        MessageType::PushPull => 2,
        MessageType::UserEvent => 3,
        MessageType::Query => 4,
        MessageType::QueryResponse => 5,
        MessageType::ConflictResponse => 6,
        MessageType::Relay => 7,
        MessageType::KeyRequest => 253,
        MessageType::KeyResponse => 254,
    }
}

/// Whether `b` is the tag of some message kind.
pub open spec fn is_tag(b: u8) -> bool {
    b <= 7 || b == 253 || b == 254
}

/// The display name of each message kind.
pub open spec fn name_of(t: MessageType) -> Seq<char> {
    match t {
        MessageType::Leave => "leave"@,
        MessageType::Join => "join"@,
        MessageType::PushPull => "push pull"@,
        MessageType::UserEvent => "user event"@,
        MessageType::Query => "query"@,
        MessageType::QueryResponse => "query response"@,
        MessageType::ConflictResponse => "conflict response"@,
        MessageType::Relay => "relay"@,
        MessageType::KeyRequest => "key request"@,
        MessageType::KeyResponse => "key response"@,
    }
}

impl MessageType {
    /// The tag byte that starts a message of this kind.
    pub fn tag(&self) -> (r: u8)
        ensures
            r == tag_of(*self),
    {
        match self {
            MessageType::Leave => 0,
            MessageType::Join => 1,
            MessageType::PushPull => 2,
            MessageType::UserEvent => 3,
            MessageType::Query => 4,
            MessageType::QueryResponse => 5,
            MessageType::ConflictResponse => 6,
            MessageType::Relay => 7,
            MessageType::KeyRequest => 253,
            MessageType::KeyResponse => 254,
        }
    }

    /// The message kind that a tag byte names.
    pub fn from_tag(b: u8) -> (r: Result<MessageType, UnknownMessageType>)
        ensures
            is_tag(b) <==> r is Ok,
            r matches Ok(t) ==> tag_of(t) == b,
            r matches Err(e) ==> e.0 == b,
    {
        match b {
            0 => Ok(MessageType::Leave),
            1 => Ok(MessageType::Join),
            2 => Ok(MessageType::PushPull),
            3 => Ok(MessageType::UserEvent),
            4 => Ok(MessageType::Query),
            5 => Ok(MessageType::QueryResponse),
            6 => Ok(MessageType::ConflictResponse),
            7 => Ok(MessageType::Relay),
            253 => Ok(MessageType::KeyRequest),
            254 => Ok(MessageType::KeyResponse),
            _ => Err(UnknownMessageType(b)),
        }
    }

    /// The display name of this kind.
    pub fn as_str(&self) -> (r: &'static str)
        ensures
            r@ == name_of(*self),
    {
        proof {
            reveal_strlit("leave");
            reveal_strlit("join");
            reveal_strlit("push pull");
            reveal_strlit("user event");
            reveal_strlit("query");
            reveal_strlit("query response");
            reveal_strlit("conflict response");
            reveal_strlit("relay");
            reveal_strlit("key request");
            reveal_strlit("key response");
        }
        match self {
            MessageType::Leave => "leave",
            MessageType::Join => "join",
            MessageType::PushPull => "push pull",
            MessageType::UserEvent => "user event",
            MessageType::Query => "query",
            MessageType::QueryResponse => "query response",
            MessageType::ConflictResponse => "conflict response",
            MessageType::Relay => "relay",
            MessageType::KeyRequest => "key request",
            MessageType::KeyResponse => "key response",
        }
    }
}

/// Leave intent: `node` is leaving as of `ltime`.
#[derive(Debug, Copy, Clone)]
pub struct LeaveMessage {
    pub ltime: LamportTime,
    pub node: u64,
    pub prune: bool,
}

/// Join intent: `node` is a member as of `ltime`.
#[derive(Debug, Copy, Clone)]
pub struct JoinMessage {
    pub ltime: LamportTime,
    pub node: u64,
}

/// One user event: a name and an opaque payload.
#[derive(Debug, Clone)]
pub struct UserEvent {
    pub name: String,
    pub payload: Vec<u8>,
}

/// What a user event is, for comparison: its name and payload.
pub type EventView = (Seq<char>, Seq<u8>);

impl View for UserEvent {
    type V = EventView;

    open spec fn view(&self) -> EventView {
        (self.name@, self.payload@)
    }
}

/// The user events seen at one Lamport time.
#[derive(Debug, Clone)]
pub struct UserEvents {
    pub ltime: LamportTime,
    pub events: Vec<UserEvent>,
}

/// A bucket of the event buffer, for comparison: its time and its events.
pub type BucketView = (u64, Seq<EventView>);

impl View for UserEvents {
    type V = BucketView;

    open spec fn view(&self) -> BucketView {
        (self.ltime.0, self.events@.map_values(|e: UserEvent| e@))
    }
}

/// A user event as gossiped.
#[derive(Debug, Clone)]
pub struct UserEventMessage {
    pub ltime: LamportTime,
    pub name: String,
    pub payload: Vec<u8>,
    /// Whether the event may be coalesced with later ones of the same name.
    pub cc: bool,
}

/// A query as gossiped.
#[derive(Debug, Clone)]
pub struct QueryMessage {
    pub ltime: LamportTime,
    pub id: u32,
    pub from: u64,
    pub filters: Vec<Vec<u8>>,
    pub flags: u32,
    pub relay_factor: u8,
    /// Time allowed for responses, in milliseconds.
    pub timeout: u64,
    pub name: String,
    pub payload: Vec<u8>,
}

/// A response to a query.
#[derive(Debug, Clone)]
pub struct QueryResponseMessage {
    pub ltime: LamportTime,
    pub id: u32,
    pub from: u64,
    pub flags: u32,
    pub payload: Vec<u8>,
}

/// Full state exchanged between two nodes on join and for anti-entropy.
#[derive(Debug, Clone)]
pub struct PushPullMessage {
    pub ltime: LamportTime,
    pub status_ltimes: Vec<(u64, LamportTime)>,
    pub left_members: Vec<u64>,
    pub event_ltime: LamportTime,
    pub events: Vec<Option<UserEvents>>,
    pub query_ltime: LamportTime,
}

/// A member as carried in a conflict response.
#[derive(Debug, Clone)]
pub struct Member {
    pub id: u64,
    pub tags: Vec<(String, String)>,
    pub status: MemberStatus,
    pub protocol_version: u8,
    pub delegate_version: u8,
}

/// A decoded gossip message.
#[derive(Debug, Clone)]
pub enum SerfMessage {
    Leave(LeaveMessage),
    Join(JoinMessage),
    PushPull(PushPullMessage),
    UserEvent(UserEventMessage),
    Query(QueryMessage),
    QueryResponse(QueryResponseMessage),
    ConflictResponse(Member),
    KeyRequest(Vec<u8>),
    KeyResponse(Vec<u8>),
}

/// The kind of a decoded message.
pub open spec fn kind_of(m: SerfMessage) -> MessageType {
    match m {
        SerfMessage::Leave(_) => MessageType::Leave,
        SerfMessage::Join(_) => MessageType::Join,
        SerfMessage::PushPull(_) => MessageType::PushPull,
        SerfMessage::UserEvent(_) => MessageType::UserEvent,
        SerfMessage::Query(_) => MessageType::Query,
        SerfMessage::QueryResponse(_) => MessageType::QueryResponse,
        SerfMessage::ConflictResponse(_) => MessageType::ConflictResponse,
        SerfMessage::KeyRequest(_) => MessageType::KeyRequest,
        SerfMessage::KeyResponse(_) => MessageType::KeyResponse,
    }
}

impl SerfMessage {
    /// The kind of this message.
    pub fn message_type(&self) -> (r: MessageType)
        ensures
            r == kind_of(*self),
    {
        match self {
            SerfMessage::Leave(_) => MessageType::Leave,
            SerfMessage::Join(_) => MessageType::Join,
            SerfMessage::PushPull(_) => MessageType::PushPull,
            SerfMessage::UserEvent(_) => MessageType::UserEvent,
            SerfMessage::Query(_) => MessageType::Query,
            SerfMessage::QueryResponse(_) => MessageType::QueryResponse,
            SerfMessage::ConflictResponse(_) => MessageType::ConflictResponse,
            SerfMessage::KeyRequest(_) => MessageType::KeyRequest,
            SerfMessage::KeyResponse(_) => MessageType::KeyResponse,
        }
    }

    /// The display name of this message's kind.
    pub fn as_str(&self) -> (r: &'static str)
        ensures
            r@ == name_of(kind_of(*self)),
    {
        self.message_type().as_str()
    }
}

/// A borrowed view of a decoded message.
#[derive(Debug, Copy, Clone)]
pub enum SerfMessageRef<'a> {
    Leave(&'a LeaveMessage),
    Join(&'a JoinMessage),
    PushPull(&'a PushPullMessage),
    UserEvent(&'a UserEventMessage),
    Query(&'a QueryMessage),
    QueryResponse(&'a QueryResponseMessage),
    ConflictResponse(&'a Member),
    KeyRequest(&'a Vec<u8>),
    KeyResponse(&'a Vec<u8>),
    Relay,
}

/// Cheap conversion into a borrowed message.
pub trait AsMessageRef {
    fn as_message_ref(&self) -> SerfMessageRef<'_>;
}

impl AsMessageRef for SerfMessage {
    fn as_message_ref(&self) -> SerfMessageRef<'_> {
        match self {
            SerfMessage::Leave(l) => SerfMessageRef::Leave(l),
            SerfMessage::Join(j) => SerfMessageRef::Join(j),
            SerfMessage::PushPull(pp) => SerfMessageRef::PushPull(pp),
            SerfMessage::UserEvent(u) => SerfMessageRef::UserEvent(u),
            SerfMessage::Query(q) => SerfMessageRef::Query(q),
            SerfMessage::QueryResponse(q) => SerfMessageRef::QueryResponse(q),
            SerfMessage::ConflictResponse(m) => SerfMessageRef::ConflictResponse(m),
            SerfMessage::KeyRequest(k) => SerfMessageRef::KeyRequest(k),
            SerfMessage::KeyResponse(k) => SerfMessageRef::KeyResponse(k),
        }
    }
}

/// Reading back the tag of a message kind gives that kind.
pub proof fn lemma_tag_round_trip(t: MessageType)
    ensures
        is_tag(tag_of(t)),
        forall|u: MessageType| tag_of(u) == tag_of(t) ==> u == t,
{
}

} // verus!
