//! The node's coordination state: membership, user events and queries, with
//! the dispatch of gossip messages and the push/pull state exchange.
use vstd::prelude::*;

use crate::clock::{witnessed, LamportTime};
use crate::error::{SerfError, SerfState};
use crate::events::{buckets_fold, buffer_after, event_kept, slot_view, EventBuffer};
use crate::membership::{
    intent_model_after, intent_model_step, intent_rebroadcast, IntentType, MemberModel, Membership,
};
use crate::message::{
    JoinMessage, LeaveMessage, PushPullMessage, QueryMessage, SerfMessage, UserEventMessage,
    UserEvents,
};
use crate::queries::{query_kept, ring_after_query, QueryBuffer};
use crate::snapshot::{next_min_time, Recovered};
use crate::table::{lemma_table_at, MemberState, MemberStatus};

verus! {

/// The three retransmit queues.
#[derive(Debug, Copy, Clone, PartialEq, Eq, Structural)]
pub enum BroadcastQueue {
    Membership,
    Event,
    Query,
}

/// What to do with a received gossip message once it has been handled.
#[derive(Debug, Copy, Clone, PartialEq, Eq, Structural)]
pub enum MessageAction {
    /// Nothing more.
    Drop,
    /// Gossip it further on the given queue; a kept user event is also
    /// delivered to the user, and a new query to its handler.
    Rebroadcast(BroadcastQueue),
    /// Hand the response to the matching outbound query.
    QueryResponse,
    /// Forward the rest of the message to the node named in its header.
    Relay,
}

/// Whether a message updates the state: a join or leave intent, a user event
/// or a query, under its own tag, at a time that a clock can witness.
pub open spec fn updates(tag: u8, decoded: Option<SerfMessage>) -> bool {
    match decoded {
        Some(SerfMessage::Leave(l)) => tag == 0 && l.ltime.0 < u64::MAX,
        Some(SerfMessage::Join(j)) => tag == 1 && j.ltime.0 < u64::MAX,
        Some(SerfMessage::UserEvent(u)) => tag == 3 && u.ltime.0 < u64::MAX,
        Some(SerfMessage::Query(q)) => tag == 4 && q.ltime.0 < u64::MAX,
        _ => false,
    }
}

/// The action for a message that does not update the state.
pub open spec fn passive_action(tag: u8, decoded: Option<SerfMessage>) -> MessageAction {
    if tag == 5 && decoded matches Some(SerfMessage::QueryResponse(_)) {
        MessageAction::QueryResponse
    } else if tag == 7 {
        MessageAction::Relay
    } else {
        MessageAction::Drop
    }
}

/// Rebroadcast on `q` when `b` holds.
pub open spec fn rebroadcast_if(b: bool, q: BroadcastQueue) -> MessageAction {
    if b {
        MessageAction::Rebroadcast(q)
    } else {
        MessageAction::Drop
    }
}

/// The clock after witnessing one before a remote time `t`, so that it lands
/// on `t` when it was behind; a zero time changes nothing.
pub open spec fn witness_prev(c: u64, t: u64) -> u64 {
    if t > 0 {
        witnessed(c, (t - 1) as u64)
    } else {
        c
    }
}

/// The Lamport time that `st` gives `node`, the first one when several do.
pub open spec fn lookup_ltime(st: Seq<(u64, LamportTime)>, node: u64) -> Option<u64>
    decreases st.len(),
{
    if st.len() == 0 {
        None
    } else if st[0].0 == node {
        Some(st[0].1.0)
    } else {
        lookup_ltime(st.drop_first(), node)
    }
}

/// The leave intents of a push/pull: each left node with its time, in order;
/// a left node without a time is passed over.
pub open spec fn left_intents(left: Seq<u64>, st: Seq<(u64, LamportTime)>) -> Seq<(u64, u64)>
    decreases left.len(),
{
    if left.len() == 0 {
        Seq::empty()
    } else {
        let p = left_intents(left.drop_last(), st);
        match lookup_ltime(st, left.last()) {
            Some(t) => p.push((left.last(), t)),
            None => p,
        }
    }
}

/// The join intents of a push/pull: every node with a time that has not left.
pub open spec fn join_intents(st: Seq<(u64, LamportTime)>, left: Seq<u64>) -> Seq<(u64, u64)>
    decreases st.len(),
{
    if st.len() == 0 {
        Seq::empty()
    } else {
        let p = join_intents(st.drop_last(), left);
        if left.contains(st.last().0) {
            p
        } else {
            p.push((st.last().0, st.last().1.0))
        }
    }
}

/// Intents of one kind, without pruning, applied in order.
pub open spec fn intents_fold(s: MemberModel, cap: nat, kind: IntentType, its: Seq<(u64, u64)>) -> MemberModel
    decreases its.len(),
{
    if its.len() == 0 {
        s
    } else {
        intent_model_step(intents_fold(s, cap, kind, its.drop_last()), cap, kind, its.last().0, its.last().1)
    }
}

/// The oldest accepted event time after a push/pull.
pub open spec fn merged_min_time(min_time: u64, ignore: bool, is_join: bool, event_ltime: u64) -> u64 {
    if is_join && ignore && event_ltime > min_time {
        event_ltime
    } else {
        min_time
    }
}

/// A leave intent handled: the membership took it, nothing else changed, and
/// it is gossiped on when fresh or for an unknown node.
pub open spec fn leave_done(a: SerfCore, b: SerfCore, r: MessageAction, l: LeaveMessage) -> bool {
    &&& b.membership.model() == intent_model_after(
        a.membership.model(),
        a.membership.intent_capacity(),
        IntentType::Leave,
        l.node,
        l.ltime.0,
        l.prune,
    )
    &&& b.membership.intent_capacity() == a.membership.intent_capacity()
    &&& b.events == a.events
    &&& b.queries == a.queries
    &&& r == rebroadcast_if(
        intent_rebroadcast(a.membership.table(), l.node, l.ltime.0),
        BroadcastQueue::Membership,
    )
}

/// A join intent handled, as a leave is.
pub open spec fn join_done(a: SerfCore, b: SerfCore, r: MessageAction, j: JoinMessage) -> bool {
    &&& b.membership.model() == intent_model_after(
        a.membership.model(),
        a.membership.intent_capacity(),
        IntentType::Join,
        j.node,
        j.ltime.0,
        false,
    )
    &&& b.membership.intent_capacity() == a.membership.intent_capacity()
    &&& b.events == a.events
    &&& b.queries == a.queries
    &&& r == rebroadcast_if(
        intent_rebroadcast(a.membership.table(), j.node, j.ltime.0),
        BroadcastQueue::Membership,
    )
}

/// A user event handled: the event buffer took it, nothing else changed, and
/// it is delivered and gossiped on when kept.
pub open spec fn event_done(a: SerfCore, b: SerfCore, r: MessageAction, u: UserEventMessage) -> bool {
    &&& b.events.clock() == witnessed(a.events.clock(), u.ltime.0)
    &&& b.events.buffer() == buffer_after(
        a.events.buffer(),
        a.events.min_time(),
        b.events.clock(),
        u.ltime.0,
        (u.name@, u.payload@),
    )
    &&& b.events.min_time() == a.events.min_time()
    &&& b.membership == a.membership
    &&& b.queries == a.queries
    &&& r == rebroadcast_if(
        event_kept(a.events.buffer(), a.events.min_time(), b.events.clock(), u.ltime.0, (u.name@, u.payload@)),
        BroadcastQueue::Event,
    )
}

/// A query handled: the seen-query ring took it, nothing else changed, and it
/// is handled and gossiped on when new.
pub open spec fn query_done(a: SerfCore, b: SerfCore, r: MessageAction, q: QueryMessage) -> bool {
    &&& b.queries.clock() == witnessed(a.queries.clock(), q.ltime.0)
    &&& b.queries.ring() == ring_after_query(a.queries.ring(), a.queries.min_time(), q.ltime.0, q.id)
    &&& b.queries.min_time() == a.queries.min_time()
    &&& b.membership == a.membership
    &&& b.events == a.events
    &&& r == rebroadcast_if(
        query_kept(a.queries.ring(), a.queries.min_time(), q.ltime.0, q.id),
        BroadcastQueue::Query,
    )
}

/// A push/pull merged: the clocks witnessed one before the remote times, the
/// leave intents then the join intents applied, the minimum event time
/// raised on a join that ignores old events, and the remote events received.
pub open spec fn merged(a: SerfCore, b: SerfCore, pp: PushPullMessage, is_join: bool) -> bool {
    let m0 = a.membership.model();
    let m1 = (m0.0, m0.1, witness_prev(m0.2, pp.ltime.0), m0.3);
    let cap = a.membership.intent_capacity();
    &&& b.membership.intent_capacity() == cap
    &&& b.membership.model() == intents_fold(
        intents_fold(m1, cap, IntentType::Leave, left_intents(pp.left_members@, pp.status_ltimes@)),
        cap,
        IntentType::Join,
        join_intents(pp.status_ltimes@, pp.left_members@),
    )
    &&& b.events.min_time() == merged_min_time(
        a.events.min_time(),
        a.event_join_ignore,
        is_join,
        pp.event_ltime.0,
    )
    &&& b.events.model() == buckets_fold(
        (a.events.buffer(), witness_prev(a.events.clock(), pp.event_ltime.0)),
        b.events.min_time(),
        pp.events@.map_values(|o: Option<UserEvents>| slot_view(o)),
    )
    &&& b.queries.ring() == a.queries.ring()
    &&& b.queries.min_time() == a.queries.min_time()
    &&& b.queries.clock() == witness_prev(a.queries.clock(), pp.query_ltime.0)
}

fn find_ltime(st: &Vec<(u64, LamportTime)>, node: u64) -> (r: Option<u64>)
    ensures
        r == lookup_ltime(st@, node),
{
    let mut i: usize = 0;
    assert(st@.skip(0) =~= st@);
    while i < st.len()
        invariant
            i <= st.len(),
            lookup_ltime(st@, node) == lookup_ltime(st@.skip(i as int), node),
        decreases st.len() - i,
    {
        let ghost rest = st@.skip(i as int);
        assert(rest[0] == st@[i as int]);
        if st[i].0 == node {
            return Some(st[i].1.0);
        }
        assert(rest.drop_first() =~= st@.skip(i + 1));
        i = i + 1;
    }
    assert(st@.skip(i as int).len() == 0);
    None
}

fn contains_id(v: &Vec<u64>, x: u64) -> (r: bool)
    ensures
        r == v@.contains(x),
{
    let mut i: usize = 0;
    while i < v.len()
        invariant
            i <= v.len(),
            forall|j: int| 0 <= j < i ==> v@[j] != x,
        decreases v.len() - i,
    {
        if v[i] == x {
            assert(v@[i as int] == x);
            return true;
        }
        i = i + 1;
    }
    false
}

/// Figures about a node for operators.
#[derive(Debug, Copy, Clone, PartialEq, Eq, Structural)]
pub struct Stats {
    pub members: usize,
    pub intent_queue: usize,
    pub member_time: u64,
    pub event_time: u64,
    pub query_time: u64,
}

/// Membership, user events and queries of one node.
pub struct SerfCore {
    pub membership: Membership,
    pub events: EventBuffer,
    pub queries: QueryBuffer,
    /// Whether events older than a join are ignored when joining.
    pub event_join_ignore: bool,
    /// Where the node is in its lifecycle.
    pub state: SerfState,
}

impl SerfCore {
    pub open spec fn wf(&self) -> bool {
        self.membership.wf() && self.events.wf() && self.queries.wf()
    }

    /// A node with empty tables and buffers of the given sizes.
    pub fn new(
        intent_capacity: usize,
        event_buffer_size: usize,
        query_buffer_size: usize,
        event_join_ignore: bool,
    ) -> (r: SerfCore)
        requires
            intent_capacity > 0,
            event_buffer_size > 0,
            query_buffer_size > 0,
        ensures
            r.wf(),
            r.membership.table() == Map::<u64, MemberState>::empty(),
            r.membership.intent_capacity() == intent_capacity,
            r.membership.clock() == 0,
            r.events.buffer().len() == event_buffer_size,
            r.events.clock() == 0,
            r.events.min_time() == 0,
            r.queries.ring().len() == query_buffer_size,
            r.queries.clock() == 0,
            r.queries.min_time() == 0,
            r.event_join_ignore == event_join_ignore,
            r.state == SerfState::Alive,
    {
        SerfCore {
            membership: Membership::new(intent_capacity),
            events: EventBuffer::new(event_buffer_size),
            queries: QueryBuffer::new(query_buffer_size),
            event_join_ignore,
            state: SerfState::Alive,
        }
    }

    /// The node's figures: its member count, its intent queue depth and its
    /// three clocks.
    pub fn stats(&self) -> (r: Stats)
        requires
            self.wf(),
        ensures
            r.members == self.membership.table().len(),
            r.intent_queue == self.membership.intents().len(),
            r.member_time == self.membership.clock(),
            r.event_time == self.events.clock(),
            r.query_time == self.queries.clock(),
    {
        Stats {
            members: self.membership.num_members(),
            intent_queue: self.membership.intent_queue_len(),
            member_time: self.membership.time().0,
            event_time: self.events.time().0,
            query_time: self.queries.time().0,
        }
    }

    /// Checks that the node may join peers: only a live node may.
    pub fn check_join(&self) -> (r: Result<(), SerfError>)
        ensures
            r is Ok <==> self.state == SerfState::Alive,
            r matches Err(e) ==> e == SerfError::BadJoinStatus(self.state),
    {
        if self.state == SerfState::Alive {
            Ok(())
        } else {
            Err(SerfError::BadJoinStatus(self.state))
        }
    }

    /// Starts leaving the cluster. Returns whether a leave was started: a
    /// node that has already left has nothing to do, while one leaving or
    /// shut down may not leave.
    pub fn begin_leave(&mut self) -> (r: Result<bool, SerfError>)
        ensures
            r == (match old(self).state {
                SerfState::Alive => Ok(true),
                SerfState::Left => Ok(false),
                s => Err(SerfError::BadLeaveStatus(s)),
            }),
            final(self).state == if old(self).state == SerfState::Alive {
                SerfState::Leaving
            } else {
                old(self).state
            },
            final(self).membership == old(self).membership,
            final(self).events == old(self).events,
            final(self).queries == old(self).queries,
            final(self).event_join_ignore == old(self).event_join_ignore,
    {
        match self.state {
            SerfState::Alive => {
                self.state = SerfState::Leaving;
                Ok(true)
            },
            SerfState::Left => Ok(false),
            s => Err(SerfError::BadLeaveStatus(s)),
        }
    }

    /// Ends a leave once it has been broadcast: a leaving node has left.
    pub fn finish_leave(&mut self)
        ensures
            final(self).state == if old(self).state == SerfState::Leaving {
                SerfState::Left
            } else {
                old(self).state
            },
            final(self).membership == old(self).membership,
            final(self).events == old(self).events,
            final(self).queries == old(self).queries,
            final(self).event_join_ignore == old(self).event_join_ignore,
    {
        if self.state == SerfState::Leaving {
            self.state = SerfState::Left;
        }
    }

    /// Shuts the node down: from then on gossip changes nothing and asks for
    /// nothing to be delivered.
    pub fn shutdown(&mut self)
        ensures
            final(self).state == SerfState::Shutdown,
            final(self).membership == old(self).membership,
            final(self).events == old(self).events,
            final(self).queries == old(self).queries,
            final(self).event_join_ignore == old(self).event_join_ignore,
    {
        self.state = SerfState::Shutdown;
    }

    /// A node restarted from its journal: the three clocks stand at the
    /// recorded values, and no event or query at or before the recorded
    /// times is accepted again.
    pub fn restore(
        intent_capacity: usize,
        event_buffer_size: usize,
        query_buffer_size: usize,
        event_join_ignore: bool,
        rec: &Recovered,
    ) -> (r: SerfCore)
        requires
            intent_capacity > 0,
            event_buffer_size > 0,
            query_buffer_size > 0,
        ensures
            r.wf(),
            r.membership.table() == Map::<u64, MemberState>::empty(),
            r.membership.intent_capacity() == intent_capacity,
            r.membership.clock() == rec.clock,
            r.events.buffer().len() == event_buffer_size,
            r.events.clock() == rec.event_clock,
            r.events.min_time() == next_min_time(rec.event_clock),
            r.queries.ring().len() == query_buffer_size,
            r.queries.clock() == rec.query_clock,
            r.queries.min_time() == next_min_time(rec.query_clock),
            r.event_join_ignore == event_join_ignore,
            r.state == SerfState::Alive,
    {
        let mut core = SerfCore::new(intent_capacity, event_buffer_size, query_buffer_size, event_join_ignore);
        if rec.clock > 0 {
            core.membership.witness(LamportTime(rec.clock - 1));
        }
        if rec.event_clock > 0 {
            core.events.witness(LamportTime(rec.event_clock - 1));
        }
        if rec.query_clock > 0 {
            core.queries.witness(LamportTime(rec.query_clock - 1));
        }
        let next_event = if rec.event_clock < u64::MAX {
            rec.event_clock + 1
        } else {
            rec.event_clock
        };
        let next_query = if rec.query_clock < u64::MAX {
            rec.query_clock + 1
        } else {
            rec.query_clock
        };
        core.events.raise_min_time(LamportTime(next_event));
        core.queries.raise_min_time(LamportTime(next_query));
        core
    }

    /// Handles a received gossip message, given its tag byte and what the
    /// transform layer decoded from the rest (`None` where decoding failed),
    /// and says what is to be done with it next.
    pub fn notify_message(&mut self, tag: u8, decoded: Option<SerfMessage>) -> (r: MessageAction)
        requires
            old(self).wf(),
        ensures
            final(self).wf(),
            final(self).event_join_ignore == old(self).event_join_ignore,
            final(self).state == old(self).state,
            old(self).state == SerfState::Shutdown ==> *final(self) == *old(self) && r
                == MessageAction::Drop,
            old(self).state != SerfState::Shutdown && !updates(tag, decoded) ==> *final(self)
                == *old(self) && r == passive_action(tag, decoded),
            old(self).state != SerfState::Shutdown ==> match decoded {
                Some(SerfMessage::Leave(l)) => tag == 0 && l.ltime.0 < u64::MAX ==> leave_done(
                    *old(self),
                    *final(self),
                    r,
                    l,
                ),
                Some(SerfMessage::Join(j)) => tag == 1 && j.ltime.0 < u64::MAX ==> join_done(
                    *old(self),
                    *final(self),
                    r,
                    j,
                ),
                Some(SerfMessage::UserEvent(u)) => tag == 3 && u.ltime.0 < u64::MAX ==> event_done(
                    *old(self),
                    *final(self),
                    r,
                    u,
                ),
                Some(SerfMessage::Query(q)) => tag == 4 && q.ltime.0 < u64::MAX ==> query_done(
                    *old(self),
                    *final(self),
                    r,
                    q,
                ),
                _ => true,
            },
    {
        if self.state == SerfState::Shutdown {
            return MessageAction::Drop;
        }
        match decoded {
            Some(SerfMessage::Leave(l)) => {
                if tag == 0 && l.ltime.0 < u64::MAX {
                    let b = self.membership.handle_intent(IntentType::Leave, l.node, l.ltime, l.prune);
                    return if b {
                        MessageAction::Rebroadcast(BroadcastQueue::Membership)
                    } else {
                        MessageAction::Drop
                    };
                }
            },
            Some(SerfMessage::Join(j)) => {
                if tag == 1 && j.ltime.0 < u64::MAX {
                    let b = self.membership.handle_intent(IntentType::Join, j.node, j.ltime, false);
                    return if b {
                        MessageAction::Rebroadcast(BroadcastQueue::Membership)
                    } else {
                        MessageAction::Drop
                    };
                }
            },
            Some(SerfMessage::UserEvent(u)) => {
                if tag == 3 && u.ltime.0 < u64::MAX {
                    let b = self.events.handle_user_event(&u);
                    return if b {
                        MessageAction::Rebroadcast(BroadcastQueue::Event)
                    } else {
                        MessageAction::Drop
                    };
                }
            },
            Some(SerfMessage::Query(q)) => {
                if tag == 4 && q.ltime.0 < u64::MAX {
                    let b = self.queries.handle_query(q.ltime, q.id);
                    return if b {
                        MessageAction::Rebroadcast(BroadcastQueue::Query)
                    } else {
                        MessageAction::Drop
                    };
                }
            },
            Some(SerfMessage::QueryResponse(_)) => {
                if tag == 5 {
                    return MessageAction::QueryResponse;
                }
            },
            _ => {},
        }
        if tag == 7 {
            MessageAction::Relay
        } else {
            MessageAction::Drop
        }
    }

    /// Merges the state a peer sent in a push/pull. The three clocks first
    /// witness one before the remote times, so that a clock behind lands on
    /// the remote value. Left nodes are then handled as leave intents at the
    /// time the peer gives them, before the other nodes as join intents. On a
    /// join with `event_join_ignore`, events up to the remote event time are
    /// no longer accepted. Last, every event the peer holds is received as if
    /// freshly gossiped.
    pub fn merge_remote_state(&mut self, pp: &PushPullMessage, is_join: bool)
        requires
            old(self).wf(),
        ensures
            final(self).wf(),
            final(self).event_join_ignore == old(self).event_join_ignore,
            final(self).state == old(self).state,
            old(self).state == SerfState::Shutdown ==> *final(self) == *old(self),
            old(self).state != SerfState::Shutdown ==> merged(*old(self), *final(self), *pp, is_join),
    {
        if self.state == SerfState::Shutdown {
            return;
        }
        if pp.ltime.0 > 0 {
            self.membership.witness(LamportTime(pp.ltime.0 - 1));
        }
        if pp.event_ltime.0 > 0 {
            self.events.witness(LamportTime(pp.event_ltime.0 - 1));
        }
        if pp.query_ltime.0 > 0 {
            self.queries.witness(LamportTime(pp.query_ltime.0 - 1));
        }
        let ghost cap = self.membership.intent_capacity();
        let ghost m1 = self.membership.model();
        let ghost st = pp.status_ltimes@;
        let ghost left = pp.left_members@;
        let ghost events1 = self.events;
        let ghost queries1 = self.queries;
        let mut i: usize = 0;
        while i < pp.left_members.len()
            invariant
                i <= pp.left_members.len(),
                self.membership.wf(),
                self.membership.intent_capacity() == cap,
                self.membership.model() == intents_fold(m1, cap, IntentType::Leave, left_intents(left.take(i as int), st)),
                self.events == events1,
                self.queries == queries1,
                self.event_join_ignore == old(self).event_join_ignore,
                self.state == old(self).state,
                st == pp.status_ltimes@,
                left == pp.left_members@,
            decreases pp.left_members.len() - i,
        {
            let node = pp.left_members[i];
            let ghost prefix = left_intents(left.take(i as int), st);
            match find_ltime(&pp.status_ltimes, node) {
                Some(t) => {
                    if t < u64::MAX {
                        self.membership.handle_intent(IntentType::Leave, node, LamportTime(t), false);
                    }
                    assert(prefix.push((node, t)).drop_last() =~= prefix);
                },
                None => {},
            }
            i = i + 1;
            assert(left.take(i as int).drop_last() =~= left.take(i - 1));
            assert(left.take(i as int).last() == node);
        }
        assert(left.take(left.len() as int) =~= left);
        let ghost m2 = self.membership.model();
        let mut k: usize = 0;
        while k < pp.status_ltimes.len()
            invariant
                k <= pp.status_ltimes.len(),
                self.membership.wf(),
                self.membership.intent_capacity() == cap,
                self.membership.model() == intents_fold(m2, cap, IntentType::Join, join_intents(st.take(k as int), left)),
                self.events == events1,
                self.queries == queries1,
                self.event_join_ignore == old(self).event_join_ignore,
                self.state == old(self).state,
                st == pp.status_ltimes@,
                left == pp.left_members@,
            decreases pp.status_ltimes.len() - k,
        {
            let (node, t) = pp.status_ltimes[k];
            let ghost prefix = join_intents(st.take(k as int), left);
            if !contains_id(&pp.left_members, node) {
                if t.0 < u64::MAX {
                    self.membership.handle_intent(IntentType::Join, node, t, false);
                }
                assert(prefix.push((node, t.0)).drop_last() =~= prefix);
            }
            k = k + 1;
            assert(st.take(k as int).drop_last() =~= st.take(k - 1));
            assert(st.take(k as int).last() == (node, t));
        }
        assert(st.take(st.len() as int) =~= st);
        if is_join && self.event_join_ignore {
            self.events.raise_min_time(pp.event_ltime);
        }
        let ghost e1 = self.events.model();
        let ghost bs = pp.events@.map_values(|o: Option<UserEvents>| slot_view(o));
        let mut j: usize = 0;
        while j < pp.events.len()
            invariant
                j <= pp.events.len(),
                self.events.wf(),
                self.events.min_time() == merged_min_time(
                    old(self).events.min_time(),
                    old(self).event_join_ignore,
                    is_join,
                    pp.event_ltime.0,
                ),
                self.events.model() == buckets_fold(e1, self.events.min_time(), bs.take(j as int)),
                bs == pp.events@.map_values(|o: Option<UserEvents>| slot_view(o)),
                self.membership.wf(),
                self.membership.intent_capacity() == cap,
                self.membership.model() == intents_fold(m2, cap, IntentType::Join, join_intents(st, left)),
                self.queries == queries1,
                self.event_join_ignore == old(self).event_join_ignore,
                self.state == old(self).state,
            decreases pp.events.len() - j,
        {
            match &pp.events[j] {
                Some(b) => {
                    self.events.handle_bucket(b);
                },
                None => {},
            }
            j = j + 1;
            assert(bs.take(j as int).drop_last() =~= bs.take(j - 1));
            assert(bs.take(j as int).last() == slot_view(pp.events@[j - 1]));
        }
        assert(bs.take(bs.len() as int) =~= bs);
    }

    /// The state to send a peer in a push/pull: the three clock values, the
    /// status time of every member, the members that have left, and a copy of
    /// the event buffer.
    pub fn local_state(&self) -> (r: PushPullMessage)
        requires
            self.wf(),
        ensures
            r.ltime.0 == self.membership.clock(),
            r.event_ltime.0 == self.events.clock(),
            r.query_ltime.0 == self.queries.clock(),
            forall|id: u64|
                (exists|i: int| 0 <= i < r.status_ltimes@.len() && #[trigger] r.status_ltimes@[i].0 == id)
                    <==> self.membership.table().contains_key(id),
            forall|i: int|
                0 <= i < r.status_ltimes@.len() ==> self.membership.table().contains_key(
                    #[trigger] r.status_ltimes@[i].0,
                ) && self.membership.table()[r.status_ltimes@[i].0].status_ltime == r.status_ltimes@[i].1,
            forall|id: u64|
                r.left_members@.contains(id) <==> self.membership.table().contains_key(id)
                    && self.membership.table()[id].status == MemberStatus::Left,
            r.events@.map_values(|o: Option<UserEvents>| slot_view(o)) == self.events.buffer(),
    {
        let ms = self.membership.members();
        let mut st: Vec<(u64, LamportTime)> = Vec::new();
        let mut i: usize = 0;
        while i < ms.len()
            invariant
                i <= ms.len(),
                st@.len() == i,
                forall|j: int| 0 <= j < i ==> #[trigger] st@[j] == (ms@[j].id, ms@[j].status_ltime),
            decreases ms.len() - i,
        {
            st.push((ms[i].id, ms[i].status_ltime));
            i = i + 1;
        }
        proof {
            assert forall|id: u64|
                (exists|i: int| 0 <= i < st@.len() && #[trigger] st@[i].0 == id)
                    <==> self.membership.table().contains_key(id) by {
                if exists|i: int| 0 <= i < st@.len() && #[trigger] st@[i].0 == id {
                    let i = choose|i: int| 0 <= i < st@.len() && #[trigger] st@[i].0 == id;
                    lemma_table_at(ms@, i);
                }
                if self.membership.table().contains_key(id) {
                    let i = choose|i: int| 0 <= i < ms@.len() && ms@[i].id == id;
                    assert(st@[i].0 == id);
                }
            }
            assert forall|i: int| 0 <= i < st@.len() implies self.membership.table().contains_key(
                #[trigger] st@[i].0,
            ) && self.membership.table()[st@[i].0].status_ltime == st@[i].1 by {
                lemma_table_at(ms@, i);
            }
        }
        PushPullMessage {
            ltime: self.membership.time(),
            status_ltimes: st,
            left_members: self.membership.left_members(),
            event_ltime: self.events.time(),
            events: self.events.buckets(),
            query_ltime: self.queries.time(),
        }
    }
}

} // verus!
