//! The membership table and its intent state machine.
use vstd::prelude::*;

use crate::clock::{witnessed, LamportClock, LamportTime};
use crate::table::{
    find_member, lemma_table_at, lemma_table_empty, lemma_table_push, lemma_table_remove,
    lemma_table_update, seq_table, unique_ids, MemberState, MemberStatus,
};

verus! {

/// The two kinds of membership intent.
#[derive(Debug, Copy, Clone, PartialEq, Eq, Structural)]
pub enum IntentType {
    Join,
    Leave,
}

/// The latest intent seen for a node that is not in the table yet.
#[derive(Debug, Copy, Clone)]
pub struct NodeIntent {
    pub kind: IntentType,
    pub node: u64,
    pub ltime: LamportTime,
}

/// Kinds of member event surfaced to the user.
#[derive(Debug, Copy, Clone, PartialEq, Eq, Structural)]
pub enum MemberEventType {
    Join,
    Leave,
    Failed,
    Update,
    Reap,
}

/// A member event for one node.
#[derive(Debug, Copy, Clone, PartialEq, Eq, Structural)]
pub struct MemberEvent {
    pub ty: MemberEventType,
    pub node: u64,
}

/// Whether an intent at `ltime` is newer than what the record holds.
pub open spec fn fresh(m: MemberState, ltime: u64) -> bool {
    ltime > m.status_ltime.0
}

/// Status after a fresh intent of the given kind.
pub open spec fn intent_status(kind: IntentType, s: MemberStatus) -> MemberStatus {
    match kind {
        IntentType::Join => match s {
            MemberStatus::Leaving | MemberStatus::Left | MemberStatus::Failed => MemberStatus::Alive,
            _ => s,
        },
        IntentType::Leave => match s {
            MemberStatus::Alive => MemberStatus::Leaving,
            MemberStatus::Failed => MemberStatus::Left,
            _ => s,
        },
    }
}

/// A record after an intent: a stale one changes nothing.
pub open spec fn apply_intent(m: MemberState, kind: IntentType, ltime: u64) -> MemberState {
    if fresh(m, ltime) {
        MemberState { status: intent_status(kind, m.status), status_ltime: LamportTime(ltime), ..m }
    } else {
        m
    }
}

/// Whether a fresh intent removes the record: a pruning leave that ends in `Left`.
pub open spec fn prunes(m: MemberState, kind: IntentType, ltime: u64, prune: bool) -> bool {
    prune && kind == IntentType::Leave && fresh(m, ltime) && intent_status(kind, m.status)
        == MemberStatus::Left
}

/// The table after an intent.
pub open spec fn table_after_intent(
    t: Map<u64, MemberState>,
    kind: IntentType,
    node: u64,
    ltime: u64,
    prune: bool,
) -> Map<u64, MemberState> {
    if t.contains_key(node) && fresh(t[node], ltime) {
        if prunes(t[node], kind, ltime, prune) {
            t.remove(node)
        } else {
            t.insert(node, apply_intent(t[node], kind, ltime))
        }
    } else {
        t
    }
}

/// Whether an intent goes on to be gossiped: it is for an unknown node, or fresh.
pub open spec fn intent_rebroadcast(t: Map<u64, MemberState>, node: u64, ltime: u64) -> bool {
    !t.contains_key(node) || fresh(t[node], ltime)
}

/// The member events an intent emits: a fresh leave of a failed node.
pub open spec fn intent_events(
    t: Map<u64, MemberState>,
    kind: IntentType,
    node: u64,
    ltime: u64,
) -> Seq<MemberEvent> {
    if t.contains_key(node) && fresh(t[node], ltime) && kind == IntentType::Leave
        && t[node].status == MemberStatus::Failed {
        seq![MemberEvent { ty: MemberEventType::Leave, node }]
    } else {
        Seq::empty()
    }
}

/// No two intents of `s` are for one node.
pub open spec fn unique_nodes(s: Seq<NodeIntent>) -> bool {
    forall|i: int, j: int|
        0 <= i < s.len() && 0 <= j < s.len() && i != j ==> #[trigger] s[i].node
            != #[trigger] s[j].node
}

pub open spec fn ring_has(s: Seq<NodeIntent>, node: u64) -> bool {
    exists|i: int| 0 <= i < s.len() && #[trigger] s[i].node == node
}

pub open spec fn ring_index(s: Seq<NodeIntent>, node: u64) -> int {
    choose|i: int| 0 <= i < s.len() && s[i].node == node
}

/// The intent held for `node`, if any.
pub open spec fn ring_find(s: Seq<NodeIntent>, node: u64) -> Option<NodeIntent> {
    if ring_has(s, node) {
        Some(s[ring_index(s, node)])
    } else {
        None
    }
}

/// The ring after storing `it`: the newer of two intents for one node is kept,
/// and when the ring is full the oldest entry makes room.
pub open spec fn ring_after(s: Seq<NodeIntent>, cap: nat, it: NodeIntent) -> Seq<NodeIntent> {
    if ring_has(s, it.node) {
        if it.ltime.0 > s[ring_index(s, it.node)].ltime.0 {
            s.update(ring_index(s, it.node), it)
        } else {
            s
        }
    } else if s.len() < cap {
        s.push(it)
    } else {
        s.drop_first().push(it)
    }
}

/// The ring without the intent for `node`.
pub open spec fn ring_without(s: Seq<NodeIntent>, node: u64) -> Seq<NodeIntent> {
    if ring_has(s, node) {
        s.remove(ring_index(s, node))
    } else {
        s
    }
}

/// The record of a node that the transport reports alive, before any held intent.
pub open spec fn alive_base(t: Map<u64, MemberState>, node: u64) -> MemberState {
    if t.contains_key(node) {
        MemberState { status: MemberStatus::Alive, ..t[node] }
    } else {
        MemberState {
            id: node,
            status: MemberStatus::Alive,
            status_ltime: LamportTime(0),
            leave_time: 0,
        }
    }
}

/// A held intent applied to a node that has just come alive.
pub open spec fn with_held_intent(m: MemberState, it: Option<NodeIntent>) -> MemberState {
    match it {
        Some(i) => if fresh(m, i.ltime.0) {
            MemberState {
                status: if i.kind == IntentType::Leave {
                    MemberStatus::Leaving
                } else {
                    m.status
                },
                status_ltime: i.ltime,
                ..m
            }
        } else {
            m
        },
        None => m,
    }
}

/// Status after the transport reports a node gone.
pub open spec fn gone_status(s: MemberStatus) -> MemberStatus {
    match s {
        MemberStatus::Leaving => MemberStatus::Left,
        MemberStatus::Alive => MemberStatus::Failed,
        _ => s,
    }
}

/// Whether a record is due for removal at `now`.
pub open spec fn reapable(m: MemberState, now: u64, timeout: u64) -> bool {
    (m.status == MemberStatus::Failed || m.status == MemberStatus::Left) && now - m.leave_time
        > timeout
}

/// What a membership holds, for comparison: the table, the intent ring, the
/// clock and the pending member events.
pub type MemberModel = (Map<u64, MemberState>, Seq<NodeIntent>, u64, Seq<MemberEvent>);

/// An intent applied to a membership.
pub open spec fn intent_model_after(
    s: MemberModel,
    cap: nat,
    kind: IntentType,
    node: u64,
    ltime: u64,
    prune: bool,
) -> MemberModel {
    (
        table_after_intent(s.0, kind, node, ltime, prune),
        if s.0.contains_key(node) {
            s.1
        } else {
            ring_after(s.1, cap, NodeIntent { kind, node, ltime: LamportTime(ltime) })
        },
        witnessed(s.2, ltime),
        s.3 + intent_events(s.0, kind, node, ltime),
    )
}

/// A non-pruning intent applied to a membership; an intent at the largest
/// time, which no clock can witness, is passed over.
pub open spec fn intent_model_step(
    s: MemberModel,
    cap: nat,
    kind: IntentType,
    node: u64,
    ltime: u64,
) -> MemberModel {
    if ltime == u64::MAX {
        s
    } else {
        intent_model_after(s, cap, kind, node, ltime, false)
    }
}

/// The membership table, the recent-intent ring and the membership clock.
pub struct Membership {
    members: Vec<MemberState>,
    intents: Vec<NodeIntent>,
    intent_capacity: usize,
    clock: LamportClock,
    events: Vec<MemberEvent>,
}

impl Membership {
    pub closed spec fn table(&self) -> Map<u64, MemberState> {
        seq_table(self.members@)
    }

    pub closed spec fn intents(&self) -> Seq<NodeIntent> {
        self.intents@
    }

    pub closed spec fn intent_capacity(&self) -> nat {
        self.intent_capacity as nat
    }

    pub closed spec fn clock(&self) -> u64 {
        self.clock.value()
    }

    /// Member events not yet handed out, oldest first.
    pub closed spec fn pending_events(&self) -> Seq<MemberEvent> {
        self.events@
    }

    pub open spec fn model(&self) -> MemberModel {
        (self.table(), self.intents(), self.clock(), self.pending_events())
    }

    pub closed spec fn wf(&self) -> bool {
        &&& unique_ids(self.members@)
        &&& unique_nodes(self.intents@)
        &&& self.intents@.len() <= self.intent_capacity
        &&& self.intent_capacity > 0
    }

    /// An empty table whose intent ring holds at most `intent_capacity` entries.
    pub fn new(intent_capacity: usize) -> (r: Membership)
        requires
            intent_capacity > 0,
        ensures
            r.wf(),
            r.table() == Map::<u64, MemberState>::empty(),
            r.intents() == Seq::<NodeIntent>::empty(),
            r.intent_capacity() == intent_capacity,
            r.clock() == 0,
            r.pending_events() == Seq::<MemberEvent>::empty(),
    {
        proof {
            lemma_table_empty();
        }
        let r = Membership {
            members: Vec::new(),
            intents: Vec::new(),
            intent_capacity,
            clock: LamportClock::new(),
            events: Vec::new(),
        };
        assert(r.members@ =~= Seq::<MemberState>::empty());
        r
    }

    /// The current membership time.
    pub fn time(&self) -> (r: LamportTime)
        ensures
            r.0 == self.clock(),
    {
        self.clock.time()
    }

    /// Moves the membership clock past a remote time `t`.
    pub fn witness(&mut self, t: LamportTime)
        requires
            old(self).wf(),
            t.0 < u64::MAX,
        ensures
            final(self).wf(),
            final(self).model() == (
                old(self).table(),
                old(self).intents(),
                witnessed(old(self).clock(), t.0),
                old(self).pending_events(),
            ),
            final(self).intent_capacity() == old(self).intent_capacity(),
    {
        self.clock.witness(t);
    }

    /// The number of records in the table.
    pub fn num_members(&self) -> (r: usize)
        requires
            self.wf(),
        ensures
            r == self.table().len(),
    {
        proof {
            lemma_len_of_table(self.members@);
        }
        self.members.len()
    }

    /// The number of intents held for nodes not in the table yet.
    pub fn intent_queue_len(&self) -> (r: usize)
        ensures
            r == self.intents().len(),
    {
        self.intents.len()
    }

    /// The record of `id`, if the table holds one.
    pub fn member(&self, id: u64) -> (r: Option<MemberState>)
        requires
            self.wf(),
        ensures
            r == (if self.table().contains_key(id) {
                Some(self.table()[id])
            } else {
                None
            }),
    {
        match find_member(&self.members, id) {
            Some(i) => Some(self.members[i]),
            None => None,
        }
    }

    /// Hands out the pending member events and clears them.
    pub fn take_events(&mut self) -> (r: Vec<MemberEvent>)
        ensures
            r@ == old(self).pending_events(),
            final(self).pending_events() == Seq::<MemberEvent>::empty(),
            final(self).table() == old(self).table(),
            final(self).intents() == old(self).intents(),
            final(self).intent_capacity() == old(self).intent_capacity(),
            final(self).clock() == old(self).clock(),
            final(self).wf() == old(self).wf(),
    {
        let mut r = Vec::new();
        r.append(&mut self.events);
        assert(r@ =~= old(self).events@);
        r
    }

    fn store_intent(&mut self, it: NodeIntent)
        requires
            old(self).wf(),
        ensures
            final(self).wf(),
            final(self).intents() == ring_after(
                old(self).intents(),
                old(self).intent_capacity(),
                it,
            ),
            final(self).members@ == old(self).members@,
            final(self).intent_capacity == old(self).intent_capacity,
            final(self).clock == old(self).clock,
            final(self).events@ == old(self).events@,
    {
        let ghost s = self.intents@;
        let mut i: usize = 0;
        while i < self.intents.len()
            invariant
                i <= self.intents.len(),
                self.intents@ == s,
                unique_nodes(s),
                unique_ids(self.members@),
                s.len() <= self.intent_capacity,
                self.intent_capacity > 0,
                self.members@ == old(self).members@,
                self.intent_capacity == old(self).intent_capacity,
                self.clock == old(self).clock,
                self.events@ == old(self).events@,
                s == old(self).intents@,
                forall|j: int| 0 <= j < i ==> #[trigger] s[j].node != it.node,
            decreases self.intents.len() - i,
        {
            if self.intents[i].node == it.node {
                proof {
                    assert(ring_has(s, it.node));
                    let c = ring_index(s, it.node);
                    assert(c == i as int);
                }
                if it.ltime.0 > self.intents[i].ltime.0 {
                    self.intents.set(i, it);
                    proof {
                        let t = self.intents@;
                        assert forall|a: int, b: int|
                            0 <= a < t.len() && 0 <= b < t.len() && a != b implies #[trigger] t[a].node
                            != #[trigger] t[b].node by {
                            assert(t[a].node == s[a].node && t[b].node == s[b].node);
                        }
                        assert(unique_nodes(t));
                        assert(t.len() == s.len());
                    }
                }
                return;
            }
            i = i + 1;
        }
        assert(!ring_has(s, it.node));
        if self.intents.len() >= self.intent_capacity {
            self.intents.remove(0);
            assert(self.intents@ == s.drop_first());
        }
        let ghost base = self.intents@;
        self.intents.push(it);
        proof {
            let t = self.intents@;
            assert forall|j: int| 0 <= j < base.len() implies #[trigger] base[j].node != it.node by {
                if s.len() >= self.intent_capacity {
                    assert(base[j] == s[j + 1]);
                } else {
                    assert(base[j] == s[j]);
                }
            }
            assert forall|a: int, b: int|
                0 <= a < t.len() && 0 <= b < t.len() && a != b implies #[trigger] t[a].node
                != #[trigger] t[b].node by {
                if a < base.len() && b < base.len() {
                    if s.len() >= self.intent_capacity {
                        assert(base[a] == s[a + 1] && base[b] == s[b + 1]);
                    }
                }
            }
        }
    }

    /// Handles a join or leave intent for `node` at `ltime` and says whether
    /// it is to be gossiped further.
    pub fn handle_intent(&mut self, kind: IntentType, node: u64, ltime: LamportTime, prune: bool) -> (r:
        bool)
        requires
            old(self).wf(),
            ltime.0 < u64::MAX,
        ensures
            final(self).wf(),
            final(self).clock() == witnessed(old(self).clock(), ltime.0),
            final(self).table() == table_after_intent(old(self).table(), kind, node, ltime.0, prune),
            final(self).intents() == (if old(self).table().contains_key(node) {
                old(self).intents()
            } else {
                ring_after(
                    old(self).intents(),
                    old(self).intent_capacity(),
                    NodeIntent { kind, node, ltime },
                )
            }),
            final(self).intent_capacity() == old(self).intent_capacity(),
            final(self).pending_events() == old(self).pending_events() + intent_events(
                old(self).table(),
                kind,
                node,
                ltime.0,
            ),
            r == intent_rebroadcast(old(self).table(), node, ltime.0),
            final(self).model() == intent_model_after(
                old(self).model(),
                old(self).intent_capacity(),
                kind,
                node,
                ltime.0,
                prune,
            ),
    {
        self.clock.witness(ltime);
        match find_member(&self.members, node) {
            None => {
                self.store_intent(NodeIntent { kind, node, ltime });
                assert(self.events@ =~= old(self).events@ + Seq::<MemberEvent>::empty());
                true
            },
            Some(i) => {
                let m = self.members[i];
                if ltime.0 <= m.status_ltime.0 {
                    assert(self.events@ =~= old(self).events@ + Seq::<MemberEvent>::empty());
                    return false;
                }
                let status = match kind {
                    IntentType::Join => match m.status {
                        MemberStatus::Leaving | MemberStatus::Left | MemberStatus::Failed => MemberStatus::Alive,
                        s => s,
                    },
                    IntentType::Leave => match m.status {
                        MemberStatus::Alive => MemberStatus::Leaving,
                        MemberStatus::Failed => MemberStatus::Left,
                        s => s,
                    },
                };
                if kind == IntentType::Leave && m.status == MemberStatus::Failed {
                    self.events.push(MemberEvent { ty: MemberEventType::Leave, node });
                    assert(self.events@ =~= old(self).events@ + intent_events(
                        old(self).table(),
                        kind,
                        node,
                        ltime.0,
                    ));
                } else {
                    assert(self.events@ =~= old(self).events@ + Seq::<MemberEvent>::empty());
                }
                if prune && kind == IntentType::Leave && status == MemberStatus::Left {
                    proof {
                        lemma_table_remove(self.members@, i as int);
                    }
                    self.members.remove(i);
                } else {
                    let updated = MemberState { status, status_ltime: ltime, ..m };
                    proof {
                        lemma_table_update(self.members@, i as int, updated);
                    }
                    self.members.set(i, updated);
                }
                true
            },
        }
    }

    /// Index of the intent held for `node`, if any.
    fn find_intent(&self, node: u64) -> (r: Option<usize>)
        requires
            self.wf(),
        ensures
            r is None <==> !ring_has(self.intents(), node),
            r matches Some(i) ==> i < self.intents@.len() && i == ring_index(self.intents(), node),
    {
        let mut i: usize = 0;
        while i < self.intents.len()
            invariant
                i <= self.intents.len(),
                unique_nodes(self.intents@),
                forall|j: int| 0 <= j < i ==> #[trigger] self.intents@[j].node != node,
            decreases self.intents.len() - i,
        {
            if self.intents[i].node == node {
                proof {
                    let c = ring_index(self.intents(), node);
                    assert(ring_has(self.intents(), node));
                    assert(c == i as int);
                }
                return Some(i);
            }
            i = i + 1;
        }
        None
    }

    /// The transport reports `node` alive: it becomes `Alive`, takes on any
    /// newer intent held for it, and a join event is emitted.
    pub fn handle_node_join(&mut self, node: u64)
        requires
            old(self).wf(),
        ensures
            final(self).wf(),
            final(self).table() == old(self).table().insert(
                node,
                with_held_intent(alive_base(old(self).table(), node), ring_find(old(self).intents(), node)),
            ),
            final(self).intents() == ring_without(old(self).intents(), node),
            final(self).pending_events() == old(self).pending_events().push(
                MemberEvent { ty: MemberEventType::Join, node },
            ),
            final(self).clock() == old(self).clock(),
            final(self).intent_capacity() == old(self).intent_capacity(),
    {
        let held = match self.find_intent(node) {
            Some(j) => {
                let it = self.intents[j];
                let ghost s = self.intents@;
                self.intents.remove(j);
                proof {
                    let t = self.intents@;
                    assert forall|a: int, b: int|
                        0 <= a < t.len() && 0 <= b < t.len() && a != b implies #[trigger] t[a].node
                        != #[trigger] t[b].node by {
                        let a2 = if a < j { a } else { a + 1 };
                        let b2 = if b < j { b } else { b + 1 };
                        assert(t[a] == s[a2] && t[b] == s[b2]);
                    }
                }
                Some(it)
            },
            None => None,
        };
        let found = find_member(&self.members, node);
        let base = match found {
            Some(i) => MemberState { status: MemberStatus::Alive, ..self.members[i] },
            None => MemberState {
                id: node,
                status: MemberStatus::Alive,
                status_ltime: LamportTime(0),
                leave_time: 0,
            },
        };
        let rec = match held {
            Some(it) => if it.ltime.0 > base.status_ltime.0 {
                MemberState {
                    status: if it.kind == IntentType::Leave {
                        MemberStatus::Leaving
                    } else {
                        base.status
                    },
                    status_ltime: it.ltime,
                    ..base
                }
            } else {
                base
            },
            None => base,
        };
        match found {
            Some(i) => {
                proof {
                    lemma_table_update(self.members@, i as int, rec);
                }
                self.members.set(i, rec);
            },
            None => {
                proof {
                    lemma_table_push(self.members@, rec);
                }
                self.members.push(rec);
            },
        }
        self.events.push(MemberEvent { ty: MemberEventType::Join, node });
    }

    /// The transport reports `node` gone at monotonic time `now`: a leaving
    /// node has left, a live one has failed.
    pub fn handle_node_leave(&mut self, node: u64, now: u64)
        requires
            old(self).wf(),
        ensures
            final(self).wf(),
            final(self).table() == (if goes(old(self).table(), node) {
                old(self).table().insert(node, gone_record(old(self).table()[node], now))
            } else {
                old(self).table()
            }),
            final(self).pending_events() == old(self).pending_events() + gone_events(
                old(self).table(),
                node,
            ),
            final(self).intents() == old(self).intents(),
            final(self).clock() == old(self).clock(),
            final(self).intent_capacity() == old(self).intent_capacity(),
    {
        match find_member(&self.members, node) {
            Some(i) => {
                let m = self.members[i];
                let ty = match m.status {
                    MemberStatus::Leaving => MemberEventType::Leave,
                    MemberStatus::Alive => MemberEventType::Failed,
                    _ => {
                        assert(self.events@ =~= old(self).events@ + Seq::<MemberEvent>::empty());
                        return;
                    },
                };
                let rec = MemberState {
                    status: if ty == MemberEventType::Leave {
                        MemberStatus::Left
                    } else {
                        MemberStatus::Failed
                    },
                    leave_time: now,
                    ..m
                };
                proof {
                    lemma_table_update(self.members@, i as int, rec);
                }
                self.members.set(i, rec);
                self.events.push(MemberEvent { ty, node });
                assert(self.events@ =~= old(self).events@ + gone_events(old(self).table(), node));
            },
            None => {
                assert(self.events@ =~= old(self).events@ + Seq::<MemberEvent>::empty());
            },
        }
    }

    /// Removes the failed and left records whose time since leaving is past
    /// `timeout` at `now`, emits a reap event for each and returns their ids.
    pub fn reap(&mut self, now: u64, timeout: u64) -> (r: Vec<u64>)
        requires
            old(self).wf(),
        ensures
            final(self).wf(),
            final(self).table() == reaped_table(old(self).table(), now, timeout),
            forall|id: u64|
                r@.contains(id) <==> old(self).table().contains_key(id) && reapable(
                    old(self).table()[id],
                    now,
                    timeout,
                ),
            final(self).pending_events() == old(self).pending_events() + reap_events(r@),
            final(self).intents() == old(self).intents(),
            final(self).clock() == old(self).clock(),
            final(self).intent_capacity() == old(self).intent_capacity(),
    {
        let ghost t0 = self.table();
        let mut reaped: Vec<u64> = Vec::new();
        let mut i: usize = 0;
        while i < self.members.len()
            invariant
                i <= self.members.len(),
                self.wf(),
                self.intents@ == old(self).intents@,
                self.intent_capacity == old(self).intent_capacity,
                self.clock == old(self).clock,
                t0 == seq_table(old(self).members@),
                self.events@ == old(self).events@ + reap_events(reaped@),
                forall|id: u64| #[trigger]
                    self.table().contains_key(id) ==> t0.contains_key(id) && self.table()[id]
                        == t0[id],
                forall|id: u64|
                    t0.contains_key(id) && !reapable(t0[id], now, timeout) ==> #[trigger] self.table().contains_key(id),
                forall|j: int| 0 <= j < i ==> !reapable(#[trigger] self.members@[j], now, timeout),
                forall|id: u64|
                    t0.contains_key(id) && reapable(t0[id], now, timeout) && #[trigger] self.table().contains_key(id) ==> exists|j: int|
                        i <= j < self.members@.len() && self.members@[j].id == id,
                forall|id: u64|
                    #[trigger] reaped@.contains(id) <==> (t0.contains_key(id) && reapable(t0[id], now, timeout)
                        && !self.table().contains_key(id)),
            decreases self.members.len() - i,
        {
            let m = self.members[i];
            proof {
                lemma_table_at(self.members@, i as int);
            }
            if (m.status == MemberStatus::Failed || m.status == MemberStatus::Left) && now >= m.leave_time
                && now - m.leave_time > timeout {
                let ghost before = self.members@;
                let ghost prev = reaped@;
                let ghost tb = self.table();
                proof {
                    lemma_table_remove(self.members@, i as int);
                }
                self.members.remove(i);
                reaped.push(m.id);
                self.events.push(MemberEvent { ty: MemberEventType::Reap, node: m.id });
                proof {
                    assert(reaped@ == prev.push(m.id));
                    assert(reap_events(reaped@) =~= reap_events(prev).push(
                        MemberEvent { ty: MemberEventType::Reap, node: m.id },
                    ));
                    assert(self.events@ =~= old(self).events@ + reap_events(reaped@));
                    assert(self.table() == tb.remove(m.id));
                    assert(tb[m.id] == m);
                    assert(t0[m.id] == m);
                    assert forall|id: u64|
                        t0.contains_key(id) && reapable(t0[id], now, timeout) && #[trigger] self.table().contains_key(id) implies exists|j: int|
                            i <= j < self.members@.len() && self.members@[j].id == id by {
                        assert(tb.contains_key(id));
                        assert(id != m.id);
                        let j = choose|j: int| i <= j < before.len() && before[j].id == id;
                        assert(j != i);
                        assert(self.members@[j - 1] == before[j]);
                    }
                    assert forall|j: int| 0 <= j < i implies !reapable(#[trigger] self.members@[j], now, timeout) by {
                        assert(self.members@[j] == before[j]);
                    }
                    assert forall|id: u64|
                        #[trigger] reaped@.contains(id) <==> (t0.contains_key(id) && reapable(t0[id], now, timeout)
                            && !self.table().contains_key(id)) by {
                        lemma_push_contains(prev, m.id, id);
                    }
                }
            } else {
                i = i + 1;
                proof {
                    assert forall|id: u64|
                        t0.contains_key(id) && reapable(t0[id], now, timeout) && #[trigger] self.table().contains_key(id) implies exists|j: int|
                            i <= j < self.members@.len() && self.members@[j].id == id by {
                        let j = choose|j: int| i - 1 <= j < self.members@.len() && self.members@[j].id == id;
                        if j == i - 1 {
                            lemma_table_at(self.members@, j);
                        }
                    }
                }
            }
        }
        proof {
            let t = self.table();
            let want = reaped_table(t0, now, timeout);
            assert forall|id: u64| t.contains_key(id) == want.contains_key(id) by {
                if t.contains_key(id) && reapable(t0[id], now, timeout) {
                    let j = choose|j: int| i <= j < self.members@.len() && self.members@[j].id == id;
                }
            }
            assert(t =~= want);
        }
        reaped
    }

    /// Ids of the records whose status is `status`.
    pub fn ids_with_status(&self, status: MemberStatus) -> (r: Vec<u64>)
        requires
            self.wf(),
        ensures
            forall|id: u64|
                r@.contains(id) <==> self.table().contains_key(id) && self.table()[id].status == status,
    {
        let mut r: Vec<u64> = Vec::new();
        let mut i: usize = 0;
        while i < self.members.len()
            invariant
                i <= self.members.len(),
                unique_ids(self.members@),
                forall|id: u64|
                    #[trigger] r@.contains(id) <==> exists|j: int|
                        0 <= j < i && self.members@[j].id == id && self.members@[j].status == status,
            decreases self.members.len() - i,
        {
            let m = self.members[i];
            if m.status == status {
                let ghost prev = r@;
                r.push(m.id);
                proof {
                    assert forall|id: u64|
                        #[trigger] r@.contains(id) <==> exists|j: int|
                            0 <= j < i + 1 && self.members@[j].id == id && self.members@[j].status == status by {
                        lemma_push_contains(prev, m.id, id);
                        if prev.contains(id) {
                            let j = choose|j: int|
                                0 <= j < i && self.members@[j].id == id && self.members@[j].status == status;
                            assert(0 <= j < i + 1);
                        }
                    }
                }
            }
            i = i + 1;
        }
        proof {
            assert forall|id: u64|
                r@.contains(id) <==> self.table().contains_key(id) && self.table()[id].status == status by {
                if r@.contains(id) {
                    let j = choose|j: int|
                        0 <= j < i && self.members@[j].id == id && self.members@[j].status == status;
                    lemma_table_at(self.members@, j);
                }
                if self.table().contains_key(id) && self.table()[id].status == status {
                    let j = choose|j: int| 0 <= j < self.members@.len() && self.members@[j].id == id;
                    lemma_table_at(self.members@, j);
                }
            }
        }
        r
    }

    /// Ids of the failed members.
    pub fn failed_members(&self) -> (r: Vec<u64>)
        requires
            self.wf(),
        ensures
            forall|id: u64|
                r@.contains(id) <==> self.table().contains_key(id) && self.table()[id].status
                    == MemberStatus::Failed,
    {
        self.ids_with_status(MemberStatus::Failed)
    }

    /// Ids of the members that have left.
    pub fn left_members(&self) -> (r: Vec<u64>)
        requires
            self.wf(),
        ensures
            forall|id: u64|
                r@.contains(id) <==> self.table().contains_key(id) && self.table()[id].status
                    == MemberStatus::Left,
    {
        self.ids_with_status(MemberStatus::Left)
    }

    /// The failed member at position `pick` of the failed members, counted
    /// round the list; none when no member has failed.
    pub fn failed_member_at(&self, pick: usize) -> (r: Option<u64>)
        requires
            self.wf(),
        ensures
            r is None <==> !(exists|id: u64|
                self.table().contains_key(id) && #[trigger] self.table()[id].status
                    == MemberStatus::Failed),
            r matches Some(id) ==> self.table().contains_key(id) && self.table()[id].status
                == MemberStatus::Failed,
    {
        let failed = self.failed_members();
        if failed.len() == 0 {
            proof {
                assert forall|id: u64|
                    self.table().contains_key(id) && #[trigger] self.table()[id].status
                        == MemberStatus::Failed implies false by {
                    assert(failed@.contains(id));
                }
            }
            return None;
        }
        let id = failed[pick % failed.len()];
        assert(failed@.contains(id));
        Some(id)
    }

    /// A failed member picked at random to try to reconnect to; none when no
    /// member has failed.
    pub fn reconnect_target(&self) -> (r: Option<u64>)
        requires
            self.wf(),
        ensures
            r is None <==> !(exists|id: u64|
                self.table().contains_key(id) && #[trigger] self.table()[id].status
                    == MemberStatus::Failed),
            r matches Some(id) ==> self.table().contains_key(id) && self.table()[id].status
                == MemberStatus::Failed,
    {
        let n = self.failed_members().len();
        let pick = if n > 0 {
            random_below(n)
        } else {
            0
        };
        self.failed_member_at(pick)
    }

    /// Every record of the table, one per node.
    pub fn members(&self) -> (r: Vec<MemberState>)
        requires
            self.wf(),
        ensures
            unique_ids(r@),
            seq_table(r@) == self.table(),
    {
        let mut r: Vec<MemberState> = Vec::new();
        let mut i: usize = 0;
        while i < self.members.len()
            invariant
                i <= self.members.len(),
                r@ == self.members@.take(i as int),
            decreases self.members.len() - i,
        {
            r.push(self.members[i]);
            i = i + 1;
            assert(r@ =~= self.members@.take(i as int));
        }
        assert(r@ =~= self.members@);
        r
    }
}

/// The record of a node that the transport reports gone, at `now`.
pub open spec fn gone_record(m: MemberState, now: u64) -> MemberState {
    MemberState { status: gone_status(m.status), leave_time: now, ..m }
}

/// Whether a gone report changes the record: only live or leaving nodes move.
pub open spec fn goes(t: Map<u64, MemberState>, node: u64) -> bool {
    t.contains_key(node) && (t[node].status == MemberStatus::Alive || t[node].status
        == MemberStatus::Leaving)
}

/// The member events of a gone report.
pub open spec fn gone_events(t: Map<u64, MemberState>, node: u64) -> Seq<MemberEvent> {
    if goes(t, node) {
        if t[node].status == MemberStatus::Leaving {
            seq![MemberEvent { ty: MemberEventType::Leave, node }]
        } else {
            seq![MemberEvent { ty: MemberEventType::Failed, node }]
        }
    } else {
        Seq::empty()
    }
}

/// The table without the records that are due for removal.
pub open spec fn reaped_table(t: Map<u64, MemberState>, now: u64, timeout: u64) -> Map<
    u64,
    MemberState,
> {
    t.restrict(t.dom().filter(|id: u64| !reapable(t[id], now, timeout)))
}

/// One reap event for each removed node, in order.
pub open spec fn reap_events(ids: Seq<u64>) -> Seq<MemberEvent> {
    ids.map_values(|id: u64| MemberEvent { ty: MemberEventType::Reap, node: id })
}

proof fn lemma_push_contains(s: Seq<u64>, x: u64, id: u64)
    ensures
        s.push(x).contains(id) <==> (s.contains(id) || id == x),
{
    if s.contains(id) {
        let k = choose|k: int| 0 <= k < s.len() && s[k] == id;
        assert(s.push(x)[k] == id);
    }
    if s.push(x).contains(id) && id != x {
        let k = choose|k: int| 0 <= k < s.push(x).len() && s.push(x)[k] == id;
        assert(s[k] == id);
    }
    assert(s.push(x)[s.len() as int] == x);
}

/// Relies on rand's `Rng::gen_range` on `thread_rng()`: a value drawn from
/// `0..n`; the range must not be empty, or it panics.
#[verifier::external_body]
fn random_below(n: usize) -> (r: usize)
    requires
        n > 0,
    ensures
        r < n,
{
    rand::Rng::gen_range(&mut rand::thread_rng(), 0..n)
}

/// The intent ring never holds more than its capacity, nor two intents for
/// one node.
pub proof fn lemma_intent_ring_bounded(m: &Membership)
    requires
        m.wf(),
    ensures
        m.intents().len() <= m.intent_capacity(),
        unique_nodes(m.intents()),
{
}

/// A table of unique records has as many keys as records.
pub proof fn lemma_len_of_table(s: Seq<MemberState>)
    requires
        unique_ids(s),
    ensures
        seq_table(s).dom().finite(),
        seq_table(s).len() == s.len(),
    decreases s.len(),
{
    if s.len() == 0 {
        lemma_table_empty();
        assert(s =~= Seq::<MemberState>::empty());
    } else {
        let p = s.drop_last();
        assert(unique_ids(p)) by {
            assert forall|a: int, b: int|
                0 <= a < p.len() && 0 <= b < p.len() && a != b implies #[trigger] p[a].id
                != #[trigger] p[b].id by {
                assert(p[a] == s[a] && p[b] == s[b]);
            }
        }
        lemma_len_of_table(p);
        assert(!crate::table::has_id(p, s.last().id)) by {
            if crate::table::has_id(p, s.last().id) {
                let j = choose|j: int| 0 <= j < p.len() && p[j].id == s.last().id;
                assert(s[j].id == s[s.len() - 1].id);
            }
        }
        lemma_table_push(p, s.last());
        assert(p.push(s.last()) =~= s);
    }
}

} // verus!

verus! {

/// Handling an intent a second time changes nothing: the table, the intent
/// ring and the clock stay as after the first time, no event is emitted, and
/// for a node still in the table the intent is not gossiped again.
pub proof fn lemma_intent_idempotent(
    t: Map<u64, MemberState>,
    s: Seq<NodeIntent>,
    cap: nat,
    clock: u64,
    kind: IntentType,
    node: u64,
    ltime: LamportTime,
    prune: bool,
)
    requires
        unique_nodes(s),
        s.len() <= cap,
        cap > 0,
        ltime.0 < u64::MAX,
    ensures
        ({
            let t1 = table_after_intent(t, kind, node, ltime.0, prune);
            let s1 = if t.contains_key(node) {
                s
            } else {
                ring_after(s, cap, NodeIntent { kind, node, ltime })
            };
            let s2 = if t1.contains_key(node) {
                s1
            } else {
                ring_after(s1, cap, NodeIntent { kind, node, ltime })
            };
            &&& table_after_intent(t1, kind, node, ltime.0, prune) == t1
            &&& intent_events(t1, kind, node, ltime.0) == Seq::<MemberEvent>::empty()
            &&& (t1.contains_key(node) ==> !intent_rebroadcast(t1, node, ltime.0))
            &&& (!t.contains_key(node) ==> s2 == s1)
            &&& witnessed(witnessed(clock, ltime.0), ltime.0) == witnessed(clock, ltime.0)
        }),
{
    let it = NodeIntent { kind, node, ltime };
    if !t.contains_key(node) {
        let s1 = ring_after(s, cap, it);
        assert(ring_has(s1, node)) by {
            if ring_has(s, node) {
                let i = ring_index(s, node);
                assert(s1[i].node == node);
            } else if s.len() < cap {
                assert(s1[s.len() as int] == it);
            } else {
                assert(s1[s1.len() - 1] == it);
            }
        }
        lemma_ring_after_unique(s, cap, it);
        let j = ring_index(s1, node);
        assert(s1[j].ltime.0 >= ltime.0) by {
            if ring_has(s, node) {
                let i = ring_index(s, node);
                if ltime.0 > s[i].ltime.0 {
                    assert(s1[i] == it);
                    assert(i == j);
                } else {
                    assert(s1 == s);
                }
            } else if s.len() < cap {
                assert(s1[s.len() as int] == it);
                assert(j == s.len() as int);
            } else {
                assert(s1[s1.len() - 1] == it);
                assert(j == s1.len() - 1);
            }
        }
    }
}

/// Storing an intent keeps the ring free of two intents for one node.
pub proof fn lemma_ring_after_unique(s: Seq<NodeIntent>, cap: nat, it: NodeIntent)
    requires
        unique_nodes(s),
        s.len() <= cap,
        cap > 0,
    ensures
        unique_nodes(ring_after(s, cap, it)),
{
    let t = ring_after(s, cap, it);
    if ring_has(s, it.node) {
        assert forall|a: int, b: int|
            0 <= a < t.len() && 0 <= b < t.len() && a != b implies #[trigger] t[a].node
            != #[trigger] t[b].node by {
            assert(t[a].node == s[a].node && t[b].node == s[b].node);
        }
    } else {
        let base = if s.len() < cap {
            s
        } else {
            s.drop_first()
        };
        assert(t == base.push(it));
        assert forall|a: int, b: int|
            0 <= a < t.len() && 0 <= b < t.len() && a != b implies #[trigger] t[a].node
            != #[trigger] t[b].node by {
            if s.len() >= cap {
                if a < base.len() {
                    assert(base[a] == s[a + 1]);
                }
                if b < base.len() {
                    assert(base[b] == s[b + 1]);
                }
            }
        }
    }
}

/// Intents for two different nodes give the same table in either order.
pub proof fn lemma_intents_commute(
    t: Map<u64, MemberState>,
    ka: IntentType,
    a: u64,
    la: u64,
    pa: bool,
    kb: IntentType,
    b: u64,
    lb: u64,
    pb: bool,
)
    requires
        a != b,
    ensures
        table_after_intent(table_after_intent(t, ka, a, la, pa), kb, b, lb, pb)
            == table_after_intent(table_after_intent(t, kb, b, lb, pb), ka, a, la, pa),
{
    let x = table_after_intent(table_after_intent(t, ka, a, la, pa), kb, b, lb, pb);
    let y = table_after_intent(table_after_intent(t, kb, b, lb, pb), ka, a, la, pa);
    assert(x =~= y);
}

/// A record after a sequence of intents (kind and Lamport time), in order.
pub open spec fn apply_all(m: MemberState, its: Seq<(IntentType, u64)>) -> MemberState
    decreases its.len(),
{
    if its.len() == 0 {
        m
    } else {
        apply_intent(apply_all(m, its.drop_last()), its.last().0, its.last().1)
    }
}

/// The statuses a record keeps to under intents alone once it is in them.
pub open spec fn settled(s: MemberStatus) -> bool {
    s == MemberStatus::Unknown || s == MemberStatus::Alive || s == MemberStatus::Leaving
}

proof fn lemma_apply_all_shape(m: MemberState, its: Seq<(IntentType, u64)>)
    requires
        settled(m.status),
    ensures
        ({
            let r = apply_all(m, its);
            &&& r.id == m.id
            &&& r.leave_time == m.leave_time
            &&& settled(r.status)
            &&& (r.status == MemberStatus::Unknown <==> m.status == MemberStatus::Unknown)
            &&& r.status_ltime.0 >= m.status_ltime.0
            &&& (r.status_ltime == m.status_ltime || exists|j: int|
                0 <= j < its.len() && r.status_ltime.0 == #[trigger] its[j].1)
        }),
    decreases its.len(),
{
    if its.len() > 0 {
        let p = its.drop_last();
        lemma_apply_all_shape(m, p);
        let r0 = apply_all(m, p);
        if r0.status_ltime != m.status_ltime {
            let j = choose|j: int| 0 <= j < p.len() && r0.status_ltime.0 == #[trigger] p[j].1;
            assert(its[j] == p[j]);
        }
        assert(its[its.len() - 1] == its.last());
    }
}

/// For a node in the table whose status is unknown, alive or leaving, the
/// intents it receives, each at its own Lamport time and none pruning, leave
/// the record as the newest one alone does, in whatever order they come; so
/// every order gives what processing them newest first gives.
pub proof fn lemma_intent_order(m: MemberState, its: Seq<(IntentType, u64)>, k: int)
    requires
        settled(m.status),
        0 <= k < its.len(),
        forall|j: int| 0 <= j < its.len() ==> #[trigger] its[j].1 <= its[k].1,
        forall|i: int, j: int|
            0 <= i < its.len() && 0 <= j < its.len() && i != j ==> #[trigger] its[i].1
                != #[trigger] its[j].1,
    ensures
        apply_all(m, its) == apply_intent(m, its[k].0, its[k].1),
    decreases its.len(),
{
    let p = its.drop_last();
    let n = its.len() - 1;
    assert(its.last() == its[n]);
    if k == n {
        lemma_apply_all_shape(m, p);
        let r0 = apply_all(m, p);
        if fresh(m, its[k].1) {
            if r0.status_ltime != m.status_ltime {
                let j = choose|j: int| 0 <= j < p.len() && r0.status_ltime.0 == #[trigger] p[j].1;
                assert(p[j] == its[j]);
                assert(its[j].1 != its[k].1);
            }
        } else {
            assert forall|j: int| 0 <= j < p.len() implies !fresh(m, #[trigger] p[j].1) by {
                assert(p[j] == its[j]);
            }
            lemma_apply_all_stale(m, p);
        }
    } else {
        assert forall|j: int| 0 <= j < p.len() implies #[trigger] p[j].1 <= p[k].1 by {
            assert(p[j] == its[j]);
        }
        assert forall|i: int, j: int|
            0 <= i < p.len() && 0 <= j < p.len() && i != j implies #[trigger] p[i].1
            != #[trigger] p[j].1 by {
            assert(p[i] == its[i] && p[j] == its[j]);
        }
        lemma_intent_order(m, p, k);
        assert(its[n].1 != its[k].1);
    }
}

proof fn lemma_apply_all_stale(m: MemberState, its: Seq<(IntentType, u64)>)
    requires
        forall|j: int| 0 <= j < its.len() ==> !fresh(m, #[trigger] its[j].1),
    ensures
        apply_all(m, its) == m,
    decreases its.len(),
{
    if its.len() > 0 {
        let p = its.drop_last();
        assert forall|j: int| 0 <= j < p.len() implies !fresh(m, #[trigger] p[j].1) by {
            assert(p[j] == its[j]);
        }
        lemma_apply_all_stale(m, p);
        assert(its[its.len() - 1] == its.last());
    }
}

} // verus!
