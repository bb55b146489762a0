//! The ring of recently seen queries, one bucket per Lamport time modulo its
//! size, used to drop repeated queries.
use vstd::prelude::*;

use crate::clock::{witnessed, LamportClock, LamportTime};
use crate::error::SerfError;

verus! {

/// The query ids seen at one Lamport time.
#[derive(Debug, Clone)]
pub struct QueryBucket {
    pub ltime: LamportTime,
    pub ids: Vec<u32>,
}

/// A slot of the ring, for comparison.
pub open spec fn qslot_view(o: Option<QueryBucket>) -> Option<(u64, Seq<u32>)> {
    match o {
        Some(b) => Some((b.ltime.0, b.ids@)),
        None => None,
    }
}

/// Whether the slot records query `id` at `ltime`.
pub open spec fn seen(slot: Option<(u64, Seq<u32>)>, ltime: u64, id: u32) -> bool {
    match slot {
        Some(b) => b.0 == ltime && b.1.contains(id),
        None => false,
    }
}

/// Whether a query is new: not older than the minimum time and not seen.
pub open spec fn query_kept(ring: Seq<Option<(u64, Seq<u32>)>>, min_time: u64, ltime: u64, id: u32) -> bool {
    ltime >= min_time && !seen(ring[(ltime as int) % (ring.len() as int)], ltime, id)
}

/// The ring after a query is received.
pub open spec fn ring_after_query(ring: Seq<Option<(u64, Seq<u32>)>>, min_time: u64, ltime: u64, id: u32) -> Seq<
    Option<(u64, Seq<u32>)>,
> {
    if query_kept(ring, min_time, ltime, id) {
        let i = (ltime as int) % (ring.len() as int);
        let slot = match ring[i] {
            Some(b) => if b.0 == ltime {
                Some((ltime, b.1.push(id)))
            } else {
                Some((ltime, seq![id]))
            },
            None => Some((ltime, seq![id])),
        };
        ring.update(i, slot)
    } else {
        ring
    }
}

/// The seen-query ring, the query clock and the oldest time still accepted.
pub struct QueryBuffer {
    ring: Vec<Option<QueryBucket>>,
    min_time: u64,
    clock: LamportClock,
}

fn nodes_contain(ids: &Vec<u64>, id: u64) -> (r: bool)
    ensures
        r == ids@.contains(id),
{
    let mut k: usize = 0;
    while k < ids.len()
        invariant
            k <= ids.len(),
            forall|j: int| 0 <= j < k ==> ids@[j] != id,
        decreases ids.len() - k,
    {
        if ids[k] == id {
            assert(ids@[k as int] == id);
            return true;
        }
        k = k + 1;
    }
    false
}

/// Whether a reply to query `id` at `ltime` from `from` is taken: it names
/// this query, arrives by the deadline, and `from` has not replied in kind.
pub open spec fn reply_taken(
    id: u32,
    ltime: u64,
    deadline: u64,
    seen: Seq<u64>,
    resp_id: u32,
    resp_ltime: u64,
    from: u64,
    now: u64,
) -> bool {
    resp_id == id && resp_ltime == ltime && now <= deadline && !seen.contains(from)
}

/// A query sent from this node, with the nodes that acknowledged it and the
/// nodes that responded.
pub struct ActiveQuery {
    pub id: u32,
    pub ltime: LamportTime,
    /// Monotonic time after which acks and responses are refused.
    pub deadline: u64,
    pub acks: Vec<u64>,
    pub responses: Vec<u64>,
}

impl ActiveQuery {
    pub open spec fn acks(&self) -> Seq<u64> {
        self.acks@
    }

    pub open spec fn responses(&self) -> Seq<u64> {
        self.responses@
    }

    /// A query with no acks nor responses yet.
    pub fn new(id: u32, ltime: LamportTime, deadline: u64) -> (r: ActiveQuery)
        ensures
            r.id == id,
            r.ltime == ltime,
            r.deadline == deadline,
            r.acks() == Seq::<u64>::empty(),
            r.responses() == Seq::<u64>::empty(),
    {
        ActiveQuery { id, ltime, deadline, acks: Vec::new(), responses: Vec::new() }
    }

    /// The nodes that acknowledged the query, in order of arrival.
    pub fn ack_nodes(&self) -> (r: &Vec<u64>)
        ensures
            r@ == self.acks(),
    {
        &self.acks
    }

    /// The nodes that responded to the query, in order of arrival.
    pub fn response_nodes(&self) -> (r: &Vec<u64>)
        ensures
            r@ == self.responses(),
    {
        &self.responses
    }

    /// Takes an ack (`ack`) or a response from `from` at `now`: it is taken
    /// and recorded when it names this query, comes by the deadline, and is
    /// the first of its kind from that node. Returns whether it is to be
    /// surfaced.
    pub fn handle_response(&mut self, resp_id: u32, resp_ltime: LamportTime, from: u64, ack: bool, now: u64) -> (r: bool)
        ensures
            final(self).id == old(self).id,
            final(self).ltime == old(self).ltime,
            final(self).deadline == old(self).deadline,
            r == reply_taken(
                old(self).id,
                old(self).ltime.0,
                old(self).deadline,
                if ack {
                    old(self).acks()
                } else {
                    old(self).responses()
                },
                resp_id,
                resp_ltime.0,
                from,
                now,
            ),
            final(self).acks() == if r && ack {
                old(self).acks().push(from)
            } else {
                old(self).acks()
            },
            final(self).responses() == if r && !ack {
                old(self).responses().push(from)
            } else {
                old(self).responses()
            },
    {
        if resp_id != self.id || resp_ltime.0 != self.ltime.0 || now > self.deadline {
            return false;
        }
        if ack {
            if nodes_contain(&self.acks, from) {
                return false;
            }
            self.acks.push(from);
        } else {
            if nodes_contain(&self.responses, from) {
                return false;
            }
            self.responses.push(from);
        }
        true
    }
}

/// The answering side of a received query: it may respond once, by the
/// deadline, within the size limit.
pub struct QueryResponder {
    /// Monotonic time after which responses are refused.
    deadline: u64,
    responded: bool,
}

/// The outcome of a response attempt of `len` bytes at `now`.
pub open spec fn respond_outcome(responded: bool, deadline: u64, now: u64, len: usize, limit: usize) -> Result<
    (),
    SerfError,
> {
    if responded {
        Err(SerfError::QueryAlreadyResponsed)
    } else if now > deadline {
        Err(SerfError::QueryTimeout)
    } else if len > limit {
        Err(SerfError::QueryResponseTooLarge { limit, got: len })
    } else {
        Ok(())
    }
}

impl QueryResponder {
    pub closed spec fn responded(&self) -> bool {
        self.responded
    }

    pub closed spec fn deadline(&self) -> u64 {
        self.deadline
    }

    /// A responder that has not responded yet.
    pub fn new(deadline: u64) -> (r: QueryResponder)
        ensures
            r.deadline() == deadline,
            !r.responded(),
    {
        QueryResponder { deadline, responded: false }
    }

    /// Asks to send a response of `len` encoded bytes at `now` under the size
    /// limit `limit`. A second response, a late one or one too large is
    /// refused; once one is allowed, every later one is refused.
    pub fn respond(&mut self, now: u64, len: usize, limit: usize) -> (r: Result<(), SerfError>)
        ensures
            r == respond_outcome(old(self).responded(), old(self).deadline(), now, len, limit),
            final(self).deadline() == old(self).deadline(),
            final(self).responded() == (old(self).responded() || r is Ok),
    {
        if self.responded {
            return Err(SerfError::QueryAlreadyResponsed);
        }
        if now > self.deadline {
            return Err(SerfError::QueryTimeout);
        }
        if len > limit {
            return Err(SerfError::QueryResponseTooLarge { limit, got: len });
        }
        self.responded = true;
        Ok(())
    }
}

fn ids_contain(ids: &Vec<u32>, id: u32) -> (r: bool)
    ensures
        r == ids@.contains(id),
{
    let mut k: usize = 0;
    while k < ids.len()
        invariant
            k <= ids.len(),
            forall|j: int| 0 <= j < k ==> ids@[j] != id,
        decreases ids.len() - k,
    {
        if ids[k] == id {
            return true;
        }
        k = k + 1;
    }
    false
}

impl QueryBuffer {
    pub closed spec fn ring(&self) -> Seq<Option<(u64, Seq<u32>)>> {
        self.ring@.map_values(|o: Option<QueryBucket>| qslot_view(o))
    }

    pub closed spec fn min_time(&self) -> u64 {
        self.min_time
    }

    pub closed spec fn clock(&self) -> u64 {
        self.clock.value()
    }

    pub closed spec fn wf(&self) -> bool {
        self.ring@.len() > 0
    }

    /// An empty ring of `size` slots, with clock and minimum time at zero.
    pub fn new(size: usize) -> (r: QueryBuffer)
        requires
            size > 0,
        ensures
            r.wf(),
            r.ring() == Seq::new(size as nat, |i: int| None::<(u64, Seq<u32>)>),
            r.min_time() == 0,
            r.clock() == 0,
    {
        let mut ring: Vec<Option<QueryBucket>> = Vec::new();
        let mut i: usize = 0;
        while i < size
            invariant
                i <= size,
                ring@.len() == i,
                forall|j: int| 0 <= j < i ==> #[trigger] ring@[j] is None,
            decreases size - i,
        {
            ring.push(None);
            i = i + 1;
        }
        let r = QueryBuffer { ring, min_time: 0, clock: LamportClock::new() };
        assert(r.ring() =~= Seq::new(size as nat, |i: int| None::<(u64, Seq<u32>)>));
        r
    }

    /// The number of slots.
    pub fn size(&self) -> (r: usize)
        ensures
            r == self.ring().len(),
    {
        self.ring.len()
    }

    /// The current query time.
    pub fn time(&self) -> (r: LamportTime)
        ensures
            r.0 == self.clock(),
    {
        self.clock.time()
    }

    /// Raises the oldest accepted time to `t`; a lower `t` changes nothing.
    pub fn raise_min_time(&mut self, t: LamportTime)
        requires
            old(self).wf(),
        ensures
            final(self).wf(),
            final(self).min_time() == if t.0 > old(self).min_time() {
                t.0
            } else {
                old(self).min_time()
            },
            final(self).ring() == old(self).ring(),
            final(self).clock() == old(self).clock(),
    {
        if t.0 > self.min_time {
            self.min_time = t.0;
        }
    }

    /// Moves the clock past a remote time `t`.
    pub fn witness(&mut self, t: LamportTime)
        requires
            old(self).wf(),
            t.0 < u64::MAX,
        ensures
            final(self).wf(),
            final(self).clock() == witnessed(old(self).clock(), t.0),
            final(self).ring() == old(self).ring(),
            final(self).min_time() == old(self).min_time(),
    {
        self.clock.witness(t);
    }

    /// Advances the clock for a query sent from here and returns its time.
    pub fn next_time(&mut self) -> (r: LamportTime)
        requires
            old(self).clock() < u64::MAX,
        ensures
            final(self).clock() == old(self).clock() + 1,
            r.0 == final(self).clock(),
            final(self).ring() == old(self).ring(),
            final(self).min_time() == old(self).min_time(),
            final(self).wf() == old(self).wf(),
    {
        self.clock.increment()
    }

    /// Receives query `id` at `ltime`: the clock witnesses the time, and the
    /// query is recorded unless it is older than the minimum time or was seen
    /// before. Returns whether it is new, and so is to be handled.
    pub fn handle_query(&mut self, ltime: LamportTime, id: u32) -> (r: bool)
        requires
            old(self).wf(),
            ltime.0 < u64::MAX,
        ensures
            final(self).wf(),
            final(self).clock() == witnessed(old(self).clock(), ltime.0),
            r == query_kept(old(self).ring(), old(self).min_time(), ltime.0, id),
            final(self).ring() == ring_after_query(old(self).ring(), old(self).min_time(), ltime.0, id),
            final(self).min_time() == old(self).min_time(),
    {
        self.clock.witness(ltime);
        if ltime.0 < self.min_time {
            return false;
        }
        let size = self.ring.len() as u64;
        let idx = (ltime.0 % size) as usize;
        let ghost rv = self.ring();
        let ghost ring0 = self.ring@;
        assert(rv[idx as int] == qslot_view(ring0[idx as int]));
        let taken = self.ring.remove(idx);
        assert(taken == ring0[idx as int]);
        let bucket = match taken {
            Some(b0) => if b0.ltime.0 == ltime.0 {
                if ids_contain(&b0.ids, id) {
                    self.ring.insert(idx, Some(b0));
                    assert(self.ring@ =~= ring0);
                    return false;
                }
                let mut b = b0;
                b.ids.push(id);
                b
            } else {
                let mut ids: Vec<u32> = Vec::new();
                ids.push(id);
                QueryBucket { ltime, ids }
            },
            None => {
                let mut ids: Vec<u32> = Vec::new();
                ids.push(id);
                QueryBucket { ltime, ids }
            },
        };
        self.ring.insert(idx, Some(bucket));
        assert(self.ring@ =~= ring0.update(idx as int, Some(bucket)));
        assert(self.ring() =~= ring_after_query(rv, self.min_time, ltime.0, id));
        true
    }
}

} // verus!

verus! {

/// The same reply twice is taken once at most: after it is taken, the same
/// node's reply of the same kind is refused.
pub proof fn lemma_reply_taken_once(
    id: u32,
    ltime: u64,
    deadline: u64,
    seen: Seq<u64>,
    resp_id: u32,
    resp_ltime: u64,
    from: u64,
    now: u64,
)
    requires
        reply_taken(id, ltime, deadline, seen, resp_id, resp_ltime, from, now),
    ensures
        !reply_taken(id, ltime, deadline, seen.push(from), resp_id, resp_ltime, from, now),
{
    assert(seen.push(from)[seen.len() as int] == from);
}

/// Once a response is allowed, every later one is refused as already sent.
pub proof fn lemma_respond_once(deadline: u64, now: u64, len: usize, limit: usize)
    ensures
        respond_outcome(true, deadline, now, len, limit) == Err::<(), SerfError>(
            SerfError::QueryAlreadyResponsed,
        ),
{
}

/// Receiving a query a second time changes nothing: the clock and the ring
/// stay as after the first time, and the repeat is not handled.
pub proof fn lemma_query_idempotent(
    ring: Seq<Option<(u64, Seq<u32>)>>,
    min_time: u64,
    clock: u64,
    ltime: u64,
    id: u32,
)
    requires
        ring.len() > 0,
        ltime < u64::MAX,
    ensures
        ({
            let r1 = ring_after_query(ring, min_time, ltime, id);
            &&& witnessed(witnessed(clock, ltime), ltime) == witnessed(clock, ltime)
            &&& !query_kept(r1, min_time, ltime, id)
            &&& ring_after_query(r1, min_time, ltime, id) == r1
            &&& r1.len() == ring.len()
        }),
{
    let i = (ltime as int) % (ring.len() as int);
    if query_kept(ring, min_time, ltime, id) {
        match ring[i] {
            Some(b) => {
                if b.0 == ltime {
                    assert(b.1.push(id)[b.1.len() as int] == id);
                } else {
                    assert(seq![id][0] == id);
                }
            },
            None => {
                assert(seq![id][0] == id);
            },
        }
    }
}

} // verus!
