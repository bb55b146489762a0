//! The user event buffer: one bucket per Lamport time modulo its size, with
//! de-duplication of repeated events.
use vstd::prelude::*;

use crate::clock::{witnessed, LamportClock, LamportTime};
use crate::message::{BucketView, EventView, UserEvent, UserEventMessage, UserEvents};

verus! {

/// A slot of the buffer, for comparison.
pub open spec fn slot_view(o: Option<UserEvents>) -> Option<BucketView> {
    match o {
        Some(b) => Some(b@),
        None => None,
    }
}

/// Whether the slot already holds this event at this time.
pub open spec fn is_dup(slot: Option<BucketView>, ltime: u64, ev: EventView) -> bool {
    match slot {
        Some(b) => b.0 == ltime && b.1.contains(ev),
        None => false,
    }
}

/// Whether an event at `ltime` is kept, given the clock after witnessing it.
pub open spec fn event_kept(
    buf: Seq<Option<BucketView>>,
    min_time: u64,
    clock_after: u64,
    ltime: u64,
    ev: EventView,
) -> bool {
    &&& ltime >= min_time
    &&& ltime + buf.len() > clock_after
    &&& !is_dup(buf[(ltime as int) % (buf.len() as int)], ltime, ev)
}

/// The slot after an event is added: a bucket of another time is replaced.
pub open spec fn slot_after(slot: Option<BucketView>, ltime: u64, ev: EventView) -> Option<
    BucketView,
> {
    match slot {
        Some(b) => if b.0 == ltime {
            Some((ltime, b.1.push(ev)))
        } else {
            Some((ltime, seq![ev]))
        },
        None => Some((ltime, seq![ev])),
    }
}

/// The buffer after an event is received.
pub open spec fn buffer_after(
    buf: Seq<Option<BucketView>>,
    min_time: u64,
    clock_after: u64,
    ltime: u64,
    ev: EventView,
) -> Seq<Option<BucketView>> {
    if event_kept(buf, min_time, clock_after, ltime, ev) {
        let i = (ltime as int) % (buf.len() as int);
        buf.update(i, slot_after(buf[i], ltime, ev))
    } else {
        buf
    }
}

/// Byte sequences compared one by one.
pub fn bytes_eq(a: &Vec<u8>, b: &Vec<u8>) -> (r: bool)
    ensures
        r == (a@ == b@),
{
    if a.len() != b.len() {
        return false;
    }
    let mut i: usize = 0;
    while i < a.len()
        invariant
            i <= a.len(),
            a.len() == b.len(),
            forall|j: int| 0 <= j < i ==> a@[j] == b@[j],
        decreases a.len() - i,
    {
        if a[i] != b[i] {
            return false;
        }
        i = i + 1;
    }
    assert(a@ =~= b@);
    true
}

/// A copy of a byte vector.
pub fn bytes_copy(a: &Vec<u8>) -> (r: Vec<u8>)
    ensures
        r@ == a@,
{
    let mut r: Vec<u8> = Vec::new();
    let mut i: usize = 0;
    while i < a.len()
        invariant
            i <= a.len(),
            r@ == a@.take(i as int),
        decreases a.len() - i,
    {
        r.push(a[i]);
        i = i + 1;
        assert(r@ =~= a@.take(i as int));
    }
    assert(a@.take(a.len() as int) =~= a@);
    r
}

/// Whether an event has the given name and payload.
pub fn event_matches(e: &UserEvent, name: &String, payload: &Vec<u8>) -> (r: bool)
    ensures
        r == (e@ == (name@, payload@)),
{
    let same_name = e.name == *name;
    if !same_name {
        return false;
    }
    bytes_eq(&e.payload, payload)
}

/// Whether a bucket holds an event with the given name and payload.
pub fn bucket_has(b: &UserEvents, name: &String, payload: &Vec<u8>) -> (r: bool)
    ensures
        r == b@.1.contains((name@, payload@)),
{
    let ghost ev: EventView = (name@, payload@);
    let ghost evs = b@.1;
    let mut k: usize = 0;
    while k < b.events.len()
        invariant
            k <= b.events.len(),
            evs == b@.1,
            ev == (name@, payload@),
            forall|j: int| 0 <= j < k ==> (#[trigger] b.events@[j])@ != ev,
        decreases b.events.len() - k,
    {
        if event_matches(&b.events[k], name, payload) {
            assert(evs[k as int] == ev);
            return true;
        }
        k = k + 1;
    }
    assert forall|j: int| 0 <= j < evs.len() implies evs[j] != ev by {
        assert(evs[j] == b.events@[j]@);
    }
    false
}

/// A copy of an event.
pub fn event_copy(e: &UserEvent) -> (r: UserEvent)
    ensures
        r@ == e@,
{
    UserEvent { name: e.name.clone(), payload: bytes_copy(&e.payload) }
}

/// What an event buffer holds that events change: its slots and its clock.
pub type EventModel = (Seq<Option<BucketView>>, u64);

/// An event at `ltime` received by a buffer whose minimum time is `min_time`;
/// an event at the largest time, which no clock can witness, is passed over.
pub open spec fn event_model_step(s: EventModel, min_time: u64, ltime: u64, ev: EventView) -> EventModel {
    if ltime == u64::MAX {
        s
    } else {
        let c1 = witnessed(s.1, ltime);
        (buffer_after(s.0, min_time, c1, ltime, ev), c1)
    }
}

/// The events of one bucket received in order.
pub open spec fn events_fold(s: EventModel, min_time: u64, ltime: u64, evs: Seq<EventView>) -> EventModel
    decreases evs.len(),
{
    if evs.len() == 0 {
        s
    } else {
        event_model_step(events_fold(s, min_time, ltime, evs.drop_last()), min_time, ltime, evs.last())
    }
}

/// The events of a sequence of buckets received in order.
pub open spec fn buckets_fold(s: EventModel, min_time: u64, bs: Seq<Option<BucketView>>) -> EventModel
    decreases bs.len(),
{
    if bs.len() == 0 {
        s
    } else {
        let p = buckets_fold(s, min_time, bs.drop_last());
        match bs.last() {
            Some(b) => events_fold(p, min_time, b.0, b.1),
            None => p,
        }
    }
}

/// Whether event `i` of `evs` is the latest of its name: no event of that
/// name is newer, nor as new and received later.
pub open spec fn latest_of_name(evs: Seq<UserEventMessage>, i: int) -> bool {
    forall|j: int|
        0 <= j < evs.len() && #[trigger] evs[j].name@ == evs[i].name@ ==> evs[j].ltime.0
            < evs[i].ltime.0 || (evs[j].ltime.0 == evs[i].ltime.0 && j <= i)
}

/// The events among the first `k` of `evs` that are the latest of their
/// name, in the order received, as (time, name, payload).
pub open spec fn coalesced(evs: Seq<UserEventMessage>, k: int) -> Seq<(u64, Seq<char>, Seq<u8>)>
    decreases k,
{
    if k <= 0 {
        Seq::empty()
    } else {
        let p = coalesced(evs, k - 1);
        if latest_of_name(evs, k - 1) {
            p.push((evs[k - 1].ltime.0, evs[k - 1].name@, evs[k - 1].payload@))
        } else {
            p
        }
    }
}

fn is_latest_of_name(evs: &Vec<UserEventMessage>, i: usize) -> (r: bool)
    requires
        i < evs.len(),
    ensures
        r == latest_of_name(evs@, i as int),
{
    let mut j: usize = 0;
    while j < evs.len()
        invariant
            i < evs.len(),
            j <= evs.len(),
            forall|k: int|
                0 <= k < j && #[trigger] evs@[k].name@ == evs@[i as int].name@ ==> evs@[k].ltime.0
                    < evs@[i as int].ltime.0 || (evs@[k].ltime.0 == evs@[i as int].ltime.0 && k
                    <= i),
        decreases evs.len() - j,
    {
        if evs[j].name == evs[i].name {
            if evs[j].ltime.0 > evs[i].ltime.0 || (evs[j].ltime.0 == evs[i].ltime.0 && j > i) {
                return false;
            }
        }
        j = j + 1;
    }
    true
}

/// Collapses a window of received user events: of each name only the latest
/// event is kept, in the order received.
pub fn coalesce_user_events(evs: &Vec<UserEventMessage>) -> (r: Vec<UserEventMessage>)
    ensures
        r@.map_values(|e: UserEventMessage| (e.ltime.0, e.name@, e.payload@)) == coalesced(
            evs@,
            evs@.len() as int,
        ),
{
    let mut r: Vec<UserEventMessage> = Vec::new();
    let mut i: usize = 0;
    while i < evs.len()
        invariant
            i <= evs.len(),
            r@.map_values(|e: UserEventMessage| (e.ltime.0, e.name@, e.payload@)) == coalesced(
                evs@,
                i as int,
            ),
        decreases evs.len() - i,
    {
        if is_latest_of_name(evs, i) {
            let e = UserEventMessage {
                ltime: evs[i].ltime,
                name: evs[i].name.clone(),
                payload: bytes_copy(&evs[i].payload),
                cc: evs[i].cc,
            };
            let ghost before = r@;
            r.push(e);
            assert(r@.map_values(|e: UserEventMessage| (e.ltime.0, e.name@, e.payload@)) =~= before.map_values(
                |e: UserEventMessage| (e.ltime.0, e.name@, e.payload@),
            ).push((evs@[i as int].ltime.0, evs@[i as int].name@, evs@[i as int].payload@)));
        }
        i = i + 1;
    }
    r
}

/// Coalescing keeps one event of each name: no two events it keeps share a
/// name.
pub proof fn lemma_coalesced_names_unique(evs: Seq<UserEventMessage>, i: int, j: int)
    requires
        0 <= i < evs.len(),
        0 <= j < evs.len(),
        i != j,
        latest_of_name(evs, i),
        latest_of_name(evs, j),
    ensures
        evs[i].name@ != evs[j].name@,
{
    if evs[i].name@ == evs[j].name@ {
        assert(evs[j].name@ == evs[i].name@);
        assert(evs[j].ltime.0 < evs[i].ltime.0 || (evs[j].ltime.0 == evs[i].ltime.0 && j <= i));
        assert(evs[i].ltime.0 < evs[j].ltime.0 || (evs[i].ltime.0 == evs[j].ltime.0 && i <= j));
    }
}

/// The event buffer, the event clock and the oldest time still accepted.
pub struct EventBuffer {
    buffer: Vec<Option<UserEvents>>,
    min_time: u64,
    clock: LamportClock,
}

impl EventBuffer {
    pub closed spec fn buffer(&self) -> Seq<Option<BucketView>> {
        self.buffer@.map_values(|o: Option<UserEvents>| slot_view(o))
    }

    pub closed spec fn min_time(&self) -> u64 {
        self.min_time
    }

    pub closed spec fn clock(&self) -> u64 {
        self.clock.value()
    }

    pub open spec fn model(&self) -> EventModel {
        (self.buffer(), self.clock())
    }

    /// Every bucket sits in the slot of its time and is older than the clock.
    pub closed spec fn wf(&self) -> bool {
        &&& self.buffer@.len() > 0
        &&& forall|i: int|
            0 <= i < self.buffer@.len() ==> match #[trigger] self.buffer@[i] {
                Some(b) => b.ltime.0 < self.clock.value() && (b.ltime.0 as int) % (self.buffer@.len() as int)
                    == i,
                None => true,
            }
    }

    /// An empty buffer of `size` slots, with clock and minimum time at zero.
    pub fn new(size: usize) -> (r: EventBuffer)
        requires
            size > 0,
        ensures
            r.wf(),
            r.buffer() == Seq::new(size as nat, |i: int| None::<BucketView>),
            r.min_time() == 0,
            r.clock() == 0,
    {
        let mut buffer: Vec<Option<UserEvents>> = Vec::new();
        let mut i: usize = 0;
        while i < size
            invariant
                i <= size,
                buffer@.len() == i,
                forall|j: int| 0 <= j < i ==> #[trigger] buffer@[j] is None,
            decreases size - i,
        {
            buffer.push(None);
            i = i + 1;
        }
        let r = EventBuffer { buffer, min_time: 0, clock: LamportClock::new() };
        assert(r.buffer() =~= Seq::new(size as nat, |i: int| None::<BucketView>));
        r
    }

    /// The number of slots.
    pub fn size(&self) -> (r: usize)
        ensures
            r == self.buffer().len(),
    {
        self.buffer.len()
    }

    /// The current event time.
    pub fn time(&self) -> (r: LamportTime)
        ensures
            r.0 == self.clock(),
    {
        self.clock.time()
    }

    /// The oldest event time still accepted.
    pub fn min_time_value(&self) -> (r: LamportTime)
        ensures
            r.0 == self.min_time(),
    {
        LamportTime(self.min_time)
    }

    /// Raises the oldest accepted time to `t`; a lower `t` changes nothing.
    pub fn raise_min_time(&mut self, t: LamportTime)
        requires
            old(self).wf(),
        ensures
            final(self).wf(),
            final(self).min_time() == if t.0 > old(self).min_time() {
                t.0
            } else {
                old(self).min_time()
            },
            final(self).buffer() == old(self).buffer(),
            final(self).clock() == old(self).clock(),
    {
        if t.0 > self.min_time {
            self.min_time = t.0;
        }
    }

    /// Moves the clock past a remote time `t`.
    pub fn witness(&mut self, t: LamportTime)
        requires
            old(self).wf(),
            t.0 < u64::MAX,
        ensures
            final(self).wf(),
            final(self).clock() == witnessed(old(self).clock(), t.0),
            final(self).buffer() == old(self).buffer(),
            final(self).min_time() == old(self).min_time(),
    {
        self.clock.witness(t);
    }

    /// A copy of the buckets, slot by slot.
    pub fn buckets(&self) -> (r: Vec<Option<UserEvents>>)
        ensures
            r@.map_values(|o: Option<UserEvents>| slot_view(o)) == self.buffer(),
    {
        let mut r: Vec<Option<UserEvents>> = Vec::new();
        let mut i: usize = 0;
        while i < self.buffer.len()
            invariant
                i <= self.buffer.len(),
                r@.len() == i,
                forall|j: int| 0 <= j < i ==> slot_view(#[trigger] r@[j]) == slot_view(self.buffer@[j]),
            decreases self.buffer.len() - i,
        {
            let slot = match &self.buffer[i] {
                Some(b) => {
                    let mut evs: Vec<UserEvent> = Vec::new();
                    let mut k: usize = 0;
                    while k < b.events.len()
                        invariant
                            k <= b.events.len(),
                            evs@.map_values(|e: UserEvent| e@) == b.events@.take(k as int).map_values(|e: UserEvent| e@),
                        decreases b.events.len() - k,
                    {
                        let ghost before = evs@;
                        let c = event_copy(&b.events[k]);
                        evs.push(c);
                        assert(evs@.map_values(|e: UserEvent| e@) =~= before.map_values(|e: UserEvent| e@).push(c@));
                        assert(b.events@.take(k + 1).map_values(|e: UserEvent| e@) =~= b.events@.take(k as int).map_values(|e: UserEvent| e@).push(b.events@[k as int]@));
                        k = k + 1;
                    }
                    assert(b.events@.take(b.events.len() as int) =~= b.events@);
                    Some(UserEvents { ltime: b.ltime, events: evs })
                },
                None => None,
            };
            r.push(slot);
            i = i + 1;
        }
        assert(r@.map_values(|o: Option<UserEvents>| slot_view(o)) =~= self.buffer());
        r
    }

    /// Receives every event of a bucket, in order, as if freshly gossiped.
    pub fn handle_bucket(&mut self, b: &UserEvents)
        requires
            old(self).wf(),
        ensures
            final(self).wf(),
            final(self).model() == events_fold(old(self).model(), old(self).min_time(), b.ltime.0, b@.1),
            final(self).min_time() == old(self).min_time(),
    {
        let mut k: usize = 0;
        while k < b.events.len()
            invariant
                k <= b.events.len(),
                self.wf(),
                self.min_time() == old(self).min_time(),
                self.model() == events_fold(old(self).model(), old(self).min_time(), b.ltime.0, b@.1.take(k as int)),
            decreases b.events.len() - k,
        {
            let ghost before = self.model();
            let ghost ev = b.events@[k as int]@;
            assert(b@.1[k as int] == ev);
            if b.ltime.0 < u64::MAX {
                let msg = UserEventMessage {
                    ltime: b.ltime,
                    name: b.events[k].name.clone(),
                    payload: bytes_copy(&b.events[k].payload),
                    cc: false,
                };
                let _ = self.handle_user_event(&msg);
                assert(self.model() == event_model_step(before, old(self).min_time(), b.ltime.0, ev));
            }
            k = k + 1;
            assert(b@.1.take(k as int).drop_last() =~= b@.1.take(k - 1));
            assert(b@.1.take(k as int).last() == ev);
        }
        assert(b@.1.take(b.events.len() as int) =~= b@.1);
    }

    /// Receives a user event: the clock witnesses its time; it is kept unless
    /// it is older than the minimum time, too old for the buffer, or already
    /// held. Returns whether it was kept, and so is to be delivered and
    /// gossiped further.
    pub fn handle_user_event(&mut self, msg: &UserEventMessage) -> (r: bool)
        requires
            old(self).wf(),
            msg.ltime.0 < u64::MAX,
        ensures
            final(self).wf(),
            final(self).clock() == witnessed(old(self).clock(), msg.ltime.0),
            r == event_kept(
                old(self).buffer(),
                old(self).min_time(),
                final(self).clock(),
                msg.ltime.0,
                (msg.name@, msg.payload@),
            ),
            final(self).buffer() == buffer_after(
                old(self).buffer(),
                old(self).min_time(),
                final(self).clock(),
                msg.ltime.0,
                (msg.name@, msg.payload@),
            ),
            final(self).min_time() == old(self).min_time(),
            r ==> final(self).clock() > msg.ltime.0,
    {
        let ltime = msg.ltime.0;
        let ghost ev: EventView = (msg.name@, msg.payload@);
        self.clock.witness(msg.ltime);
        let size = self.buffer.len() as u64;
        let now = self.clock.time().0;
        if ltime < self.min_time {
            return false;
        }
        if now >= size && ltime <= now - size {
            return false;
        }
        let idx = (ltime % size) as usize;
        let ghost bv = self.buffer();
        assert(bv[idx as int] == slot_view(self.buffer@[idx as int]));
        let same = match &self.buffer[idx] {
            Some(b) => b.ltime.0 == ltime,
            None => false,
        };
        if same {
            let b = self.buffer[idx].as_ref().unwrap();
            if bucket_has(b, &msg.name, &msg.payload) {
                return false;
            }
        }
        let new_ev = UserEvent { name: msg.name.clone(), payload: bytes_copy(&msg.payload) };
        let ghost buf0 = self.buffer@;
        let taken = self.buffer.remove(idx);
        assert(taken == buf0[idx as int]);
        let slot = match taken {
            Some(b0) => if b0.ltime.0 == ltime {
                let mut b = b0;
                let ghost evs0 = b.events@;
                b.events.push(new_ev);
                assert(b.events@.map_values(|e: UserEvent| e@) =~= evs0.map_values(
                    |e: UserEvent| e@,
                ).push(ev));
                b
            } else {
                let mut evs: Vec<UserEvent> = Vec::new();
                evs.push(new_ev);
                assert(evs@.map_values(|e: UserEvent| e@) =~= seq![ev]);
                UserEvents { ltime: msg.ltime, events: evs }
            },
            None => {
                let mut evs: Vec<UserEvent> = Vec::new();
                evs.push(new_ev);
                assert(evs@.map_values(|e: UserEvent| e@) =~= seq![ev]);
                UserEvents { ltime: msg.ltime, events: evs }
            },
        };
        assert(slot_view(Some(slot)) == slot_after(bv[idx as int], ltime, ev));
        self.buffer.insert(idx, Some(slot));
        assert(self.buffer@ =~= buf0.update(idx as int, Some(slot)));
        assert(self.buffer() =~= bv.update(idx as int, slot_after(bv[idx as int], ltime, ev)));
        true
    }
}

} // verus!

verus! {

/// Receiving an event a second time changes nothing: the clock and the buffer
/// stay as after the first time, and the repeat is not kept, so it is
/// delivered once at most.
pub proof fn lemma_event_idempotent(
    buf: Seq<Option<BucketView>>,
    min_time: u64,
    clock: u64,
    ltime: u64,
    ev: EventView,
)
    requires
        buf.len() > 0,
        ltime < u64::MAX,
    ensures
        ({
            let c1 = witnessed(clock, ltime);
            let b1 = buffer_after(buf, min_time, c1, ltime, ev);
            let c2 = witnessed(c1, ltime);
            &&& c2 == c1
            &&& !event_kept(b1, min_time, c2, ltime, ev)
            &&& buffer_after(b1, min_time, c2, ltime, ev) == b1
        }),
{
    let c1 = witnessed(clock, ltime);
    let i = (ltime as int) % (buf.len() as int);
    if event_kept(buf, min_time, c1, ltime, ev) {
        let b1 = buffer_after(buf, min_time, c1, ltime, ev);
        let s = slot_after(buf[i], ltime, ev);
        assert(b1[i] == s);
        match buf[i] {
            Some(b) => {
                if b.0 == ltime {
                    assert(b.1.push(ev)[b.1.len() as int] == ev);
                } else {
                    assert(seq![ev][0] == ev);
                }
            },
            None => {
                assert(seq![ev][0] == ev);
            },
        }
    }
}

/// Every bucket held is older than the event clock, so the clock is past
/// every delivered event, and the buffer keeps the number of slots it was
/// made with.
pub proof fn lemma_event_buffer_bounds(b: &EventBuffer)
    requires
        b.wf(),
    ensures
        b.buffer().len() > 0,
        forall|i: int|
            0 <= i < b.buffer().len() ==> (#[trigger] b.buffer()[i] matches Some(x) ==> x.0
                < b.clock()),
{
    assert forall|i: int|
        0 <= i < b.buffer().len() implies (#[trigger] b.buffer()[i] matches Some(x) ==> x.0
        < b.clock()) by {
        assert(b.buffer()[i] == slot_view(b.buffer@[i]));
    }
}

/// Receiving an event keeps the number of slots.
pub proof fn lemma_event_buffer_size_kept(
    buf: Seq<Option<BucketView>>,
    min_time: u64,
    clock: u64,
    ltime: u64,
    ev: EventView,
)
    requires
        buf.len() > 0,
    ensures
        buffer_after(buf, min_time, clock, ltime, ev).len() == buf.len(),
{
}

} // verus!
