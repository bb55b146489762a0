//! The snapshot journal: one record per line, tokens separated by a space,
//! replayed on boot to seed the rejoin and restore the clocks.
use vstd::prelude::*;

use std::collections::HashMap;

use crate::events::bytes_eq;

verus! {

broadcast use vstd::std_specs::hash::group_hash_axioms;

/// A journal record.
#[derive(Debug, Clone)]
pub enum SnapshotRecord {
    /// A node seen alive at an address.
    Alive { node: u64, addr: Vec<u8> },
    /// A node no longer alive.
    NotAlive { node: u64 },
    /// This node left the cluster.
    Leave,
    /// The membership clock.
    Clock(u64),
    /// The event clock.
    EventClock(u64),
    /// The query clock.
    QueryClock(u64),
    /// This node's network coordinate, encoded.
    Coordinate(Vec<u8>),
}

/// A journal record, for comparison.
pub enum RecordView {
    Alive(u64, Seq<u8>),
    NotAlive(u64),
    Leave,
    Clock(u64),
    EventClock(u64),
    QueryClock(u64),
    Coordinate(Seq<u8>),
}

impl View for SnapshotRecord {
    type V = RecordView;

    open spec fn view(&self) -> RecordView {
        match self {
            SnapshotRecord::Alive { node, addr } => RecordView::Alive(*node, addr@),
            SnapshotRecord::NotAlive { node } => RecordView::NotAlive(*node),
            SnapshotRecord::Leave => RecordView::Leave,
            SnapshotRecord::Clock(t) => RecordView::Clock(*t),
            SnapshotRecord::EventClock(t) => RecordView::EventClock(*t),
            SnapshotRecord::QueryClock(t) => RecordView::QueryClock(*t),
            SnapshotRecord::Coordinate(c) => RecordView::Coordinate(c@),
        }
    }
}

pub open spec fn opt_view(r: Option<SnapshotRecord>) -> Option<RecordView> {
    match r {
        Some(x) => Some(x@),
        None => None,
    }
}

/// The decimal digits of `n`, most significant first.
pub open spec fn dec(n: nat) -> Seq<u8>
    decreases n,
{
    if n < 10 {
        seq![(48 + n) as u8]
    } else {
        dec(n / 10).push((48 + n % 10) as u8)
    }
}

pub open spec fn is_digit(b: u8) -> bool {
    48 <= b <= 57
}

pub open spec fn all_digits(s: Seq<u8>) -> bool {
    forall|i: int| 0 <= i < s.len() ==> is_digit(#[trigger] s[i])
}

/// The number that decimal digits stand for.
pub open spec fn dec_value(s: Seq<u8>) -> nat
    decreases s.len(),
{
    if s.len() == 0 {
        0
    } else {
        dec_value(s.drop_last()) * 10 + (s.last() - 48) as nat
    }
}

/// The 64-bit number written in `s`: one digit or more, and no more than fit.
pub open spec fn dec_parse(s: Seq<u8>) -> Option<u64> {
    if s.len() > 0 && all_digits(s) && dec_value(s) <= u64::MAX {
        Some(dec_value(s) as u64)
    } else {
        None
    }
}

pub open spec fn kw_alive() -> Seq<u8> {
    seq![97u8, 108, 105, 118, 101]
}

pub open spec fn kw_not_alive() -> Seq<u8> {
    seq![110u8, 111, 116, 45, 97, 108, 105, 118, 101]
}

pub open spec fn kw_leave() -> Seq<u8> {
    seq![108u8, 101, 97, 118, 101]
}

pub open spec fn kw_clock() -> Seq<u8> {
    seq![99u8, 108, 111, 99, 107]
}

pub open spec fn kw_event_clock() -> Seq<u8> {
    seq![101u8, 118, 101, 110, 116, 45, 99, 108, 111, 99, 107]
}

pub open spec fn kw_query_clock() -> Seq<u8> {
    seq![113u8, 117, 101, 114, 121, 45, 99, 108, 111, 99, 107]
}

pub open spec fn kw_coordinate() -> Seq<u8> {
    seq![99u8, 111, 111, 114, 100, 105, 110, 97, 116, 101]
}

/// Whether `l` is the keyword `kw`, a space, and an argument.
pub open spec fn has_arg(l: Seq<u8>, kw: Seq<u8>) -> bool {
    l.len() > kw.len() && l.take(kw.len() as int) == kw && l[kw.len() as int] == 32
}

/// The argument after the keyword `kw` and its space.
pub open spec fn arg(l: Seq<u8>, kw: Seq<u8>) -> Seq<u8> {
    l.skip((kw.len() + 1) as int)
}

/// The position of the first space of `s`, or its length when it has none.
pub open spec fn first_space(s: Seq<u8>) -> nat
    decreases s.len(),
{
    if s.len() == 0 {
        0
    } else if s[0] == 32 {
        0
    } else {
        1 + first_space(s.drop_first())
    }
}

/// The number argument of a record, as a record.
pub open spec fn number_record(l: Seq<u8>, kw: Seq<u8>, which: nat) -> Option<RecordView> {
    match dec_parse(arg(l, kw)) {
        Some(t) => Some(
            if which == 0 {
                RecordView::Clock(t)
            } else if which == 1 {
                RecordView::EventClock(t)
            } else if which == 2 {
                RecordView::QueryClock(t)
            } else {
                RecordView::NotAlive(t)
            },
        ),
        None => None,
    }
}

/// The record a journal line holds, if any.
pub open spec fn parse_line(l: Seq<u8>) -> Option<RecordView> {
    if l == kw_leave() {
        Some(RecordView::Leave)
    } else if has_arg(l, kw_clock()) {
        number_record(l, kw_clock(), 0)
    } else if has_arg(l, kw_event_clock()) {
        number_record(l, kw_event_clock(), 1)
    } else if has_arg(l, kw_query_clock()) {
        number_record(l, kw_query_clock(), 2)
    } else if has_arg(l, kw_not_alive()) {
        number_record(l, kw_not_alive(), 3)
    } else if has_arg(l, kw_coordinate()) {
        Some(RecordView::Coordinate(arg(l, kw_coordinate())))
    } else if has_arg(l, kw_alive()) {
        let a = arg(l, kw_alive());
        let i = first_space(a);
        if i < a.len() {
            match dec_parse(a.take(i as int)) {
                Some(n) => Some(RecordView::Alive(n, a.skip((i + 1) as int))),
                None => None,
            }
        } else {
            None
        }
    } else {
        None
    }
}

/// The line that a record is written as.
pub open spec fn record_line(r: RecordView) -> Seq<u8> {
    match r {
        RecordView::Alive(n, a) => kw_alive() + seq![32u8] + dec(n as nat) + seq![32u8] + a,
        RecordView::NotAlive(n) => kw_not_alive() + seq![32u8] + dec(n as nat),
        RecordView::Leave => kw_leave(),
        RecordView::Clock(t) => kw_clock() + seq![32u8] + dec(t as nat),
        RecordView::EventClock(t) => kw_event_clock() + seq![32u8] + dec(t as nat),
        RecordView::QueryClock(t) => kw_query_clock() + seq![32u8] + dec(t as nat),
        RecordView::Coordinate(c) => kw_coordinate() + seq![32u8] + c,
    }
}

/// The decimal digits of a number read back give that number.
pub proof fn lemma_dec_round_trip(n: nat)
    ensures
        dec_value(dec(n)) == n,
        all_digits(dec(n)),
        dec(n).len() > 0,
    decreases n,
{
    if n >= 10 {
        lemma_dec_round_trip(n / 10);
        let d = dec(n);
        assert(d.drop_last() =~= dec(n / 10));
        assert(d.last() == (48 + n % 10) as u8);
        assert(d.last() - 48 == n % 10);
        assert((n / 10) * 10 + n % 10 == n) by (nonlinear_arith);
        assert(dec_value(d) == dec_value(d.drop_last()) * 10 + (d.last() - 48) as nat);
        assert forall|i: int| 0 <= i < d.len() implies is_digit(#[trigger] d[i]) by {
            if i < d.len() - 1 {
                assert(d[i] == dec(n / 10)[i]);
            }
        }
    } else {
        let d = dec(n);
        assert(d.drop_last() =~= Seq::<u8>::empty());
        assert(d.last() - 48 == n);
        assert(dec_value(d) == dec_value(d.drop_last()) * 10 + (d.last() - 48) as nat);
    }
}

proof fn lemma_digits_have_no_space(s: Seq<u8>, rest: Seq<u8>)
    requires
        all_digits(s),
    ensures
        first_space(s + seq![32u8] + rest) == s.len(),
    decreases s.len(),
{
    let t = s + seq![32u8] + rest;
    if s.len() == 0 {
        assert(t[0] == 32);
    } else {
        assert(is_digit(s[0]));
        assert(t[0] == s[0]);
        let s2 = s.drop_first();
        assert forall|i: int| 0 <= i < s2.len() implies is_digit(#[trigger] s2[i]) by {
            assert(s2[i] == s[i + 1]);
        }
        lemma_digits_have_no_space(s2, rest);
        assert(t.drop_first() =~= s2 + seq![32u8] + rest);
    }
}

/// A written record reads back as the same record.
pub proof fn lemma_record_round_trip(r: RecordView)
    ensures
        parse_line(record_line(r)) == Some(r),
{
    let l = record_line(r);
    match r {
        RecordView::Alive(n, a) => {
            lemma_dec_round_trip(n as nat);
            let d = dec(n as nat);
            let rest = arg(l, kw_alive());
            assert(l.take(5) =~= kw_alive());
            assert(rest =~= d + seq![32u8] + a);
            lemma_digits_have_no_space(d, a);
            assert(rest.take(d.len() as int) =~= d);
            assert(rest.skip((d.len() + 1) as int) =~= a);
            assert(l[0] == 97);
            assert(l != kw_leave());
        },
        RecordView::NotAlive(n) => {
            lemma_dec_round_trip(n as nat);
            assert(l.take(9) =~= kw_not_alive());
            assert(arg(l, kw_not_alive()) =~= dec(n as nat));
            assert(l[0] == 110);
            assert(l != kw_leave());
        },
        RecordView::Leave => {},
        RecordView::Clock(t) => {
            lemma_dec_round_trip(t as nat);
            assert(l.take(5) =~= kw_clock());
            assert(arg(l, kw_clock()) =~= dec(t as nat));
            assert(l[0] == 99);
            assert(l != kw_leave());
        },
        RecordView::EventClock(t) => {
            lemma_dec_round_trip(t as nat);
            assert(l.take(11) =~= kw_event_clock());
            assert(arg(l, kw_event_clock()) =~= dec(t as nat));
            assert(l[0] == 101);
            assert(l != kw_leave());
            assert(l.take(5) != kw_clock());
        },
        RecordView::QueryClock(t) => {
            lemma_dec_round_trip(t as nat);
            assert(l.take(11) =~= kw_query_clock());
            assert(arg(l, kw_query_clock()) =~= dec(t as nat));
            assert(l[0] == 113);
            assert(l != kw_leave());
            assert(l.take(5) != kw_clock());
            assert(l.take(11) != kw_event_clock());
        },
        RecordView::Coordinate(c) => {
            assert(l.take(10) =~= kw_coordinate());
            assert(arg(l, kw_coordinate()) =~= c);
            assert(l[0] == 99 && l[1] == 111);
            assert(l != kw_leave());
            assert(l.take(5) != kw_clock()) by {
                assert(l.take(5)[1] == 111);
            }
        },
    }
}

fn array_bytes<const N: usize>(a: &[u8; N]) -> (r: Vec<u8>)
    ensures
        r@ == a@,
{
    let mut r: Vec<u8> = Vec::new();
    let mut i: usize = 0;
    while i < N
        invariant
            i <= N,
            a@.len() == N,
            r@ == a@.take(i as int),
        decreases N - i,
    {
        r.push(a[i]);
        i = i + 1;
        assert(r@ =~= a@.take(i as int));
    }
    assert(a@.take(N as int) =~= a@);
    r
}

fn keyword_alive() -> (r: Vec<u8>)
    ensures
        r@ == kw_alive(),
{
    let a: [u8; 5] = [97, 108, 105, 118, 101];
    let r = array_bytes(&a);
    assert(r@ =~= kw_alive());
    r
}

fn keyword_not_alive() -> (r: Vec<u8>)
    ensures
        r@ == kw_not_alive(),
{
    let a: [u8; 9] = [110, 111, 116, 45, 97, 108, 105, 118, 101];
    let r = array_bytes(&a);
    assert(r@ =~= kw_not_alive());
    r
}

fn keyword_leave() -> (r: Vec<u8>)
    ensures
        r@ == kw_leave(),
{
    let a: [u8; 5] = [108, 101, 97, 118, 101];
    let r = array_bytes(&a);
    assert(r@ =~= kw_leave());
    r
}

fn keyword_clock() -> (r: Vec<u8>)
    ensures
        r@ == kw_clock(),
{
    let a: [u8; 5] = [99, 108, 111, 99, 107];
    let r = array_bytes(&a);
    assert(r@ =~= kw_clock());
    r
}

fn keyword_event_clock() -> (r: Vec<u8>)
    ensures
        r@ == kw_event_clock(),
{
    let a: [u8; 11] = [101, 118, 101, 110, 116, 45, 99, 108, 111, 99, 107];
    let r = array_bytes(&a);
    assert(r@ =~= kw_event_clock());
    r
}

fn keyword_query_clock() -> (r: Vec<u8>)
    ensures
        r@ == kw_query_clock(),
{
    let a: [u8; 11] = [113, 117, 101, 114, 121, 45, 99, 108, 111, 99, 107];
    let r = array_bytes(&a);
    assert(r@ =~= kw_query_clock());
    r
}

fn keyword_coordinate() -> (r: Vec<u8>)
    ensures
        r@ == kw_coordinate(),
{
    let a: [u8; 10] = [99, 111, 111, 114, 100, 105, 110, 97, 116, 101];
    let r = array_bytes(&a);
    assert(r@ =~= kw_coordinate());
    r
}

fn append_bytes(out: &mut Vec<u8>, b: &Vec<u8>)
    ensures
        final(out)@ == old(out)@ + b@,
{
    let mut i: usize = 0;
    while i < b.len()
        invariant
            i <= b.len(),
            out@ == old(out)@ + b@.take(i as int),
        decreases b.len() - i,
    {
        out.push(b[i]);
        i = i + 1;
        assert(out@ =~= old(out)@ + b@.take(i as int));
    }
    assert(b@.take(b.len() as int) =~= b@);
}

fn push_dec(n: u64, out: &mut Vec<u8>)
    ensures
        final(out)@ == old(out)@ + dec(n as nat),
    decreases n,
{
    if n >= 10 {
        push_dec(n / 10, out);
    }
    out.push(48 + (n % 10) as u8);
    proof {
        if n >= 10 {
            assert(out@ =~= old(out)@ + dec(n as nat));
        } else {
            assert(out@ =~= old(out)@ + dec(n as nat));
        }
    }
}

/// The line a record is written as, without the line break.
pub fn encode_record(r: &SnapshotRecord) -> (out: Vec<u8>)
    ensures
        out@ == record_line(r@),
{
    match r {
        SnapshotRecord::Alive { node, addr } => {
            let mut out = keyword_alive();
            out.push(32);
            push_dec(*node, &mut out);
            out.push(32);
            append_bytes(&mut out, addr);
            assert(out@ =~= record_line(r@));
            out
        },
        SnapshotRecord::NotAlive { node } => {
            let mut out = keyword_not_alive();
            out.push(32);
            push_dec(*node, &mut out);
            assert(out@ =~= record_line(r@));
            out
        },
        SnapshotRecord::Leave => keyword_leave(),
        SnapshotRecord::Clock(t) => {
            let mut out = keyword_clock();
            out.push(32);
            push_dec(*t, &mut out);
            assert(out@ =~= record_line(r@));
            out
        },
        SnapshotRecord::EventClock(t) => {
            let mut out = keyword_event_clock();
            out.push(32);
            push_dec(*t, &mut out);
            assert(out@ =~= record_line(r@));
            out
        },
        SnapshotRecord::QueryClock(t) => {
            let mut out = keyword_query_clock();
            out.push(32);
            push_dec(*t, &mut out);
            assert(out@ =~= record_line(r@));
            out
        },
        SnapshotRecord::Coordinate(c) => {
            let mut out = keyword_coordinate();
            out.push(32);
            append_bytes(&mut out, c);
            assert(out@ =~= record_line(r@));
            out
        },
    }
}

fn keyword_arg(l: &Vec<u8>, kw: &Vec<u8>) -> (r: bool)
    ensures
        r == has_arg(l@, kw@),
{
    if l.len() <= kw.len() {
        return false;
    }
    let mut i: usize = 0;
    while i < kw.len()
        invariant
            i <= kw.len(),
            kw.len() < l.len(),
            forall|j: int| 0 <= j < i ==> l@[j] == kw@[j],
        decreases kw.len() - i,
    {
        if l[i] != kw[i] {
            assert(l@.take(kw@.len() as int)[i as int] != kw@[i as int]);
            return false;
        }
        i = i + 1;
    }
    assert(l@.take(kw@.len() as int) =~= kw@);
    l[kw.len()] == 32
}

fn skip_bytes(l: &Vec<u8>, n: usize) -> (r: Vec<u8>)
    requires
        n <= l.len(),
    ensures
        r@ == l@.skip(n as int),
{
    let mut r: Vec<u8> = Vec::new();
    let mut i: usize = n;
    while i < l.len()
        invariant
            n <= i <= l.len(),
            r@ == l@.subrange(n as int, i as int),
        decreases l.len() - i,
    {
        r.push(l[i]);
        i = i + 1;
        assert(r@ =~= l@.subrange(n as int, i as int));
    }
    assert(l@.subrange(n as int, l.len() as int) =~= l@.skip(n as int));
    r
}

fn take_bytes(l: &Vec<u8>, n: usize) -> (r: Vec<u8>)
    requires
        n <= l.len(),
    ensures
        r@ == l@.take(n as int),
{
    let mut r: Vec<u8> = Vec::new();
    let mut i: usize = 0;
    while i < n
        invariant
            i <= n <= l.len(),
            r@ == l@.take(i as int),
        decreases n - i,
    {
        r.push(l[i]);
        i = i + 1;
        assert(r@ =~= l@.take(i as int));
    }
    r
}

fn find_space(s: &Vec<u8>) -> (r: usize)
    ensures
        r == first_space(s@),
{
    let mut i: usize = 0;
    assert(s@.skip(0) =~= s@);
    while i < s.len()
        invariant
            i <= s.len(),
            first_space(s@) == i + first_space(s@.skip(i as int)),
        decreases s.len() - i,
    {
        let ghost rest = s@.skip(i as int);
        assert(rest[0] == s@[i as int]);
        if s[i] == 32 {
            return i;
        }
        assert(rest.drop_first() =~= s@.skip(i + 1));
        i = i + 1;
    }
    assert(s@.skip(i as int).len() == 0);
    i
}

proof fn lemma_dec_prefix(s: Seq<u8>, k: int)
    requires
        all_digits(s),
        0 <= k <= s.len(),
    ensures
        dec_value(s.take(k)) <= dec_value(s),
    decreases s.len() - k,
{
    if k < s.len() {
        lemma_dec_prefix(s, k + 1);
        let t = s.take(k + 1);
        assert(t.drop_last() =~= s.take(k));
        assert(is_digit(s[k]));
    } else {
        assert(s.take(k) =~= s);
    }
}

/// The number written in decimal in `s`, when it is one digit or more and
/// fits in 64 bits.
pub fn parse_dec(s: &Vec<u8>) -> (r: Option<u64>)
    ensures
        r == dec_parse(s@),
{
    if s.len() == 0 {
        return None;
    }
    let mut v: u64 = 0;
    let mut i: usize = 0;
    while i < s.len()
        invariant
            i <= s.len(),
            all_digits(s@.take(i as int)),
            v == dec_value(s@.take(i as int)),
        decreases s.len() - i,
    {
        let b = s[i];
        let ghost t = s@.take(i + 1);
        assert(t.drop_last() =~= s@.take(i as int));
        if b < 48 || b > 57 {
            assert(!is_digit(s@[i as int]));
            return None;
        }
        let d = (b - 48) as u64;
        if v > (u64::MAX - d) / 10 {
            proof {
                assert(v * 10 + d > u64::MAX) by (nonlinear_arith)
                    requires
                        v > (u64::MAX - d) / 10,
                        d <= 9,
                ;
                if all_digits(s@) {
                    lemma_dec_prefix(s@, i + 1);
                }
            }
            return None;
        }
        proof {
            assert(v * 10 + d <= u64::MAX) by (nonlinear_arith)
                requires
                    v <= (u64::MAX - d) / 10,
                    d <= 9,
            ;
        }
        v = v * 10 + d;
        i = i + 1;
        assert forall|j: int| 0 <= j < i implies is_digit(#[trigger] s@.take(i as int)[j]) by {
            if j < i - 1 {
                assert(s@.take(i as int)[j] == s@.take(i - 1)[j]);
            }
        }
    }
    assert(s@.take(s.len() as int) =~= s@);
    Some(v)
}

fn number_arg(l: &Vec<u8>, kw_len: usize) -> (r: Option<u64>)
    requires
        kw_len < l.len(),
    ensures
        r == dec_parse(l@.skip(kw_len + 1)),
{
    let a = skip_bytes(l, kw_len + 1);
    parse_dec(&a)
}

/// The record a journal line holds, if any.
pub fn parse_record(l: &Vec<u8>) -> (r: Option<SnapshotRecord>)
    ensures
        opt_view(r) == parse_line(l@),
{
    let leave = keyword_leave();
    if bytes_eq(l, &leave) {
        return Some(SnapshotRecord::Leave);
    }
    let kw = keyword_clock();
    if keyword_arg(l, &kw) {
        return match number_arg(l, kw.len()) {
            Some(t) => Some(SnapshotRecord::Clock(t)),
            None => None,
        };
    }
    let kw = keyword_event_clock();
    if keyword_arg(l, &kw) {
        return match number_arg(l, kw.len()) {
            Some(t) => Some(SnapshotRecord::EventClock(t)),
            None => None,
        };
    }
    let kw = keyword_query_clock();
    if keyword_arg(l, &kw) {
        return match number_arg(l, kw.len()) {
            Some(t) => Some(SnapshotRecord::QueryClock(t)),
            None => None,
        };
    }
    let kw = keyword_not_alive();
    if keyword_arg(l, &kw) {
        return match number_arg(l, kw.len()) {
            Some(t) => Some(SnapshotRecord::NotAlive { node: t }),
            None => None,
        };
    }
    let kw = keyword_coordinate();
    if keyword_arg(l, &kw) {
        return Some(SnapshotRecord::Coordinate(skip_bytes(l, kw.len() + 1)));
    }
    let kw = keyword_alive();
    if keyword_arg(l, &kw) {
        let a = skip_bytes(l, kw.len() + 1);
        let i = find_space(&a);
        if i < a.len() {
            let digits = take_bytes(&a, i);
            return match parse_dec(&digits) {
                Some(n) => Some(SnapshotRecord::Alive { node: n, addr: skip_bytes(&a, i + 1) }),
                None => None,
            };
        }
        return None;
    }
    None
}

/// What the journal gives back on boot, for comparison: the alive nodes and
/// their addresses, the three clocks, and whether this node had left.
pub type RecoveredView = (Map<u64, Seq<u8>>, u64, u64, u64, bool);

/// One record replayed. A leave clears the alive nodes, which then seed no
/// rejoin; a coordinate changes nothing here.
pub open spec fn replay_step(s: RecoveredView, r: RecordView) -> RecoveredView {
    match r {
        RecordView::Alive(n, a) => (s.0.insert(n, a), s.1, s.2, s.3, s.4),
        RecordView::NotAlive(n) => (s.0.remove(n), s.1, s.2, s.3, s.4),
        RecordView::Leave => (Map::empty(), s.1, s.2, s.3, true),
        RecordView::Clock(t) => (s.0, t, s.2, s.3, s.4),
        RecordView::EventClock(t) => (s.0, s.1, t, s.3, s.4),
        RecordView::QueryClock(t) => (s.0, s.1, s.2, t, s.4),
        RecordView::Coordinate(_) => s,
    }
}

/// The journal's lines replayed in order; a line that holds no record, such
/// as a cut last line, is passed over.
pub open spec fn replay_lines(lines: Seq<Seq<u8>>) -> RecoveredView
    decreases lines.len(),
{
    if lines.len() == 0 {
        (Map::empty(), 0, 0, 0, false)
    } else {
        let p = replay_lines(lines.drop_last());
        match parse_line(lines.last()) {
            Some(r) => replay_step(p, r),
            None => p,
        }
    }
}

/// What the journal gives back on boot.
pub struct Recovered {
    pub alive: HashMap<u64, Vec<u8>>,
    pub clock: u64,
    pub event_clock: u64,
    pub query_clock: u64,
    pub left: bool,
}

pub open spec fn recovered_view(r: &Recovered) -> RecoveredView {
    (r.alive@.map_values(|v: Vec<u8>| v@), r.clock, r.event_clock, r.query_clock, r.left)
}

/// The first time accepted after a restart: one past the last recorded one.
pub open spec fn next_min_time(t: u64) -> u64 {
    if t < u64::MAX {
        (t + 1) as u64
    } else {
        t
    }
}

/// Replays the lines of a journal.
pub fn replay(lines: &Vec<Vec<u8>>) -> (r: Recovered)
    ensures
        recovered_view(&r) == replay_lines(lines@.map_values(|l: Vec<u8>| l@)),
{
    let ghost ls = lines@.map_values(|l: Vec<u8>| l@);
    let mut r = Recovered {
        alive: HashMap::new(),
        clock: 0,
        event_clock: 0,
        query_clock: 0,
        left: false,
    };
    assert(recovered_view(&r).0 =~= Map::<u64, Seq<u8>>::empty());
    let mut i: usize = 0;
    while i < lines.len()
        invariant
            i <= lines.len(),
            ls == lines@.map_values(|l: Vec<u8>| l@),
            recovered_view(&r) == replay_lines(ls.take(i as int)),
        decreases lines.len() - i,
    {
        let ghost before = recovered_view(&r);
        let rec = parse_record(&lines[i]);
        match rec {
            Some(SnapshotRecord::Alive { node, addr }) => {
                let ghost a = addr@;
                r.alive.insert(node, addr);
                assert(recovered_view(&r).0 =~= before.0.insert(node, a));
            },
            Some(SnapshotRecord::NotAlive { node }) => {
                r.alive.remove(&node);
                assert(recovered_view(&r).0 =~= before.0.remove(node));
            },
            Some(SnapshotRecord::Leave) => {
                r.alive = HashMap::new();
                r.left = true;
                assert(recovered_view(&r).0 =~= Map::<u64, Seq<u8>>::empty());
            },
            Some(SnapshotRecord::Clock(t)) => {
                r.clock = t;
            },
            Some(SnapshotRecord::EventClock(t)) => {
                r.event_clock = t;
            },
            Some(SnapshotRecord::QueryClock(t)) => {
                r.query_clock = t;
            },
            Some(SnapshotRecord::Coordinate(_)) => {},
            None => {},
        }
        i = i + 1;
        assert(ls.take(i as int).drop_last() =~= ls.take(i - 1));
        assert(ls.take(i as int).last() == lines@[i - 1]@);
    }
    assert(ls.take(lines.len() as int) =~= ls);
    r
}

} // verus!
