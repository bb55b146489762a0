//! Decisions that the node takes on the transport's behalf: the size of its
//! metadata, the ping payload that carries coordinates, the byte budget of a
//! gossip round, and the member record of a transport node.
use vstd::prelude::*;

use crate::error::SerfError;
use crate::message::Member;
use crate::table::MemberStatus;

verus! {

/// Version byte that starts a ping payload carrying a coordinate.
pub const PING_VERSION: u8 = 1;

/// The smaller of two sizes.
pub open spec fn min_size(a: usize, b: usize) -> usize {
    if a < b {
        a
    } else {
        b
    }
}

/// Checks that encoded tags of `encoded_len` bytes fit in the metadata the
/// transport allows: `limit`, capped at `meta_max`.
pub fn check_meta_size(encoded_len: usize, limit: usize, meta_max: usize) -> (r: Result<(), SerfError>)
    ensures
        r is Ok <==> encoded_len <= min_size(limit, meta_max),
        r matches Err(e) ==> e == SerfError::TagsTooLarge(encoded_len),
{
    let cap = if limit < meta_max {
        limit
    } else {
        meta_max
    };
    if encoded_len > cap {
        Err(SerfError::TagsTooLarge(encoded_len))
    } else {
        Ok(())
    }
}

/// The member record of a node the transport knows: a node the transport
/// saw leave is `Left`, any other has no status yet. Metadata longer than
/// `meta_max` is refused.
pub fn node_to_member(
    id: u64,
    transport_left: bool,
    meta_len: usize,
    meta_max: usize,
    tags: Vec<(String, String)>,
) -> (r: Result<Member, SerfError>)
    ensures
        r is Ok <==> meta_len <= meta_max,
        r matches Err(e) ==> e == SerfError::TagsTooLarge(meta_len),
        r matches Ok(m) ==> {
            &&& m.id == id
            &&& m.status == if transport_left {
                MemberStatus::Left
            } else {
                MemberStatus::Unknown
            }
            &&& m.tags@ == tags@
            &&& m.protocol_version == 0
            &&& m.delegate_version == 0
        },
{
    if meta_len > meta_max {
        return Err(SerfError::TagsTooLarge(meta_len));
    }
    let status = if transport_left {
        MemberStatus::Left
    } else {
        MemberStatus::Unknown
    };
    Ok(Member { id, tags, status, protocol_version: 0, delegate_version: 0 })
}

/// The payload of a ping ack: nothing when coordinates are disabled, else the
/// version byte followed by the encoded coordinate.
pub fn ack_payload(coordinate: Option<Vec<u8>>) -> (r: Vec<u8>)
    ensures
        r@ == match coordinate {
            Some(c) => seq![PING_VERSION] + c@,
            None => Seq::<u8>::empty(),
        },
{
    match coordinate {
        Some(c) => {
            let mut buf: Vec<u8> = Vec::new();
            buf.push(PING_VERSION);
            let mut i: usize = 0;
            while i < c.len()
                invariant
                    i <= c.len(),
                    buf@ == seq![PING_VERSION] + c@.take(i as int),
                decreases c.len() - i,
            {
                buf.push(c[i]);
                i = i + 1;
                assert(buf@ =~= seq![PING_VERSION] + c@.take(i as int));
            }
            assert(c@.take(c.len() as int) =~= c@);
            buf
        },
        None => Vec::new(),
    }
}

/// The encoded coordinate carried by a completed ping's payload: none when
/// coordinates are disabled, the payload is empty, or its version byte is not
/// the one this node speaks.
pub fn ping_coordinate(payload: &Vec<u8>, coordinates_enabled: bool) -> (r: Option<Vec<u8>>)
    ensures
        r is Some <==> coordinates_enabled && payload@.len() > 0 && payload@[0] == PING_VERSION,
        r matches Some(c) ==> c@ == payload@.skip(1),
{
    if payload.len() == 0 || !coordinates_enabled || payload[0] != PING_VERSION {
        return None;
    }
    let mut c: Vec<u8> = Vec::new();
    let mut i: usize = 1;
    while i < payload.len()
        invariant
            1 <= i <= payload.len(),
            c@ == payload@.subrange(1, i as int),
        decreases payload.len() - i,
    {
        c.push(payload[i]);
        i = i + 1;
        assert(c@ =~= payload@.subrange(1, i as int));
    }
    assert(payload@.subrange(1, payload.len() as int) =~= payload@.skip(1));
    Some(c)
}

/// The sum of a sequence of sizes.
pub open spec fn total(s: Seq<usize>) -> int
    decreases s.len(),
{
    if s.len() == 0 {
        0
    } else {
        total(s.drop_last()) + s.last()
    }
}

/// The bytes of `limit` left after the messages of the given encoded
/// lengths; none when they take it all.
pub fn bytes_left(limit: usize, lens: &Vec<usize>) -> (r: usize)
    ensures
        r == if total(lens@) >= limit {
            0
        } else {
            limit - total(lens@)
        },
{
    let mut used: usize = 0;
    let mut i: usize = 0;
    while i < lens.len()
        invariant
            i <= lens.len(),
            used == total(lens@.take(i as int)),
            used <= limit,
        decreases lens.len() - i,
    {
        assert(lens@.take(i + 1).drop_last() =~= lens@.take(i as int));
        if lens[i] > limit - used {
            proof {
                lemma_total_prefix_grows(lens@, i as int + 1);
            }
            return 0;
        }
        used = used + lens[i];
        i = i + 1;
    }
    assert(lens@.take(lens.len() as int) =~= lens@);
    limit - used
}

proof fn lemma_total_prefix_grows(s: Seq<usize>, k: int)
    requires
        0 <= k <= s.len(),
    ensures
        total(s) >= total(s.take(k)),
    decreases s.len() - k,
{
    if k < s.len() {
        lemma_total_prefix_grows(s, k + 1);
        assert(s.take(k + 1).drop_last() =~= s.take(k));
    } else {
        assert(s.take(k) =~= s);
    }
}

/// The message a relay envelope carries: what follows the tag byte and the
/// `consumed` bytes of the destination header; none when the header runs
/// past the end.
pub fn relay_inner(msg: &Vec<u8>, consumed: usize) -> (r: Option<Vec<u8>>)
    ensures
        r is Some <==> consumed < msg@.len(),
        r matches Some(inner) ==> inner@ == msg@.skip(consumed + 1),
{
    if consumed >= msg.len() {
        return None;
    }
    let mut inner: Vec<u8> = Vec::new();
    let mut i: usize = consumed + 1;
    while i < msg.len()
        invariant
            consumed + 1 <= i <= msg.len(),
            inner@ == msg@.subrange(consumed + 1, i as int),
        decreases msg.len() - i,
    {
        inner.push(msg[i]);
        i = i + 1;
        assert(inner@ =~= msg@.subrange(consumed + 1, i as int));
    }
    assert(msg@.subrange(consumed + 1, msg.len() as int) =~= msg@.skip(consumed + 1));
    Some(inner)
}

/// A relay envelope: the relay tag, the encoded destination, then the
/// message to deliver there.
pub fn relay_frame(dest: &Vec<u8>, inner: &Vec<u8>) -> (r: Vec<u8>)
    ensures
        r@ == seq![7u8] + dest@ + inner@,
{
    let mut out: Vec<u8> = Vec::new();
    out.push(7);
    let mut i: usize = 0;
    while i < dest.len()
        invariant
            i <= dest.len(),
            out@ == seq![7u8] + dest@.take(i as int),
        decreases dest.len() - i,
    {
        out.push(dest[i]);
        i = i + 1;
        assert(out@ =~= seq![7u8] + dest@.take(i as int));
    }
    assert(dest@.take(dest.len() as int) =~= dest@);
    let mut k: usize = 0;
    while k < inner.len()
        invariant
            k <= inner.len(),
            out@ == seq![7u8] + dest@ + inner@.take(k as int),
        decreases inner.len() - k,
    {
        out.push(inner[k]);
        k = k + 1;
        assert(out@ =~= seq![7u8] + dest@ + inner@.take(k as int));
    }
    assert(inner@.take(inner.len() as int) =~= inner@);
    out
}

/// Unwrapping a relay envelope gives back the message it carries.
pub proof fn lemma_relay_round_trip(dest: Seq<u8>, inner: Seq<u8>)
    ensures
        (seq![7u8] + dest + inner).skip((dest.len() + 1) as int) == inner,
{
    assert((seq![7u8] + dest + inner).skip((dest.len() + 1) as int) =~= inner);
}

} // verus!
