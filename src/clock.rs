//! Lamport time and the Lamport clock.
use vstd::prelude::*;

verus! {

/// A point in logical time.
#[derive(Debug, Default, Clone, Copy, PartialEq, Eq, Hash, PartialOrd, Ord)]
pub struct LamportTime(pub u64);

impl From<u64> for LamportTime {
    fn from(time: u64) -> LamportTime {
        LamportTime(time)
    }
}

impl vstd::std_specs::convert::FromSpecImpl<u64> for LamportTime {
    open spec fn obeys_from_spec() -> bool {
        true
    }

    open spec fn from_spec(v: u64) -> LamportTime {
        LamportTime(v)
    }
}

impl From<LamportTime> for u64 {
    fn from(time: LamportTime) -> u64 {
        time.0
    }
}

impl vstd::std_specs::convert::FromSpecImpl<LamportTime> for u64 {
    open spec fn obeys_from_spec() -> bool {
        true
    }

    open spec fn from_spec(v: LamportTime) -> u64 {
        v.0
    }
}

/// Big-endian bytes of a 64-bit value, most significant first.
pub open spec fn be_bytes(x: u64) -> Seq<u8> {
    seq![
        (x >> 56u64) as u8,
        (x >> 48u64) as u8,
        (x >> 40u64) as u8,
        (x >> 32u64) as u8,
        (x >> 24u64) as u8,
        (x >> 16u64) as u8,
        (x >> 8u64) as u8,
        x as u8,
    ]
}

/// Little-endian bytes of a 64-bit value, least significant first.
pub open spec fn le_bytes(x: u64) -> Seq<u8> {
    seq![
        x as u8,
        (x >> 8u64) as u8,
        (x >> 16u64) as u8,
        (x >> 24u64) as u8,
        (x >> 32u64) as u8,
        (x >> 40u64) as u8,
        (x >> 48u64) as u8,
        (x >> 56u64) as u8,
    ]
}

/// The value whose big-endian bytes are `b`.
pub open spec fn from_be(b: Seq<u8>) -> u64
    recommends
        b.len() == 8,
{
    ((b[0] as u64) << 56u64) | ((b[1] as u64) << 48u64) | ((b[2] as u64) << 40u64) | ((
    b[3] as u64) << 32u64) | ((b[4] as u64) << 24u64) | ((b[5] as u64) << 16u64) | ((
    b[6] as u64) << 8u64) | (b[7] as u64)
}

/// The value whose little-endian bytes are `b`.
pub open spec fn from_le(b: Seq<u8>) -> u64
    recommends
        b.len() == 8,
{
    from_be(b.reverse())
}

impl LamportTime {
    pub open spec fn value(self) -> u64 {
        self.0
    }

    /// Creates a lamport time from the given value.
    pub fn new(time: u64) -> (r: LamportTime)
        ensures
            r.0 == time,
    {
        LamportTime(time)
    }

    /// The time as a big-endian byte array.
    pub fn to_be_bytes(self) -> (r: [u8; 8])
        ensures
            r@ == be_bytes(self.0),
    {
        let x = self.0;
        let r = [
            (x >> 56u64) as u8,
            (x >> 48u64) as u8,
            (x >> 40u64) as u8,
            (x >> 32u64) as u8,
            (x >> 24u64) as u8,
            (x >> 16u64) as u8,
            (x >> 8u64) as u8,
            x as u8,
        ];
        assert(r@ =~= be_bytes(x));
        r
    }

    /// The time as a little-endian byte array.
    pub fn to_le_bytes(self) -> (r: [u8; 8])
        ensures
            r@ == le_bytes(self.0),
    {
        let x = self.0;
        let r = [
            x as u8,
            (x >> 8u64) as u8,
            (x >> 16u64) as u8,
            (x >> 24u64) as u8,
            (x >> 32u64) as u8,
            (x >> 40u64) as u8,
            (x >> 48u64) as u8,
            (x >> 56u64) as u8,
        ];
        assert(r@ =~= le_bytes(x));
        r
    }

    /// Reads a time from a big-endian byte array.
    pub fn from_be_bytes(bytes: [u8; 8]) -> (r: LamportTime)
        ensures
            r.0 == from_be(bytes@),
    {
        let b = bytes;
        LamportTime(
            ((b[0] as u64) << 56u64) | ((b[1] as u64) << 48u64) | ((b[2] as u64) << 40u64) | ((
            b[3] as u64) << 32u64) | ((b[4] as u64) << 24u64) | ((b[5] as u64) << 16u64) | ((
            b[6] as u64) << 8u64) | (b[7] as u64),
        )
    }

    /// Reads a time from a little-endian byte array.
    pub fn from_le_bytes(bytes: [u8; 8]) -> (r: LamportTime)
        ensures
            r.0 == from_le(bytes@),
    {
        let b = bytes;
        let r = LamportTime(
            ((b[7] as u64) << 56u64) | ((b[6] as u64) << 48u64) | ((b[5] as u64) << 40u64) | ((
            b[4] as u64) << 32u64) | ((b[3] as u64) << 24u64) | ((b[2] as u64) << 16u64) | ((
            b[1] as u64) << 8u64) | (b[0] as u64),
        );
        assert(bytes@.reverse()[0] == b[7]);
        r
    }
}

/// The outside error of a LEB128 encode into a buffer that is too short.
#[verifier::external_type_specification]
#[verifier::external_body]
pub struct ExInsufficientBuffer(transformable::utils::InsufficientBuffer);

/// The outside error of a LEB128 decode.
#[verifier::external_type_specification]
#[verifier::external_body]
pub struct ExDecodeVarintError(transformable::utils::DecodeVarintError);

/// The LEB128 bytes of `x`: seven bits a byte, least significant first, the
/// high bit set on every byte but the last.
pub open spec fn varint(x: u64) -> Seq<u8>
    decreases x,
{
    if x < 128 {
        seq![x as u8]
    } else {
        seq![((x % 128) + 128) as u8] + varint(x / 128)
    }
}

/// The value that LEB128 bytes stand for, read up to the first byte without
/// the high bit.
pub open spec fn varint_value(b: Seq<u8>) -> int
    decreases b.len(),
{
    if b.len() == 0 {
        0
    } else if b[0] < 128 {
        b[0] as int
    } else {
        (b[0] - 128) + 128 * varint_value(b.drop_first())
    }
}

/// Reading back the LEB128 bytes of a value gives that value, so no two
/// values share their bytes.
pub proof fn lemma_varint_round_trip(x: u64)
    ensures
        varint_value(varint(x)) == x,
        varint(x).len() >= 1,
    decreases x,
{
    if x >= 128 {
        lemma_varint_round_trip(x / 128);
        let b = varint(x);
        assert(b.drop_first() =~= varint(x / 128));
    }
}

/// Relies on transformable's `encode_u64_varint` (dbutils' LEB128 writer):
/// the LEB128 bytes of `x` go to the start of `buf` and their number comes
/// back, or the buffer is too short for them.
#[verifier::external_body]
fn encode_varint(x: u64, buf: &mut Vec<u8>) -> (r: Result<usize, transformable::utils::InsufficientBuffer>)
    ensures
        final(buf)@.len() == old(buf)@.len(),
        r is Ok <==> varint(x).len() <= old(buf)@.len(),
        r matches Ok(n) ==> n == varint(x).len() && final(buf)@ == varint(x) + old(buf)@.skip(
            n as int,
        ),
{
    transformable::utils::encode_u64_varint(x, buf.as_mut_slice())
}

/// Relies on transformable's `encoded_u64_varint_len`: the number of LEB128
/// bytes of `x`.
#[verifier::external_body]
fn varint_len(x: u64) -> (r: usize)
    ensures
        r == varint(x).len(),
{
    transformable::utils::encoded_u64_varint_len(x)
}

/// Whether `b` starts with the LEB128 bytes of `x`.
pub open spec fn starts_with_varint(b: Seq<u8>, x: u64) -> bool {
    varint(x).len() <= b.len() && b.take(varint(x).len() as int) == varint(x)
}

/// Whether a decode gave `x`, having read its LEB128 bytes.
pub open spec fn decoded_as(r: VarintDecoded, x: u64) -> bool {
    r matches Ok((n, v)) && n == varint(x).len() && v == x
}

/// Whether a successful decode read at least one byte and no more than `len`.
pub open spec fn decoded_within(r: VarintDecoded, len: nat) -> bool {
    r matches Ok((n, v)) ==> 1 <= n <= len
}

/// The number of bytes read and the value, or the outside decode error.
pub type VarintDecoded = Result<(usize, u64), transformable::utils::DecodeVarintError>;

/// Relies on transformable's `decode_u64_varint` (dbutils' LEB128 reader):
/// bytes that start with the LEB128 bytes of a value decode to that value
/// and their number; whatever it reads lies within `src`.
#[verifier::external_body]
fn decode_varint(src: &Vec<u8>) -> (r: VarintDecoded)
    ensures
        forall|x: u64|
            #[trigger] starts_with_varint(src@, x) ==> decoded_as(r, x),
        decoded_within(r, src@.len()),
{
    transformable::utils::decode_u64_varint(src.as_slice())
}

/// Error of the LEB128 form of a Lamport time.
pub enum LamportTimeTransformError {
    /// The buffer is too short for the encoded time.
    Encode(transformable::utils::InsufficientBuffer),
    /// The bytes do not hold an encoded time.
    Decode(transformable::utils::DecodeVarintError),
}

impl LamportTime {
    /// Writes the LEB128 bytes of the time at the start of `dst` and returns
    /// their number; fails when `dst` is too short.
    pub fn encode(&self, dst: &mut Vec<u8>) -> (r: Result<usize, LamportTimeTransformError>)
        ensures
            final(dst)@.len() == old(dst)@.len(),
            r is Ok <==> varint(self.0).len() <= old(dst)@.len(),
            r matches Ok(n) ==> n == varint(self.0).len() && final(dst)@ == varint(self.0) + old(
                dst,
            )@.skip(n as int),
    {
        match encode_varint(self.0, dst) {
            Ok(n) => Ok(n),
            Err(e) => Err(LamportTimeTransformError::Encode(e)),
        }
    }

    /// The number of bytes `encode` writes.
    pub fn encoded_len(&self) -> (r: usize)
        ensures
            r == varint(self.0).len(),
    {
        varint_len(self.0)
    }

    /// Reads a time from the LEB128 bytes at the start of `src`, with the
    /// number of bytes read.
    pub fn decode(src: &Vec<u8>) -> (r: Result<(usize, LamportTime), LamportTimeTransformError>)
        ensures
            forall|x: u64|
                #[trigger] starts_with_varint(src@, x) ==> (r matches Ok((n, t)) && n == varint(
                    x,
                ).len() && t.0 == x),
            r matches Ok((n, t)) ==> 1 <= n <= src@.len(),
    {
        match decode_varint(src) {
            Ok((n, x)) => Ok((n, LamportTime(x))),
            Err(e) => Err(LamportTimeTransformError::Decode(e)),
        }
    }
}

/// A monotone logical clock.
#[derive(Debug, Clone)]
pub struct LamportClock {
    counter: u64,
}

impl LamportClock {
    pub closed spec fn value(&self) -> u64 {
        self.counter
    }

    /// Creates a clock at zero.
    pub fn new() -> (r: LamportClock)
        ensures
            r.value() == 0,
    {
        LamportClock { counter: 0 }
    }

    /// Creates a clock at the given time.
    pub fn with_time(t: LamportTime) -> (r: LamportClock)
        ensures
            r.value() == t.0,
    {
        LamportClock { counter: t.0 }
    }

    /// The current time.
    pub fn time(&self) -> (r: LamportTime)
        ensures
            r.0 == self.value(),
    {
        LamportTime(self.counter)
    }

    /// Advances the clock by one and returns the new time.
    pub fn increment(&mut self) -> (r: LamportTime)
        requires
            old(self).value() < u64::MAX,
        ensures
            final(self).value() == old(self).value() + 1,
            r.0 == final(self).value(),
    {
        self.counter = self.counter + 1;
        LamportTime(self.counter)
    }

    /// Takes in a time seen from another process: when it is at or past the
    /// local time, the clock moves to one past it; otherwise nothing changes.
    pub fn witness(&mut self, time: LamportTime)
        requires
            time.0 < u64::MAX,
        ensures
            final(self).value() == witnessed(old(self).value(), time.0),
    {
        if time.0 >= self.counter {
            self.counter = time.0 + 1;
        }
    }
}

/// The clock value after witnessing `t` at local time `cur`.
pub open spec fn witnessed(cur: u64, t: u64) -> u64 {
    if t >= cur {
        (t + 1) as u64
    } else {
        cur
    }
}

impl Default for LamportClock {
    fn default() -> (r: LamportClock)
        ensures
            r.value() == 0,
    {
        LamportClock::new()
    }
}

/// Witnessing never moves a clock back, and leaves it past the witnessed time.
pub proof fn lemma_witness_monotone(cur: u64, t: u64)
    requires
        t < u64::MAX,
    ensures
        witnessed(cur, t) >= cur,
        witnessed(cur, t) > t,
{
}

/// The big-endian bytes of a time read back give the same time, and the
/// same holds of the little-endian bytes.
pub proof fn lemma_bytes_round_trip(x: u64)
    ensures
        from_be(be_bytes(x)) == x,
        from_le(le_bytes(x)) == x,
{
    let b = be_bytes(x);
    assert(b.len() == 8);
    assert(((((x >> 56u64) as u8) as u64) << 56u64) | ((((x >> 48u64) as u8) as u64) << 48u64)
        | ((((x >> 40u64) as u8) as u64) << 40u64) | ((((x >> 32u64) as u8) as u64) << 32u64)
        | ((((x >> 24u64) as u8) as u64) << 24u64) | ((((x >> 16u64) as u8) as u64) << 16u64)
        | ((((x >> 8u64) as u8) as u64) << 8u64) | ((x as u8) as u64) == x) by (bit_vector);
    assert(le_bytes(x).reverse() =~= be_bytes(x));
}

} // verus!
