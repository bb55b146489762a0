use ruserf_core::clock::{LamportClock, LamportTime};

#[test]
fn test_lamport_clock() {
    let mut l = LamportClock::new();

    assert_eq!(l.time(), 0.into());
    assert_eq!(l.increment(), 1.into());
    assert_eq!(l.time(), 1.into());

    l.witness(41.into());
    assert_eq!(l.time(), 42.into());

    l.witness(41.into());
    assert_eq!(l.time(), 42.into());

    l.witness(30.into());
    assert_eq!(l.time(), 42.into());
}

#[test]
fn witness_never_moves_the_clock_back() {
    let mut l = LamportClock::with_time(LamportTime::new(100));
    l.witness(LamportTime::new(5));
    assert_eq!(l.time(), LamportTime::new(100));
    l.witness(LamportTime::new(100));
    assert_eq!(l.time(), LamportTime::new(101));
    l.witness(LamportTime::new(0));
    assert_eq!(l.time(), LamportTime::new(101));
}

#[test]
fn default_clock_starts_at_zero() {
    let l = LamportClock::default();
    assert_eq!(l.time(), LamportTime::new(0));
}

#[test]
fn byte_arrays_round_trip() {
    let t = LamportTime::new(0x0102_0304_0506_0708);
    assert_eq!(t.to_be_bytes(), [1, 2, 3, 4, 5, 6, 7, 8]);
    assert_eq!(t.to_le_bytes(), [8, 7, 6, 5, 4, 3, 2, 1]);
    assert_eq!(LamportTime::from_be_bytes(t.to_be_bytes()), t);
    assert_eq!(LamportTime::from_le_bytes(t.to_le_bytes()), t);
    assert_eq!(u64::from(LamportTime::from(7u64)), 7);
}

#[test]
fn varint_encoding_of_a_time() {
    let t = LamportTime::new(300);
    assert_eq!(t.encoded_len(), 2);
    let mut buf = vec![0u8; 4];
    let n = t.encode(&mut buf).ok().unwrap();
    assert_eq!(n, 2);
    assert_eq!(buf, vec![0xAC, 0x02, 0, 0]);
    let (read, back) = LamportTime::decode(&buf).ok().unwrap();
    assert_eq!(read, 2);
    assert_eq!(back, t);
}

#[test]
fn varint_round_trip_of_large_times() {
    for x in [0u64, 1, 127, 128, 16_383, 16_384, u64::MAX / 3, u64::MAX] {
        let t = LamportTime::new(x);
        let mut buf = vec![0u8; 10];
        let n = t.encode(&mut buf).ok().unwrap();
        assert_eq!(n, t.encoded_len());
        let (read, back) = LamportTime::decode(&buf).ok().unwrap();
        assert_eq!(read, n);
        assert_eq!(back, t);
    }
    assert_eq!(LamportTime::new(u64::MAX).encoded_len(), 10);
}

#[test]
fn varint_encode_into_short_buffer_fails() {
    let t = LamportTime::new(1 << 20);
    let mut buf = vec![0u8; 2];
    assert!(t.encode(&mut buf).is_err());
    assert_eq!(buf.len(), 2);
}

#[test]
fn varint_decode_of_truncated_bytes_fails() {
    assert!(LamportTime::decode(&vec![0x80]).is_err());
    assert!(LamportTime::decode(&vec![]).is_err());
}
