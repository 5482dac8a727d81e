use golomb_set::{golomb_decode, golomb_encode, BitStream, GcsError};

/// Decode a hand-built bitstream: unary quotient 1, ten-bit remainder 0,
/// with p = 10, stands for the single value 1024.
#[test]
fn decode_hand_built_codeword() {
    let mut bs = BitStream::new();
    bs.push(true);
    bs.push(false);
    for _ in 0..10 {
        bs.push(false);
    }
    let vals = golomb_decode(&bs, 10).unwrap();
    assert_eq!(vals, vec![1024]);
}

/// The codeword of 9 with p = 2: quotient 2 in unary, then remainder 1 in
/// two bits: `1 1 0 0 1`.
#[test]
fn encode_bit_pattern() {
    let bs = golomb_encode(9, 2).unwrap();
    assert_eq!(bs.len(), 5);
    let expected = [true, true, false, false, true];
    for (i, want) in expected.iter().enumerate() {
        assert_eq!(bs.get(i), *want);
    }
}

/// A zero quotient still carries its terminator bit.
#[test]
fn encode_zero_quotient_has_terminator() {
    let bs = golomb_encode(3, 3).unwrap();
    // 0 terminator, then 011.
    assert_eq!(bs.len(), 4);
    assert_eq!(bs.get(0), false);
    assert_eq!(bs.get(1), false);
    assert_eq!(bs.get(2), true);
    assert_eq!(bs.get(3), true);
}

#[test]
fn round_trip_single_values() {
    let cases: [(u64, u8); 8] = [
        (0, 1),
        (1, 1),
        (2, 1),
        (7, 3),
        (1024, 10),
        (12345, 5),
        (4611686018427387903, 62),
        (u64::MAX, 63),
    ];
    for (value, p) in cases.iter() {
        let bs = golomb_encode(*value, *p).unwrap();
        let vals = golomb_decode(&bs, *p).unwrap();
        assert_eq!(vals, vec![*value]);
    }
}

/// Decoding is deterministic: the same stream decoded twice yields the same
/// sequence.
#[test]
fn decode_twice_same_sequence() {
    let mut bs = golomb_encode(99, 4).unwrap();
    let more = golomb_encode(3, 4).unwrap();
    bs.extend_from(&more);
    let first = golomb_decode(&bs, 4).unwrap();
    let second = golomb_decode(&bs, 4).unwrap();
    assert_eq!(first, second);
    assert_eq!(first, vec![99, 3]);
}

#[test]
fn encode_rejects_invalid_width() {
    assert!(matches!(golomb_encode(5, 0), Err(GcsError::InvalidParameter)));
    assert!(matches!(golomb_encode(5, 64), Err(GcsError::InvalidParameter)));
}

#[test]
fn decode_rejects_invalid_width() {
    let bs = BitStream::new();
    assert_eq!(golomb_decode(&bs, 0).unwrap_err(), GcsError::InvalidParameter);
    assert_eq!(golomb_decode(&bs, 64).unwrap_err(), GcsError::InvalidParameter);
}

/// A stream that ends inside the unary run is malformed.
#[test]
fn decode_rejects_cut_unary_run() {
    let mut bs = BitStream::new();
    bs.push(true);
    assert_eq!(golomb_decode(&bs, 2).unwrap_err(), GcsError::MalformedStream);
}

/// A stream that ends inside the remainder field is malformed.
#[test]
fn decode_rejects_cut_remainder() {
    let mut bs = BitStream::new();
    bs.push(false);
    bs.push(true);
    bs.push(true);
    assert_eq!(golomb_decode(&bs, 10).unwrap_err(), GcsError::MalformedStream);
}

/// An empty stream stands for no values at all.
#[test]
fn decode_empty_stream() {
    let bs = BitStream::new();
    assert_eq!(golomb_decode(&bs, 10).unwrap(), Vec::<u64>::new());
}

/// Packing to bytes pads the last byte with zero bits.
#[test]
fn stream_to_bytes_pads_with_zeros() {
    let mut bs = BitStream::new();
    bs.push(true);
    bs.push(false);
    bs.push(true);
    assert_eq!(bs.to_bytes(), vec![0b1010_0000u8]);
}
