use golomb_set::{digest_value, golomb_encode, BitStream, Gcs, GcsBuilder, GcsError, Md5Trunc, Md5Whole};

const UUIDS: [&str; 5] = [
    "37c7a4c6-1cf5-4a23-9d4e-7a0b6c8f2e11",
    "c0dd4254-76e1-4b02-ae42-505dcee7a156",
    "5a1b9d0e-3f64-4c7a-8b2d-91e0c4f6a837",
    "e7f3b8c1-2a5d-4e90-b6a4-0d1c2e3f4a5b",
    "8d92e1f0-6b3a-47c5-a1e8-29f0d4b6c7a2",
];

fn build_uuid_set() -> Gcs<Md5Trunc> {
    let mut builder = GcsBuilder::new(5, 10, Md5Trunc).unwrap();
    for u in UUIDS.iter() {
        builder.insert(u.as_bytes()).unwrap();
    }
    builder.build().unwrap()
}

/// The mapped value of a known input under the truncated digest, computed
/// independently: the last four MD5 bytes, right-aligned into eight zero
/// bytes, read big-endian, reduced modulo 5 * 2^10.
#[test]
fn digest_value_truncated_fixture() {
    assert_eq!(digest_value(5, 10, &Md5Trunc, UUIDS[0].as_bytes()), 536);
}

/// The mapped value of a known input under the whole digest: the first eight
/// MD5 bytes read big-endian, reduced modulo 1000 * 2^10.
#[test]
fn digest_value_whole_fixture() {
    assert_eq!(digest_value(1000, 10, &Md5Whole, b"hello"), 633462);
}

/// Five known inputs, n = 5, p = 10, truncated MD5: a fixed byte sequence for
/// the resulting bitstream, and every original input is contained.
#[test]
fn uuid_set_creation_and_query() {
    let gcs = build_uuid_set();
    assert_eq!(gcs.as_bits().to_bytes(), vec![67u8, 10, 54, 111, 3, 44, 96, 0]);
    for u in UUIDS.iter() {
        assert!(gcs.contains(u.as_bytes()));
    }
}

/// The decoded, reconstituted values are the sorted mapped values.
#[test]
fn uuid_set_values_are_sorted_mapped_values() {
    let gcs = build_uuid_set();
    assert_eq!(gcs.values(), vec![536, 1189, 2657, 2758, 3974]);
}

/// Checked insertion succeeds exactly n times, then fails with the capacity
/// error and leaves the builder unchanged.
#[test]
fn insert_enforces_capacity() {
    let mut builder = GcsBuilder::new(3, 10, Md5Trunc).unwrap();
    assert!(builder.insert(b"one").is_ok());
    assert!(builder.insert(b"two").is_ok());
    assert!(builder.insert(b"three").is_ok());
    assert_eq!(builder.insert(b"four"), Err(GcsError::CapacityExceeded));
    assert_eq!(builder.insert(b"five"), Err(GcsError::CapacityExceeded));
}

/// Unchecked insertion never rejects, and a later checked insertion sees the
/// capacity already spent.
#[test]
fn insert_unchecked_ignores_capacity() {
    let mut builder = GcsBuilder::new(1, 10, Md5Trunc).unwrap();
    builder.insert_unchecked(b"one");
    builder.insert_unchecked(b"two");
    assert_eq!(builder.insert(b"three"), Err(GcsError::CapacityExceeded));
    let gcs = builder.build().unwrap();
    assert!(gcs.contains(b"one"));
    assert!(gcs.contains(b"two"));
}

/// Membership depends only on the final multiset of mapped values, not on
/// insertion order: permuted builds serialise identically and answer alike.
#[test]
fn insertion_order_is_irrelevant() {
    let mut a = GcsBuilder::new(5, 10, Md5Trunc).unwrap();
    for u in UUIDS.iter() {
        a.insert(u.as_bytes()).unwrap();
    }
    let mut b = GcsBuilder::new(5, 10, Md5Trunc).unwrap();
    for u in UUIDS.iter().rev() {
        b.insert(u.as_bytes()).unwrap();
    }
    let ga = a.build().unwrap();
    let gb = b.build().unwrap();
    assert_eq!(ga.as_bits().to_bytes(), gb.as_bits().to_bytes());
    for probe in ["one", "two", UUIDS[0], UUIDS[3], "xyz"].iter() {
        assert_eq!(ga.contains(probe.as_bytes()), gb.contains(probe.as_bytes()));
    }
}

/// Querying twice yields the same answer both times.
#[test]
fn contains_is_idempotent() {
    let gcs = build_uuid_set();
    for probe in [UUIDS[0], UUIDS[4], "absent", ""].iter() {
        let first = gcs.contains(probe.as_bytes());
        let second = gcs.contains(probe.as_bytes());
        assert_eq!(first, second);
    }
}

#[test]
fn builder_rejects_invalid_parameters() {
    assert!(matches!(GcsBuilder::new(5, 0, Md5Trunc), Err(GcsError::InvalidParameter)));
    assert!(matches!(GcsBuilder::new(5, 64, Md5Trunc), Err(GcsError::InvalidParameter)));
    assert!(matches!(GcsBuilder::new(0, 10, Md5Trunc), Err(GcsError::InvalidParameter)));
    // 2^60 * 2^10 leaves the 64-bit range.
    assert!(matches!(
        GcsBuilder::new(1u64 << 60, 10, Md5Trunc),
        Err(GcsError::InvalidParameter)
    ));
    assert!(GcsBuilder::new(1u64 << 53, 10, Md5Trunc).is_ok());
}

/// A set assembled from an externally obtained stream answers queries for the
/// values that stream encodes.
#[test]
fn set_from_external_stream() {
    // Deltas 536, 653 stand for the sorted values 536, 1189.
    let mut bits = golomb_encode(536, 10).unwrap();
    let second = golomb_encode(653, 10).unwrap();
    bits.extend_from(&second);
    let gcs = Gcs::new(5, 10, bits, Md5Trunc).unwrap();
    assert_eq!(gcs.values(), vec![536, 1189]);
    // UUIDS[0] maps to 536 under these parameters.
    assert!(gcs.contains(UUIDS[0].as_bytes()));
}

#[test]
fn set_rejects_malformed_stream() {
    let mut bits = BitStream::new();
    bits.push(true);
    assert!(matches!(
        Gcs::new(5, 10, bits, Md5Trunc),
        Err(GcsError::MalformedStream)
    ));
}

#[test]
fn set_rejects_invalid_parameters() {
    let bits = BitStream::new();
    assert!(matches!(
        Gcs::new(0, 10, bits, Md5Trunc),
        Err(GcsError::InvalidParameter)
    ));
}

/// An empty set contains nothing and serialises to no bytes.
#[test]
fn empty_set() {
    let builder = GcsBuilder::new(4, 8, Md5Trunc).unwrap();
    let gcs = builder.build().unwrap();
    assert_eq!(gcs.values(), Vec::<u64>::new());
    assert_eq!(gcs.as_bits().to_bytes(), Vec::<u8>::new());
    assert!(!gcs.contains(b"anything"));
}

/// Duplicate inputs are kept, not deduplicated.
#[test]
fn duplicates_are_kept() {
    let mut builder = GcsBuilder::new(3, 10, Md5Trunc).unwrap();
    builder.insert(b"same").unwrap();
    builder.insert(b"same").unwrap();
    builder.insert(b"same").unwrap();
    let gcs = builder.build().unwrap();
    assert_eq!(gcs.values().len(), 3);
    assert!(gcs.contains(b"same"));
}
