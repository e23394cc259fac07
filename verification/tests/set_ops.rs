use blob_id_set::BlobId;
use blob_id_set::BlobIdSet;
use blob_id_set::ID_LEN;

/// An identifier with the given first and last byte, zero in between.
fn id(first: u8, last: u8) -> BlobId {
    let mut bytes = [0u8; ID_LEN];
    bytes[0] = first;
    bytes[ID_LEN - 1] = last;
    BlobId::new(bytes)
}

#[test]
fn new_set_is_empty() {
    let s = BlobIdSet::new();
    assert_eq!(s.len(), 0);
    assert!(!s.contains(&id(0x00, 0x01)));
}

#[test]
fn insert_is_idempotent() {
    let mut s = BlobIdSet::new();
    let x = id(0x2a, 0x07);
    assert!(s.insert(x));
    assert!(!s.insert(x));
    assert!(s.contains(&x));
    assert_eq!(s.len(), 1);
}

#[test]
fn inserts_on_different_partitions_commute() {
    let x = id(0x00, 0x11);
    let y = id(0xff, 0x22);

    let mut s = BlobIdSet::new();
    assert!(s.insert(x));
    assert!(s.insert(y));

    let mut t = BlobIdSet::new();
    assert!(t.insert(y));
    assert!(t.insert(x));

    for set in [&s, &t] {
        assert!(set.contains(&x));
        assert!(set.contains(&y));
        assert_eq!(set.len(), 2);
    }
}

#[test]
fn len_counts_distinct_identifiers() {
    let mut s = BlobIdSet::new();
    let inserted = [
        id(0x01, 0x01),
        id(0x02, 0x02),
        id(0x01, 0x01),
        id(0x03, 0x03),
        id(0x02, 0x02),
        id(0x01, 0x01),
    ];
    for x in inserted {
        s.insert(x);
    }
    assert_eq!(s.len(), 3);
}

#[test]
fn membership_is_accurate_and_stable() {
    let mut s = BlobIdSet::new();
    let kept = id(0x10, 0x01);
    let never = id(0x10, 0x02);
    assert!(!s.contains(&kept));
    assert!(!s.contains(&never));
    assert!(s.insert(kept));
    for last in 0x03..0x40u8 {
        s.insert(id(0x10, last));
        s.insert(id(0x90, last));
    }
    assert!(s.contains(&kept));
    assert!(!s.contains(&never));
}

#[test]
fn repeated_insert_has_a_single_winner() {
    let mut s = BlobIdSet::new();
    let x = id(0x77, 0x55);
    let mut wins: usize = 0;
    for _ in 0..8 {
        if s.insert(x) {
            wins += 1;
        }
    }
    assert_eq!(wins, 1);
    assert!(s.contains(&x));
    assert_eq!(s.len(), 1);
}

#[test]
fn scenario_shared_and_distinct_partition_keys() {
    let a = id(0x00, 0x01);
    let b = id(0xff, 0x02);
    let c = id(0x00, 0x03);

    let mut s = BlobIdSet::new();
    assert!(s.insert(a));
    assert!(s.insert(c));
    assert!(!s.insert(a));
    assert!(!s.contains(&b));
    assert_eq!(s.len(), 2);
    assert!(s.insert(b));
    assert_eq!(s.len(), 3);
}
