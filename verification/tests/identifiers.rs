use blob_id_set::BlobId;
use blob_id_set::ID_LEN;

#[test]
fn bytes_round_trip() {
    let mut raw = [0u8; ID_LEN];
    for (i, b) in raw.iter_mut().enumerate() {
        *b = i as u8;
    }
    let x = BlobId::new(raw);
    assert_eq!(*x.bytes(), raw);
}

#[test]
fn partition_key_is_first_byte() {
    let mut raw = [0u8; ID_LEN];
    raw[0] = 0xab;
    let x = BlobId::new(raw);
    assert_eq!(x.partition_key(), 0xab);
}

#[test]
fn equality_is_byte_for_byte() {
    let mut raw = [0u8; ID_LEN];
    raw[0] = 0x05;
    let x = BlobId::new(raw);
    let y = BlobId::new(raw);
    assert!(x.equals(&y));
    raw[ID_LEN - 1] = 0x01;
    let z = BlobId::new(raw);
    assert!(!x.equals(&z));
}
