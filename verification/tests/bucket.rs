use mehdb::bucket::{normalize_key, Bucket, Record};

#[test]
fn can_insert_and_index_bucket() {
    let mut bucket = Bucket::new();
    let index = match bucket.put(123, 456, 0) {
        Err(e) => panic!("Unable to insert record: {:?}", e),
        Ok(i) => i,
    };
    // Insert another record to make sure we don't upset the index of the
    // already inserted record
    bucket.put(789, 666, 0).unwrap();
    // Check that we can index it
    let record = bucket.at(index);
    assert_eq!(record.hash_key, 123);
    assert_eq!(record.value, 456);
    // Check that we can .get the value
    let record = bucket.get(123).unwrap();
    assert_eq!(record.hash_key, 123);
    assert_eq!(record.value, 456);
}

#[test]
fn can_put_and_get_records_from_bucket() {
    let mut bucket = Bucket::new();
    for i in 1..=16 {
        match bucket.put(i * 60, i * 2, 0) {
            Err(e) => panic!("Unable to insert record: {:?}", e),
            Ok(o) => o,
        };
    }
    // Bucket overflow
    match bucket.put(1234, 666, 0) {
        Ok(_) => panic!("Bucket should have overflown, but didn't"),
        Err(_e) => (),
    }
    for i in 1..=16 {
        let record = match bucket.get(i * 60) {
            None => panic!("Unable to fetch record from bucket"),
            Some(r) => r,
        };
        assert_eq!(record.hash_key, i * 60);
        assert_eq!(record.value, i * 2);
    }
}

#[test]
fn can_overwrite_soft_deleted_record() {
    let mut bucket = Bucket::new();
    let hash_key: u64 = 0xF000000000000000;
    let i = bucket.put(123, 456, 0).unwrap();
    assert_eq!(i, 0);
    let new_index = bucket.put(hash_key, 666, 1).unwrap();
    // Check that we overwrote the existing value because we now look at the
    // first MSB (local_depth=1 vs local_depth=0). This is because we "soft
    // delete" during segment splitting
    assert_eq!(i, new_index);
}

#[test]
fn can_iterate_over_bucket() {
    let mut bucket = Bucket::new();
    for i in 1..=16 {
        match bucket.put(i * 60, i * 2, 0) {
            Err(e) => panic!("Unable to insert record: {:?}", e),
            Ok(o) => o,
        };
    }
    let mut it = bucket.iter();
    let mut i = 0;
    while let Some(r) = it.next() {
        i += 1;
        assert_eq!((i * 60) as u64, r.hash_key);
        assert_eq!((i * 2) as u64, r.value);
    }
    assert_eq!(i, 16);
}

#[test]
fn record_can_go_to_from_bytes() {
    let record = Record { hash_key: 0xF000000000000000, value: 1234 };
    let bytes = record.to_bytes();
    let de_record = Record::from_bytes(&bytes);
    assert_eq!(de_record.hash_key, record.hash_key);
    assert_eq!(de_record.value, record.value);
}

#[test]
fn record_sizes_are_eight_bytes_each() {
    assert_eq!(Record::hash_key_size(), 8);
    assert_eq!(Record::value_size(), 8);
    let r = Record { hash_key: 1, value: 2 };
    assert_eq!(r.to_bytes().len(), 16);
}

#[test]
fn bucket_round_trips_through_bytes() {
    let mut bucket = Bucket::new();
    bucket.put(0x0102030405060708, 42, 0).unwrap();
    bucket.put(0x1111111111111111, 7, 0).unwrap();
    let bytes = bucket.to_bytes();
    assert_eq!(bytes.len(), 256);
    // little-endian hash word of slot 0
    assert_eq!(&bytes[0..8], &[0x08, 0x07, 0x06, 0x05, 0x04, 0x03, 0x02, 0x01]);
    assert_eq!(bytes[8], 42);
    let again = Bucket::from_bytes(77, &bytes);
    assert_eq!(again.offset, 77);
    assert_eq!(again.to_bytes(), bytes);
    assert_eq!(again.get(0x1111111111111111).unwrap().value, 7);
}

#[test]
fn update_in_place_wins_over_reclaimable_slot() {
    let mut bucket = Bucket::new();
    // slot 0 will become soft-deleted at depth 1; slot 1 holds the key
    bucket.put(0xF000000000000000, 1, 0).unwrap();
    let i = bucket.put(0x0000000000000F00, 2, 0).unwrap();
    assert_eq!(i, 1);
    // an update of the existing key lands on its own slot, not on the
    // reclaimable slot before it
    let j = bucket.put(0x0000000000000F00, 3, 1).unwrap();
    assert_eq!(j, 1);
    assert_eq!(bucket.get(0x0000000000000F00).unwrap().value, 3);
}

#[test]
fn normalize_key_takes_top_bits() {
    assert_eq!(normalize_key(0xF000000000000000, 0), 0);
    assert_eq!(normalize_key(0xF000000000000000, 1), 1);
    assert_eq!(normalize_key(0xF000000000000000, 4), 0xF);
    assert_eq!(normalize_key(0x8000000000000001, 64), 0x8000000000000001);
}

#[test]
fn split_off_takes_records_of_the_sibling_mask() {
    let mut bucket = Bucket::new();
    bucket.put(0x8000000000000001, 10, 0).unwrap();
    bucket.put(0x0000000000000002, 20, 0).unwrap();
    bucket.put(0x8000000000000003, 30, 0).unwrap();
    // at new depth 1 the sibling mask 1 selects the records whose top bit
    // is set, in slot order
    let sibling = bucket.split_off(1, 1);
    assert_eq!(sibling.at(0).hash_key, 0x8000000000000001);
    assert_eq!(sibling.at(0).value, 10);
    assert_eq!(sibling.at(1).hash_key, 0x8000000000000003);
    assert_eq!(sibling.at(1).value, 30);
    assert_eq!(sibling.at(2).hash_key, 0);
    assert_eq!(sibling.at(2).value, 0);
    assert!(sibling.get(0x0000000000000002).is_none());
}
