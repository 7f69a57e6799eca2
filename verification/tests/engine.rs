use highway::{HighwayHash, HighwayHasher, Key};
use mehdb::directory::{Directory, DirectoryDecodeError};
use mehdb::meh::{MehDB, SEED0, SEED1, SEED2, SEED3};
use mehdb::serializer::{ByteKey, ByteValue};
use mehdb::store::{SegmentStore, StoreDecodeError};

fn words_of(data: &[u8]) -> [u64; 4] {
    HighwayHasher::new(Key([SEED0, SEED1, SEED2, SEED3])).hash256(data)
}

fn key_bytes(i: u64) -> Vec<u8> {
    i.to_le_bytes().to_vec()
}

/// Fresh open of an empty directory: one zeroed segment, a five-byte
/// directory, and no key present.
#[test]
fn fresh_open_layout() {
    let db = MehDB::new();
    let seg = db.store_bytes();
    assert_eq!(seg.len(), 4 + 16385);
    assert_eq!(&seg[0..4], &[1, 0, 0, 0]); // num_segments = 1
    assert_eq!(seg[4], 0); // segment 0 depth = 0
    assert!(seg[5..].iter().all(|&b| b == 0)); // all buckets zeroed
    let dir = db.directory_bytes();
    assert_eq!(dir, vec![0x00, 0x00, 0x00, 0x00, 0x00]);
    assert_eq!(db.get(ByteKey(key_bytes(12345))), None);
    assert_eq!(db.get(ByteKey(Vec::new())), None);
}

/// The engine's records carry the same hash word that highway computes
/// for the key outside the engine.
#[test]
fn stored_hash_matches_highway() {
    let mut db = MehDB::new();
    let key = b"some key".to_vec();
    let w = words_of(&key);
    db.put(ByteKey(key.clone()), ByteValue(99)).unwrap();
    let rec = db.get(ByteKey(key)).unwrap();
    assert_eq!(rec.hash_key, w[0]);
    assert_eq!(rec.value, 99);
}

/// Seventeen keys all hashing into bucket 0 of segment 0: the first 16
/// fit; the 17th splits the segment, growing the directory to depth 1 and
/// appending a sibling of depth 1 that the upper slot points at.
#[test]
fn seventeen_keys_in_bucket_zero_split() {
    // pick 17 keys whose hashes land in bucket 0, making sure both values
    // of the top hash bit appear among the first 16 so one split suffices
    let mut keys: Vec<u64> = Vec::new();
    let mut i: u64 = 0;
    loop {
        let w = words_of(&key_bytes(i));
        if w[3] % 64 == 0 {
            keys.push(i);
            if keys.len() == 17 {
                let top_ones = keys[..16]
                    .iter()
                    .filter(|&&k| words_of(&key_bytes(k))[0] >> 63 == 1)
                    .count();
                if top_ones > 0 && top_ones < 16 {
                    break;
                }
                keys.remove(0);
            }
        }
        i += 1;
    }
    let mut db = MehDB::new();
    for (n, &k) in keys[..16].iter().enumerate() {
        db.put(ByteKey(key_bytes(k)), ByteValue(n as u64 + 1)).unwrap();
    }
    // still a single segment of depth 0
    assert_eq!(db.directory_bytes(), vec![0, 0, 0, 0, 0]);
    assert_eq!(db.store_bytes().len(), 4 + 16385);
    // the 17th triggers the split
    db.put(ByteKey(key_bytes(keys[16])), ByteValue(17)).unwrap();
    let dir = db.directory_bytes();
    assert_eq!(dir.len(), 9); // depth byte + two u32 entries
    assert_eq!(dir[0], 1); // global depth 1
    assert_eq!(&dir[1..5], &[0, 0, 0, 0]); // lower slot: old segment
    assert_eq!(&dir[5..9], &[1, 0, 0, 0]); // upper slot: new segment
    let seg = db.store_bytes();
    assert_eq!(seg.len(), 4 + 2 * 16385);
    assert_eq!(&seg[0..4], &[2, 0, 0, 0]); // two segments now
    assert_eq!(seg[4], 1); // old segment's depth bumped to 1
    assert_eq!(seg[4 + 16385], 1); // new segment has depth 1
    // all 17 keys are retrievable
    for (n, &k) in keys.iter().enumerate() {
        let rec = db.get(ByteKey(key_bytes(k))).unwrap();
        assert_eq!(rec.value, n as u64 + 1);
    }
}

/// Soft-delete reclamation: after a split, a new key landing in a bucket
/// with a soft-deleted slot takes exactly that slot.
#[test]
fn soft_deleted_slot_is_reclaimed() {
    // replay the split scenario
    let mut keys: Vec<u64> = Vec::new();
    let mut i: u64 = 0;
    loop {
        let w = words_of(&key_bytes(i));
        if w[3] % 64 == 0 {
            keys.push(i);
            if keys.len() == 17 {
                let top_ones = keys[..16]
                    .iter()
                    .filter(|&&k| words_of(&key_bytes(k))[0] >> 63 == 1)
                    .count();
                if top_ones > 0 && top_ones < 16 {
                    break;
                }
                keys.remove(0);
            }
        }
        i += 1;
    }
    let mut db = MehDB::new();
    for &k in &keys {
        db.put(ByteKey(key_bytes(k)), ByteValue(k + 1)).unwrap();
    }
    // a fresh key for bucket 0 of the old segment: top hash bit 0
    let mut j: u64 = i + 1;
    let fresh = loop {
        let w = words_of(&key_bytes(j));
        if w[3] % 64 == 0 && w[0] >> 63 == 0 && !keys.contains(&j) {
            break j;
        }
        j += 1;
    };
    // bucket 0 of segment 0 sits at bytes 5..261 of the segment file; find
    // its first soft-deleted slot (a record that moved to the sibling)
    let before = db.store_bytes();
    let bucket = &before[5..5 + 256];
    let stale_slot = (0..16)
        .find(|&s| {
            let hk = u64::from_le_bytes(bucket[s * 16..s * 16 + 8].try_into().unwrap());
            hk >> 63 == 1
        })
        .expect("the split must leave a soft-deleted record behind");
    let w = words_of(&key_bytes(fresh));
    db.put(ByteKey(key_bytes(fresh)), ByteValue(4242)).unwrap();
    let after = db.store_bytes();
    let bucket = &after[5..5 + 256];
    let hk = u64::from_le_bytes(bucket[stale_slot * 16..stale_slot * 16 + 8].try_into().unwrap());
    let val = u64::from_le_bytes(bucket[stale_slot * 16 + 8..stale_slot * 16 + 16].try_into().unwrap());
    assert_eq!(hk, w[0]);
    assert_eq!(val, 4242);
    assert_eq!(db.get(ByteKey(key_bytes(fresh))).unwrap().value, 4242);
}

/// Idempotent re-put: the same pair twice reads back once, with exactly
/// one live record carrying the key's hash.
#[test]
fn idempotent_reput_keeps_one_record() {
    let mut db = MehDB::new();
    let key = b"repeat me".to_vec();
    let w = words_of(&key);
    db.put(ByteKey(key.clone()), ByteValue(7)).unwrap();
    db.put(ByteKey(key.clone()), ByteValue(7)).unwrap();
    assert_eq!(db.get(ByteKey(key)).unwrap().value, 7);
    // scan every record slot of the store for the key's hash word
    let seg = db.store_bytes();
    let mut live = 0;
    let num = u32::from_le_bytes(seg[0..4].try_into().unwrap()) as usize;
    for s in 0..num {
        let base = 4 + s * 16385 + 1;
        for r in 0..64 * 16 {
            let off = base + r * 16;
            let hk = u64::from_le_bytes(seg[off..off + 8].try_into().unwrap());
            if hk == w[0] {
                live += 1;
            }
        }
    }
    assert_eq!(live, 1);
}

/// Updating a key replaces its value; a missing key stays missing.
#[test]
fn put_updates_and_get_misses() {
    let mut db = MehDB::new();
    db.put(ByteKey(key_bytes(5)), ByteValue(50)).unwrap();
    db.put(ByteKey(key_bytes(5)), ByteValue(51)).unwrap();
    assert_eq!(db.get(ByteKey(key_bytes(5))).unwrap().value, 51);
    assert_eq!(db.get(ByteKey(key_bytes(6))), None);
}

/// A million keys: every one reads back with its own value.
#[test]
fn million_keys_all_read_back() {
    let mut db = MehDB::new();
    const N: u64 = 1_000_000;
    for i in 0..N {
        db.put(ByteKey(key_bytes(i)), ByteValue(i * 2)).unwrap();
    }
    for i in 0..N {
        assert_eq!(db.get(ByteKey(key_bytes(i))).unwrap().value, i * 2);
    }
}

/// Persistence: after the store and directory are serialized, decoded,
/// and reopened, the same read pass gives the same answers.
#[test]
fn reopen_preserves_every_key() {
    let mut db = MehDB::new();
    const N: u64 = 100_000;
    for i in 0..N {
        db.put(ByteKey(key_bytes(i)), ByteValue(i * 2)).unwrap();
    }
    let dir_bytes = db.directory_bytes();
    let seg_bytes = db.store_bytes();
    let directory = Directory::from_bytes(&dir_bytes).unwrap();
    let store = SegmentStore::from_bytes(&seg_bytes).unwrap();
    let db2 = MehDB::open(directory, store).unwrap();
    for i in 0..N {
        assert_eq!(db2.get(ByteKey(key_bytes(i))).unwrap().value, i * 2);
    }
}

/// Decoding rejects malformed directory images, naming the reason.
#[test]
fn directory_decode_errors() {
    assert!(matches!(Directory::from_bytes(&[]), Err(DirectoryDecodeError::Empty)));
    assert!(matches!(Directory::from_bytes(&[40]), Err(DirectoryDecodeError::DepthTooLarge)));
    assert!(matches!(Directory::from_bytes(&[0, 0, 0]), Err(DirectoryDecodeError::WrongLength)));
    assert!(Directory::from_bytes(&[0, 0, 0, 0, 0]).is_ok());
}

/// Decoding rejects malformed segment-file images, naming the reason.
#[test]
fn store_decode_errors() {
    assert!(matches!(SegmentStore::from_bytes(&[1, 0]), Err(StoreDecodeError::TooShort)));
    assert!(matches!(SegmentStore::from_bytes(&[0, 0, 0, 0]), Err(StoreDecodeError::BadCount)));
    assert!(matches!(
        SegmentStore::from_bytes(&[1, 0, 0, 0, 9, 9]),
        Err(StoreDecodeError::WrongLength)
    ));
    let fresh = MehDB::new().store_bytes();
    assert!(SegmentStore::from_bytes(&fresh).is_ok());
}

/// Opening rejects a directory that routes to an unallocated segment.
#[test]
fn open_rejects_inconsistent_layout() {
    // a depth-0 directory whose single slot names segment 7
    let directory = Directory::from_bytes(&[0, 7, 0, 0, 0]).unwrap();
    let store = SegmentStore::from_bytes(&MehDB::new().store_bytes()).unwrap();
    assert!(MehDB::open(directory, store).is_err());
}

/// The hash word 0 with the value 0 writes the on-disk empty record, so
/// it erases the cell; any other value under hash 0 is still readable.
#[test]
fn zero_hash_identity_behaves_as_erase() {
    let mut db = MehDB::new();
    db.put_hashed(0, 0, 5).unwrap();
    let rec = db.get_hashed(0, 0).unwrap();
    assert_eq!(rec.hash_key, 0);
    assert_eq!(rec.value, 5);
    db.put_hashed(0, 0, 0).unwrap();
    assert_eq!(db.get_hashed(0, 0), None);
}

/// Disjoint keys can be inserted in any order: both orders answer every
/// key identically.
#[test]
fn insertion_order_does_not_change_answers() {
    let keys: Vec<u64> = (0..500).collect();
    let mut forward = MehDB::new();
    for &k in &keys {
        forward.put(ByteKey(key_bytes(k)), ByteValue(k + 7)).unwrap();
    }
    let mut backward = MehDB::new();
    for &k in keys.iter().rev() {
        backward.put(ByteKey(key_bytes(k)), ByteValue(k + 7)).unwrap();
    }
    for &k in &keys {
        let a = forward.get(ByteKey(key_bytes(k))).unwrap();
        let b = backward.get(ByteKey(key_bytes(k))).unwrap();
        assert_eq!(a.hash_key, b.hash_key);
        assert_eq!(a.value, b.value);
        assert_eq!(a.value, k + 7);
    }
}

/// After a split, every record in the fresh sibling segment carries the
/// sibling's discriminating prefix bit.
#[test]
fn sibling_records_carry_the_discriminant() {
    let mut keys: Vec<u64> = Vec::new();
    let mut i: u64 = 0;
    loop {
        let w = words_of(&key_bytes(i));
        if w[3] % 64 == 0 {
            keys.push(i);
            if keys.len() == 17 {
                let top_ones = keys[..16]
                    .iter()
                    .filter(|&&k| words_of(&key_bytes(k))[0] >> 63 == 1)
                    .count();
                if top_ones > 0 && top_ones < 16 {
                    break;
                }
                keys.remove(0);
            }
        }
        i += 1;
    }
    let mut db = MehDB::new();
    for &k in &keys {
        db.put(ByteKey(key_bytes(k)), ByteValue(1)).unwrap();
    }
    let seg = db.store_bytes();
    assert_eq!(&seg[0..4], &[2, 0, 0, 0]);
    // segment 1 starts at byte 4 + 16385; skip its depth byte
    let base = 4 + 16385 + 1;
    let mut found = 0;
    for r in 0..64 * 16 {
        let off = base + r * 16;
        let hk = u64::from_le_bytes(seg[off..off + 8].try_into().unwrap());
        let val = u64::from_le_bytes(seg[off + 8..off + 16].try_into().unwrap());
        if hk != 0 || val != 0 {
            assert_eq!(hk >> 63, 1);
            found += 1;
        }
    }
    assert!(found > 0);
}
