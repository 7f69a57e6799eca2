//! Records and buckets: the leaf storage of the index.

use vstd::bytes::{spec_u64_to_le_bytes, spec_u64_from_le_bytes, u64_to_le_bytes, u64_from_le_bytes};
use vstd::prelude::*;

verus! {

use crate::RECORD_SIZE;

/// A single key/value cell. `hash_key` is the full first word of the key's
/// 256-bit hash; `value` is the caller's payload. The all-zero record marks
/// an empty slot.
#[derive(Clone, Copy, Debug, PartialEq, Eq, Structural)]
pub struct Record {
    pub hash_key: u64,
    pub value: u64,
}

/// The serialized form of a record: both fields as little-endian bytes.
pub open spec fn spec_record_bytes(r: Record) -> Seq<u8> {
    spec_u64_to_le_bytes(r.hash_key) + spec_u64_to_le_bytes(r.value)
}

impl Record {
    /// Bytes taken by the hash word in the serialized form.
    pub fn hash_key_size() -> (n: usize)
        ensures
            n == 8,
    {
        8
    }

    /// Bytes taken by the value in the serialized form.
    pub fn value_size() -> (n: usize)
        ensures
            n == 8,
    {
        8
    }

    /// Serializes the record: hash word first, then the value, little-endian.
    pub fn to_bytes(&self) -> (buf: Vec<u8>)
        ensures
            buf@ == spec_record_bytes(*self),
            buf@.len() == RECORD_SIZE,
    {
        proof {
            vstd::bytes::lemma_auto_spec_u64_to_from_le_bytes();
        }
        let mut buf = u64_to_le_bytes(self.hash_key);
        let mut tail = u64_to_le_bytes(self.value);
        buf.append(&mut tail);
        buf
    }

    /// Reads a record back from its 16-byte serialized form.
    pub fn from_bytes(buf: &[u8]) -> (r: Record)
        requires
            buf@.len() == RECORD_SIZE,
        ensures
            spec_record_bytes(r) == buf@,
            r == (Record {
                hash_key: spec_u64_from_le_bytes(buf@.subrange(0, 8)),
                value: spec_u64_from_le_bytes(buf@.subrange(8, 16)),
            }),
    {
        proof {
            vstd::bytes::lemma_auto_spec_u64_to_from_le_bytes();
        }
        let hash_key = u64_from_le_bytes(vstd::slice::slice_subrange(buf, 0, 8));
        let value = u64_from_le_bytes(vstd::slice::slice_subrange(buf, 8, 16));
        let r = Record { hash_key, value };
        proof {
            assert(spec_record_bytes(r) =~= buf@);
        }
        r
    }
}

/// True of the all-zero record, which marks an unoccupied slot.
pub open spec fn spec_is_empty(r: Record) -> bool {
    r.hash_key == 0 && r.value == 0
}

/// The first slot at or after `i` whose stored hash word equals `hk`.
pub open spec fn spec_find_from(s: Seq<Record>, hk: u64, i: int) -> Option<int>
    decreases s.len() - i,
{
    if i < 0 || i >= s.len() {
        None
    } else if s[i].hash_key == hk {
        Some(i)
    } else {
        spec_find_from(s, hk, i + 1)
    }
}

/// The first slot whose stored hash word equals `hk`.
pub open spec fn spec_find(s: Seq<Record>, hk: u64) -> Option<int> {
    spec_find_from(s, hk, 0)
}

/// What a scan of the bucket returns for `hk`: the record in the first
/// matching slot.
pub open spec fn spec_lookup(s: Seq<Record>, hk: u64) -> Option<Record> {
    match spec_find(s, hk) {
        Some(i) => Some(s[i]),
        None => None,
    }
}

pub proof fn lemma_find_from_props(s: Seq<Record>, hk: u64, i: int)
    requires
        0 <= i <= s.len(),
    ensures
        match spec_find_from(s, hk, i) {
            Some(j) => i <= j < s.len() && s[j].hash_key == hk && (forall|k: int|
                i <= k < j ==> s[k].hash_key != hk),
            None => forall|k: int| i <= k < s.len() ==> s[k].hash_key != hk,
        },
    decreases s.len() - i,
{
    if i < s.len() {
        lemma_find_from_props(s, hk, i + 1);
    }
}

/// A slot that an insertion may take without displacing a live record:
/// either it is empty, or the record it holds no longer belongs to this
/// bucket at the given depth (it was left behind by a split and is only
/// soft-deleted).
pub open spec fn spec_usable(r: Record, hk: u64, local_depth: u64) -> bool {
    spec_is_empty(r) || (local_depth > 0 && crate::prefix::spec_prefix(r.hash_key, local_depth)
        != crate::prefix::spec_prefix(hk, local_depth))
}

/// The first slot at or after `i` that an insertion of `hk` may take.
pub open spec fn spec_find_usable_from(s: Seq<Record>, hk: u64, local_depth: u64, i: int) -> Option<
    int,
>
    decreases s.len() - i,
{
    if i < 0 || i >= s.len() {
        None
    } else if spec_usable(s[i], hk, local_depth) {
        Some(i)
    } else {
        spec_find_usable_from(s, hk, local_depth, i + 1)
    }
}

pub proof fn lemma_find_usable_from_props(s: Seq<Record>, hk: u64, local_depth: u64, i: int)
    requires
        0 <= i <= s.len(),
    ensures
        match spec_find_usable_from(s, hk, local_depth, i) {
            Some(j) => i <= j < s.len() && spec_usable(s[j], hk, local_depth) && (forall|k: int|
                i <= k < j ==> !spec_usable(s[k], hk, local_depth)),
            None => forall|k: int| i <= k < s.len() ==> !spec_usable(s[k], hk, local_depth),
        },
    decreases s.len() - i,
{
    if i < s.len() {
        lemma_find_usable_from_props(s, hk, local_depth, i + 1);
    }
}

/// The slot an insertion of `hk` writes: an exact match is updated in
/// place; otherwise the first empty or soft-deleted slot is taken; if there
/// is neither, the bucket is full.
pub open spec fn spec_insert_slot(s: Seq<Record>, hk: u64, local_depth: u64) -> Option<int> {
    match spec_find(s, hk) {
        Some(i) => Some(i),
        None => spec_find_usable_from(s, hk, local_depth, 0),
    }
}

/// Returned by `Bucket::put` when every slot holds a live record: the
/// caller must split the owning segment before retrying.
#[derive(Clone, Copy, Debug)]
pub struct BucketFullError {
    pub offset: u64,
    pub hash_key: u64,
    pub local_depth: u64,
}

/// A fixed array of 16 record slots, plus the file offset the bucket was
/// read from (so a store can write it back in place).
#[derive(Debug)]
pub struct Bucket {
    pub offset: u64,
    records: Vec<Record>,
}

/// The effective routing key: the top `local_depth` bits of `hk`, or 0
/// before any split has happened.
pub fn normalize_key(hk: u64, local_depth: u64) -> (r: u64)
    requires
        local_depth <= 64,
    ensures
        r == crate::prefix::spec_prefix(hk, local_depth),
{
    crate::prefix::prefix_bits(hk, local_depth)
}

impl Bucket {
    /// The slots as a sequence; all contracts speak of this view.
    pub closed spec fn recs(self) -> Seq<Record> {
        self.records@
    }

    /// The file offset the bucket was read from.
    pub closed spec fn spec_offset(self) -> u64 {
        self.offset
    }

    /// A bucket always holds exactly 16 slots.
    pub open spec fn wf(self) -> bool {
        self.recs().len() == 16
    }

    /// A fresh bucket: 16 empty slots at offset 0.
    pub fn new() -> (b: Bucket)
        ensures
            b.wf(),
            b.spec_offset() == 0,
            forall|i: int| 0 <= i < 16 ==> spec_is_empty(#[trigger] b.recs()[i]),
    {
        let mut records: Vec<Record> = Vec::new();
        let mut i: usize = 0;
        while i < 16
            invariant
                i <= 16,
                records@.len() == i,
                forall|j: int| 0 <= j < i ==> spec_is_empty(#[trigger] records@[j]),
            decreases 16 - i,
        {
            records.push(Record { hash_key: 0, value: 0 });
            i = i + 1;
        }
        Bucket { offset: 0, records }
    }

    /// The record at a slot index.
    pub fn at(&self, index: usize) -> (r: Record)
        requires
            self.wf(),
            index < 16,
        ensures
            r == self.recs()[index as int],
    {
        self.records[index]
    }

    /// Linear scan: the record in the first slot whose hash word is `hk`.
    pub fn get(&self, hk: u64) -> (r: Option<Record>)
        requires
            self.wf(),
        ensures
            r == spec_lookup(self.recs(), hk),
    {
        let ghost s = self.recs();
        let mut i: usize = 0;
        while i < 16
            invariant
                self.wf(),
                s == self.recs(),
                i <= 16,
                spec_find(s, hk) == spec_find_from(s, hk, i as int),
            decreases 16 - i,
        {
            let r = self.records[i];
            if r.hash_key == hk {
                return Some(r);
            }
            i = i + 1;
        }
        None
    }

    /// Where `put` would write, if anywhere: first an exact match, then the
    /// first empty or soft-deleted slot.
    fn maybe_index_to_insert(&self, hk: u64, local_depth: u64) -> (r: Option<usize>)
        requires
            self.wf(),
            local_depth <= 64,
        ensures
            match r {
                Some(i) => Some(i as int) == spec_insert_slot(self.recs(), hk, local_depth) && i
                    < 16,
                None => spec_insert_slot(self.recs(), hk, local_depth) is None,
            },
    {
        let ghost s = self.recs();
        let mut i: usize = 0;
        while i < 16
            invariant
                self.wf(),
                s == self.recs(),
                i <= 16,
                spec_find(s, hk) == spec_find_from(s, hk, i as int),
            decreases 16 - i,
        {
            if self.records[i].hash_key == hk {
                return Some(i);
            }
            i = i + 1;
        }
        let mut i: usize = 0;
        while i < 16
            invariant
                self.wf(),
                s == self.recs(),
                i <= 16,
                local_depth <= 64,
                spec_find(s, hk) is None,
                spec_find_usable_from(s, hk, local_depth, 0) == spec_find_usable_from(
                    s,
                    hk,
                    local_depth,
                    i as int,
                ),
            decreases 16 - i,
        {
            let r = self.records[i];
            let usable = (r.hash_key == 0 && r.value == 0) || (local_depth > 0 && normalize_key(
                r.hash_key,
                local_depth,
            ) != normalize_key(hk, local_depth));
            if usable {
                return Some(i);
            }
            i = i + 1;
        }
        None
    }

    /// Writes `(hk, value)` into the chosen slot and reports its index, or
    /// fails with `BucketFullError` when all 16 slots hold live records.
    pub fn put(&mut self, hk: u64, value: u64, local_depth: u64) -> (r: Result<
        usize,
        BucketFullError,
    >)
        requires
            old(self).wf(),
            local_depth <= 64,
        ensures
            final(self).wf(),
            final(self).spec_offset() == old(self).spec_offset(),
            match r {
                Ok(i) => Some(i as int) == spec_insert_slot(old(self).recs(), hk, local_depth) && i
                    < 16 && final(self).recs() == old(self).recs().update(
                    i as int,
                    Record { hash_key: hk, value },
                ),
                Err(_) => spec_insert_slot(old(self).recs(), hk, local_depth) is None
                    && final(self).recs() == old(self).recs(),
            },
    {
        match self.maybe_index_to_insert(hk, local_depth) {
            None => Err(
                BucketFullError { offset: self.offset, hash_key: hk, local_depth },
            ),
            Some(i) => {
                self.records.set(i, Record { hash_key: hk, value });
                Ok(i)
            },
        }
    }

    /// A copy of this bucket's slots, tagged with the given file offset.
    pub fn copy_at(&self, offset: u64) -> (b: Bucket)
        requires
            self.wf(),
        ensures
            b.wf(),
            b.recs() == self.recs(),
            b.spec_offset() == offset,
    {
        let mut records: Vec<Record> = Vec::new();
        let mut i: usize = 0;
        while i < 16
            invariant
                self.wf(),
                i <= 16,
                records@ == self.recs().take(i as int),
            decreases 16 - i,
        {
            records.push(self.records[i]);
            proof {
                assert(self.recs().take(i as int).push(self.recs()[i as int]) =~= self.recs().take(
                    i as int + 1,
                ));
            }
            i = i + 1;
        }
        proof {
            assert(self.recs().take(16) =~= self.recs());
        }
        Bucket { offset, records }
    }

    /// Decides the structural bucket invariants: nonzero hash words are
    /// pairwise distinct, and only the first zero-hash slot may carry a
    /// value.
    pub fn check_inv(&self) -> (r: bool)
        requires
            self.wf(),
        ensures
            r == spec_bucket_inv(self.recs()),
    {
        let ghost s = self.recs();
        let mut i: usize = 0;
        while i < 16
            invariant
                self.wf(),
                s == self.recs(),
                i <= 16,
                forall|x: int, y: int|
                    0 <= x < y < s.len() && y < i && #[trigger] s[x].hash_key
                        == #[trigger] s[y].hash_key ==> s[x].hash_key == 0,
                forall|x: int, y: int|
                    0 <= x < y < s.len() && y < i && #[trigger] s[y].hash_key == 0 && s[y].value
                        != 0 ==> #[trigger] s[x].hash_key != 0,
            decreases 16 - i,
        {
            let ri = self.records[i];
            let mut j: usize = 0;
            while j < i
                invariant
                    self.wf(),
                    s == self.recs(),
                    i < 16,
                    j <= i,
                    ri == s[i as int],
                    forall|x: int|
                        0 <= x < j ==> !(#[trigger] s[x].hash_key == s[i as int].hash_key
                            && s[x].hash_key != 0),
                    forall|x: int|
                        0 <= x < j && s[i as int].hash_key == 0 && s[i as int].value != 0
                            ==> #[trigger] s[x].hash_key != 0,
                decreases i - j,
            {
                let rj = self.records[j];
                if rj.hash_key == ri.hash_key && rj.hash_key != 0 {
                    return false;
                }
                if ri.hash_key == 0 && ri.value != 0 && rj.hash_key == 0 {
                    return false;
                }
                j = j + 1;
            }
            i = i + 1;
        }
        true
    }

    /// An index-carrying cursor over the 16 slots.
    pub fn iter(&self) -> (it: BucketIter)
        ensures
            it.bucket == self,
            it.index == 0,
    {
        BucketIter { index: 0, bucket: self }
    }
}

/// The serialized form of a run of slots: each record's 16 bytes in slot
/// order.
pub open spec fn spec_bucket_bytes(s: Seq<Record>) -> Seq<u8>
    decreases s.len(),
{
    if s.len() == 0 {
        Seq::empty()
    } else {
        spec_record_bytes(s[0]) + spec_bucket_bytes(s.drop_first())
    }
}

pub proof fn lemma_bucket_bytes_snoc(s: Seq<Record>, r: Record)
    ensures
        spec_bucket_bytes(s.push(r)) == spec_bucket_bytes(s) + spec_record_bytes(r),
    decreases s.len(),
{
    vstd::bytes::lemma_auto_spec_u64_to_from_le_bytes();
    let t = s.push(r);
    assert(t.len() == s.len() + 1);
    if s.len() == 0 {
        assert(t[0] == r);
        assert(t.drop_first() =~= Seq::<Record>::empty());
        assert(spec_bucket_bytes(t.drop_first()) == Seq::<u8>::empty());
        assert(spec_bucket_bytes(t) == spec_record_bytes(r) + Seq::<u8>::empty());
        assert(spec_bucket_bytes(t) =~= spec_bucket_bytes(s) + spec_record_bytes(r));
    } else {
        assert(t[0] == s[0]);
        assert(t.drop_first() =~= s.drop_first().push(r));
        lemma_bucket_bytes_snoc(s.drop_first(), r);
        assert(spec_bucket_bytes(t) == spec_record_bytes(s[0]) + (spec_bucket_bytes(s.drop_first())
            + spec_record_bytes(r)));
        assert(spec_bucket_bytes(t) =~= spec_bucket_bytes(s) + spec_record_bytes(r));
    }
}

pub proof fn lemma_bucket_bytes_len(s: Seq<Record>)
    ensures
        spec_bucket_bytes(s).len() == 16 * s.len(),
    decreases s.len(),
{
    vstd::bytes::lemma_auto_spec_u64_to_from_le_bytes();
    if s.len() > 0 {
        lemma_bucket_bytes_len(s.drop_first());
    }
}

impl Bucket {
    /// Serializes the 16 slots as 256 bytes.
    pub fn to_bytes(&self) -> (buf: Vec<u8>)
        requires
            self.wf(),
        ensures
            buf@ == spec_bucket_bytes(self.recs()),
            buf@.len() == 256,
    {
        let ghost s = self.recs();
        let mut buf: Vec<u8> = Vec::new();
        let mut i: usize = 0;
        proof {
            assert(s.take(0) =~= Seq::<Record>::empty());
        }
        while i < 16
            invariant
                self.wf(),
                s == self.recs(),
                i <= 16,
                buf@ == spec_bucket_bytes(s.take(i as int)),
                buf@.len() == 16 * i,
            decreases 16 - i,
        {
            let mut rec = self.records[i].to_bytes();
            proof {
                lemma_bucket_bytes_snoc(s.take(i as int), s[i as int]);
                assert(s.take(i as int).push(s[i as int]) =~= s.take(i as int + 1));
            }
            buf.append(&mut rec);
            i = i + 1;
        }
        proof {
            assert(s.take(16) =~= s);
        }
        buf
    }

    /// Reads 16 slots back from a 256-byte image, remembering `offset` as
    /// the place the image came from.
    pub fn from_bytes(offset: u64, buf: &[u8]) -> (b: Bucket)
        requires
            buf@.len() == 256,
        ensures
            b.wf(),
            b.spec_offset() == offset,
            spec_bucket_bytes(b.recs()) == buf@,
            forall|i: int|
                0 <= i < 16 ==> #[trigger] b.recs()[i] == (Record {
                    hash_key: spec_u64_from_le_bytes(buf@.subrange(16 * i, 16 * i + 8)),
                    value: spec_u64_from_le_bytes(buf@.subrange(16 * i + 8, 16 * i + 16)),
                }),
    {
        let mut records: Vec<Record> = Vec::new();
        let mut i: usize = 0;
        proof {
            assert(records@.take(0) =~= Seq::<Record>::empty());
        }
        while i < 16
            invariant
                buf@.len() == 256,
                i <= 16,
                records@.len() == i,
                spec_bucket_bytes(records@) == buf@.subrange(0, 16 * i),
                forall|j: int|
                    0 <= j < i ==> #[trigger] records@[j] == (Record {
                        hash_key: spec_u64_from_le_bytes(buf@.subrange(16 * j, 16 * j + 8)),
                        value: spec_u64_from_le_bytes(buf@.subrange(16 * j + 8, 16 * j + 16)),
                    }),
            decreases 16 - i,
        {
            let slice = vstd::slice::slice_subrange(buf, 16 * i, 16 * i + 16);
            let r = Record::from_bytes(slice);
            proof {
                lemma_bucket_bytes_snoc(records@, r);
                assert(slice@.subrange(0, 8) =~= buf@.subrange(16 * i as int, 16 * i as int + 8));
                assert(slice@.subrange(8, 16) =~= buf@.subrange(
                    16 * i as int + 8,
                    16 * i as int + 16,
                ));
                assert(buf@.subrange(0, 16 * i as int) + slice@ =~= buf@.subrange(
                    0,
                    16 * (i as int + 1),
                ));
            }
            records.push(r);
            i = i + 1;
        }
        proof {
            assert(buf@.subrange(0, 256) =~= buf@);
        }
        Bucket { offset, records }
    }
}

/// The records of `s` whose top `new_depth` bits equal `mask`, in slot
/// order: exactly those a split moves to the new sibling segment.
pub open spec fn spec_moved(s: Seq<Record>, mask: u64, new_depth: u64) -> Seq<Record>
    decreases s.len(),
{
    if s.len() == 0 {
        Seq::empty()
    } else {
        let rest = spec_moved(s.drop_first(), mask, new_depth);
        if crate::prefix::spec_prefix(s[0].hash_key, new_depth) == mask {
            seq![s[0]] + rest
        } else {
            rest
        }
    }
}

/// The slot image of a freshly built sibling bucket: the moved records,
/// padded with empty slots to 16.
pub open spec fn spec_split_records(s: Seq<Record>, mask: u64, new_depth: u64) -> Seq<Record> {
    spec_moved(s, mask, new_depth) + Seq::new(
        (16 - spec_moved(s, mask, new_depth).len()) as nat,
        |i: int| Record { hash_key: 0, value: 0 },
    )
}

pub proof fn lemma_moved_len(s: Seq<Record>, mask: u64, new_depth: u64)
    ensures
        spec_moved(s, mask, new_depth).len() <= s.len(),
    decreases s.len(),
{
    if s.len() > 0 {
        lemma_moved_len(s.drop_first(), mask, new_depth);
    }
}

pub proof fn lemma_moved_snoc(s: Seq<Record>, r: Record, mask: u64, new_depth: u64)
    ensures
        spec_moved(s.push(r), mask, new_depth) == if crate::prefix::spec_prefix(
            r.hash_key,
            new_depth,
        ) == mask {
            spec_moved(s, mask, new_depth).push(r)
        } else {
            spec_moved(s, mask, new_depth)
        },
    decreases s.len(),
{
    let t = s.push(r);
    assert(t.len() == s.len() + 1);
    if s.len() == 0 {
        assert(t[0] == r);
        assert(t.drop_first() =~= Seq::<Record>::empty());
        assert(spec_moved(t.drop_first(), mask, new_depth) == Seq::<Record>::empty());
        if crate::prefix::spec_prefix(r.hash_key, new_depth) == mask {
            assert(spec_moved(t, mask, new_depth) == seq![r] + Seq::<Record>::empty());
            assert(seq![r] + Seq::<Record>::empty() =~= spec_moved(s, mask, new_depth).push(r));
        }
    } else {
        assert(t[0] == s[0]);
        assert(t.drop_first() =~= s.drop_first().push(r));
        lemma_moved_snoc(s.drop_first(), r, mask, new_depth);
        let md = spec_moved(s.drop_first(), mask, new_depth);
        if crate::prefix::spec_prefix(s[0].hash_key, new_depth) == mask {
            if crate::prefix::spec_prefix(r.hash_key, new_depth) == mask {
                assert(spec_moved(t, mask, new_depth) == seq![s[0]] + md.push(r));
                assert(seq![s[0]] + md.push(r) =~= (seq![s[0]] + md).push(r));
            } else {
                assert(spec_moved(t, mask, new_depth) == seq![s[0]] + md);
            }
        } else {
            assert(spec_moved(t, mask, new_depth) == spec_moved(t.drop_first(), mask, new_depth));
        }
    }
}

impl Bucket {
    /// Builds the sibling bucket a split hands to the new segment: the
    /// records whose top `new_depth` bits equal `mask`, in order, padded
    /// with empty slots.
    pub fn split_off(&self, mask: u64, new_depth: u64) -> (nb: Bucket)
        requires
            self.wf(),
            1 <= new_depth <= 64,
        ensures
            nb.wf(),
            nb.spec_offset() == 0,
            nb.recs() == spec_split_records(self.recs(), mask, new_depth),
    {
        let ghost s = self.recs();
        let mut records: Vec<Record> = Vec::new();
        let mut i: usize = 0;
        proof {
            assert(s.take(0) =~= Seq::<Record>::empty());
        }
        while i < 16
            invariant
                self.wf(),
                s == self.recs(),
                i <= 16,
                1 <= new_depth <= 64,
                records@ == spec_moved(s.take(i as int), mask, new_depth),
                records@.len() <= i,
            decreases 16 - i,
        {
            let r = self.records[i];
            proof {
                lemma_moved_snoc(s.take(i as int), s[i as int], mask, new_depth);
                assert(s.take(i as int).push(s[i as int]) =~= s.take(i as int + 1));
            }
            if normalize_key(r.hash_key, new_depth) == mask {
                records.push(r);
            }
            i = i + 1;
        }
        proof {
            assert(s.take(16) =~= s);
        }
        let ghost moved = records@;
        while records.len() < 16
            invariant
                moved == spec_moved(s, mask, new_depth),
                moved.len() <= records@.len() <= 16,
                records@.take(moved.len() as int) == moved,
                forall|j: int|
                    moved.len() <= j < records@.len() ==> #[trigger] records@[j] == (Record {
                        hash_key: 0,
                        value: 0,
                    }),
            decreases 16 - records.len(),
        {
            records.push(Record { hash_key: 0, value: 0 });
        }
        proof {
            assert(records@ =~= spec_split_records(s, mask, new_depth));
        }
        Bucket { offset: 0, records }
    }
}

/// What a bucket stores under a hash word: the value of the record a scan
/// returns, with the empty record standing for "nothing".
pub open spec fn spec_cell(s: Seq<Record>, hk: u64) -> Option<u64> {
    match spec_lookup(s, hk) {
        Some(r) => if spec_is_empty(r) {
            None
        } else {
            Some(r.value)
        },
        None => None,
    }
}

/// Nonzero hash words are pairwise distinct, so a scan for a nonzero key
/// has at most one slot it can answer from.
pub open spec fn spec_distinct_hashes(s: Seq<Record>) -> bool {
    forall|i: int, j: int|
        0 <= i < j < s.len() && #[trigger] s[i].hash_key == #[trigger] s[j].hash_key
            ==> s[i].hash_key == 0
}

/// A slot holding a value under the hash word 0 is the first slot whose
/// hash word is 0, so a scan for the key 0 reaches it.
pub open spec fn spec_zero_ordered(s: Seq<Record>) -> bool {
    forall|i: int, j: int|
        0 <= i < j < s.len() && #[trigger] s[j].hash_key == 0 && s[j].value != 0 ==> #[trigger] s[i].hash_key
            != 0
}

/// Both structural invariants a bucket keeps across every operation.
pub open spec fn spec_bucket_inv(s: Seq<Record>) -> bool {
    spec_distinct_hashes(s) && spec_zero_ordered(s)
}

pub proof fn lemma_find_from_shift(s: Seq<Record>, hk: u64, i: int)
    requires
        s.len() > 0,
        1 <= i <= s.len(),
    ensures
        spec_find_from(s, hk, i) == match spec_find_from(s.drop_first(), hk, i - 1) {
            Some(j) => Some(j + 1),
            None => None,
        },
    decreases s.len() - i,
{
    if i < s.len() {
        assert(s.drop_first()[i - 1] == s[i]);
        if s[i].hash_key != hk {
            lemma_find_from_shift(s, hk, i + 1);
        }
    }
}

/// Scanning past a head slot that cannot match.
pub proof fn lemma_lookup_tail(s: Seq<Record>, hk: u64)
    requires
        s.len() > 0,
        s[0].hash_key != hk,
    ensures
        spec_lookup(s, hk) == spec_lookup(s.drop_first(), hk),
{
    lemma_find_from_shift(s, hk, 1);
    lemma_find_from_props(s.drop_first(), hk, 0);
    match spec_find_from(s.drop_first(), hk, 0) {
        Some(j) => {
            assert(s[j + 1] == s.drop_first()[j]);
        },
        None => {},
    }
}

/// A key whose prefix equals the mask sees the same scan result among the
/// moved records as in the original bucket.
pub proof fn lemma_lookup_moved(s: Seq<Record>, mask: u64, new_depth: u64, hk: u64)
    requires
        new_depth <= 64,
        crate::prefix::spec_prefix(hk, new_depth) == mask,
    ensures
        spec_lookup(spec_moved(s, mask, new_depth), hk) == spec_lookup(s, hk),
    decreases s.len(),
{
    if s.len() > 0 {
        let m = spec_moved(s, mask, new_depth);
        let md = spec_moved(s.drop_first(), mask, new_depth);
        lemma_lookup_moved(s.drop_first(), mask, new_depth, hk);
        if s[0].hash_key == hk {
            assert(m == seq![s[0]] + md);
            assert(m[0] == s[0]);
        } else {
            if crate::prefix::spec_prefix(s[0].hash_key, new_depth) == mask {
                assert(m == seq![s[0]] + md);
                assert(m[0] == s[0]);
                lemma_lookup_tail(m, hk);
                assert(m.drop_first() =~= md);
                lemma_lookup_tail(s, hk);
            } else {
                lemma_lookup_tail(s, hk);
            }
        }
    }
}

/// A scan ignores appended slots that cannot match the key.
pub proof fn lemma_lookup_append_nomatch(a: Seq<Record>, b: Seq<Record>, hk: u64)
    requires
        forall|j: int| 0 <= j < b.len() ==> #[trigger] b[j].hash_key != hk,
    ensures
        spec_lookup(a + b, hk) == spec_lookup(a, hk),
    decreases a.len(),
{
    if a.len() == 0 {
        assert(a + b =~= b);
        lemma_find_from_props(b, hk, 0);
    } else {
        assert((a + b)[0] == a[0]);
        if a[0].hash_key == hk {
            assert((a + b).len() > 0);
        } else {
            lemma_lookup_tail(a + b, hk);
            assert((a + b).drop_first() =~= a.drop_first() + b);
            lemma_lookup_tail(a, hk);
            lemma_lookup_append_nomatch(a.drop_first(), b, hk);
        }
    }
}

/// The sibling bucket built by a split answers exactly as the old bucket
/// did, for every key the directory can route to the sibling.
pub proof fn lemma_cell_split_records(s: Seq<Record>, mask: u64, new_depth: u64, hk: u64)
    requires
        new_depth <= 64,
        mask != 0,
        crate::prefix::spec_prefix(hk, new_depth) == mask,
    ensures
        spec_cell(spec_split_records(s, mask, new_depth), hk) == spec_cell(s, hk),
{
    vstd::arithmetic::power2::lemma_pow2_pos((64 - new_depth) as nat);
    assert(crate::prefix::spec_prefix(0, new_depth) == 0) by {
        vstd::arithmetic::div_mod::lemma_basic_div(
            0,
            vstd::arithmetic::power2::pow2((64 - new_depth) as nat) as int,
        );
    }
    assert(hk != 0);
    lemma_lookup_moved(s, mask, new_depth, hk);
    let pad = Seq::new(
        (16 - spec_moved(s, mask, new_depth).len()) as nat,
        |i: int| Record { hash_key: 0, value: 0 },
    );
    lemma_lookup_append_nomatch(spec_moved(s, mask, new_depth), pad, hk);
}

pub proof fn lemma_find_from_update_nomatch(s: Seq<Record>, i: int, r: Record, hk: u64, k: int)
    requires
        0 <= k <= s.len(),
        0 <= i < s.len(),
        s[i].hash_key != hk,
        r.hash_key != hk,
    ensures
        spec_find_from(s.update(i, r), hk, k) == spec_find_from(s, hk, k),
    decreases s.len() - k,
{
    if k < s.len() {
        lemma_find_from_update_nomatch(s, i, r, hk, k + 1);
    }
}

/// How one `put` changes what the bucket stores, for every key that the
/// directory routes to this bucket together with the inserted key.
pub proof fn lemma_cell_after_put(s: Seq<Record>, hk: u64, v: u64, ld: u64, i: int, hk2: u64)
    requires
        ld <= 64,
        spec_zero_ordered(s),
        Some(i) == spec_insert_slot(s, hk, ld),
        crate::prefix::spec_prefix(hk2, ld) == crate::prefix::spec_prefix(hk, ld),
    ensures
        spec_cell(s.update(i, Record { hash_key: hk, value: v }), hk2) == if hk2 == hk {
            if hk == 0 && v == 0 {
                None::<u64>
            } else {
                Some(v)
            }
        } else {
            spec_cell(s, hk2)
        },
{
    let r = Record { hash_key: hk, value: v };
    let s2 = s.update(i, r);
    lemma_find_from_props(s, hk, 0);
    lemma_find_usable_from_props(s, hk, ld, 0);
    assert(0 <= i < s.len());
    if hk2 == hk {
        // the written slot is the first place a scan for `hk` can stop
        lemma_find_from_props(s2, hk, 0);
        assert forall|k: int| 0 <= k < i implies s2[k].hash_key != hk by {
            assert(s2[k] == s[k]);
        }
        assert(s2[i].hash_key == hk);
        match spec_find_from(s2, hk, 0) {
            Some(j) => {
                if j > i {
                    assert(s2[i].hash_key != hk);
                    assert(false);
                }
                if j < i {
                    assert(s2[j].hash_key != hk);
                    assert(false);
                }
                assert(s2[i] == r);
            },
            None => {
                assert(s2[i].hash_key != hk);
                assert(false);
            },
        }
    } else if s[i].hash_key != hk2 {
        lemma_find_from_update_nomatch(s, i, r, hk2, 0);
        lemma_find_from_props(s, hk2, 0);
        match spec_find_from(s, hk2, 0) {
            Some(j) => {
                assert(j != i);
                assert(s2[j] == s[j]);
            },
            None => {},
        }
    } else {
        // the overwritten slot carried `hk2`'s hash word; since the match
        // scan for `hk` missed it, it was taken as empty, so hk2 == 0
        assert(spec_find(s, hk) is None);
        assert(spec_usable(s[i], hk, ld));
        if !spec_is_empty(s[i]) {
            // a soft-deleted record's prefix differs from the bucket's,
            // but hk2 routes here, so it cannot be hk2's record
            assert(ld > 0 && crate::prefix::spec_prefix(s[i].hash_key, ld)
                != crate::prefix::spec_prefix(hk, ld));
            assert(false);
        }
        assert(s[i] == Record { hash_key: 0u64, value: 0u64 });
        assert(hk2 == 0);
        // before: the scan for 0 stops at or before slot i
        lemma_find_from_props(s, 0, 0);
        let j0 = spec_find_from(s, 0, 0).unwrap();
        assert(j0 <= i);
        if j0 < i {
            // the scan stops at j0 in both, before the changed slot
            lemma_find_from_props(s2, 0, 0);
            assert(s2[j0] == s[j0]);
            match spec_find_from(s2, 0, 0) {
                Some(j1) => {
                    if j1 > j0 {
                        assert(s2[j0].hash_key != 0);
                        assert(false);
                    }
                    if j1 < j0 {
                        assert(s2[j1] == s[j1]);
                        assert(s[j1].hash_key != 0);
                        assert(false);
                    }
                    assert(s2[j1] == s[j0]);
                },
                None => {
                    assert(s2[j0].hash_key != 0);
                    assert(false);
                },
            }
        } else {
            // slot i was the first zero slot and held the empty record;
            // afterwards any zero slot further on is also empty
            assert(spec_cell(s, 0) == None::<u64>);
            lemma_find_from_props(s2, 0, 0);
            match spec_find_from(s2, 0, 0) {
                Some(j1) => {
                    assert(s2[j1].hash_key == 0);
                    assert(j1 != i);
                    assert(j1 > i) by {
                        if j1 < i {
                            assert(s2[j1] == s[j1]);
                            assert(s[j1].hash_key != 0);
                        }
                    }
                    assert(s[j1].hash_key == 0);
                    assert(s[j1].value == 0) by {
                        if s[j1].value != 0 {
                            assert(s[i].hash_key != 0);
                        }
                    }
                    assert(spec_cell(s2, 0) == None::<u64>);
                },
                None => {},
            }
        }
    }
}

/// One `put` keeps both structural invariants.
pub proof fn lemma_inv_after_put(s: Seq<Record>, hk: u64, v: u64, ld: u64, i: int)
    requires
        ld <= 64,
        spec_bucket_inv(s),
        Some(i) == spec_insert_slot(s, hk, ld),
    ensures
        spec_bucket_inv(s.update(i, Record { hash_key: hk, value: v })),
{
    let r = Record { hash_key: hk, value: v };
    let s2 = s.update(i, r);
    lemma_find_from_props(s, hk, 0);
    lemma_find_usable_from_props(s, hk, ld, 0);
    assert(0 <= i < s.len());
    assert forall|a: int, b: int|
        0 <= a < b < s2.len() && #[trigger] s2[a].hash_key == #[trigger] s2[b].hash_key implies s2[a].hash_key
        == 0 by {
        if a != i && b != i {
            assert(s2[a] == s[a] && s2[b] == s[b]);
        } else if hk != 0 {
            // the other slot would be a second live match for hk
            let o = if a == i {
                b
            } else {
                a
            };
            assert(s2[o] == s[o]);
            if s[o].hash_key == hk {
                match spec_find(s, hk) {
                    Some(j) => {
                        assert(j == i);
                        assert(s[i].hash_key == hk);
                        assert(false);
                    },
                    None => {
                        assert(false);
                    },
                }
            }
        }
    }
    assert forall|a: int, b: int|
        0 <= a < b < s2.len() && #[trigger] s2[b].hash_key == 0 && s2[b].value != 0 implies #[trigger] s2[a].hash_key
        != 0 by {
        if b == i {
            // the written slot holds hash 0, so hk == 0 and i is the
            // first zero slot
            assert(s2[i] == r);
            assert(hk == 0);
            match spec_find(s, 0) {
                Some(j) => {
                    assert(j == i);
                    assert(s[a].hash_key != 0);
                },
                None => {
                    assert(spec_usable(s[i], 0, ld));
                    match spec_find_usable_from(s, 0, ld, 0) {
                        Some(j) => {
                            assert(j == i);
                            assert(s[a].hash_key != 0);
                        },
                        None => {
                            assert(false);
                        },
                    }
                },
            }
        } else {
            assert(s2[b] == s[b]);
            if a == i {
                // slot i now holds hk; if hk were 0 the scan for 0 would
                // have stopped at or before i, contradicting a live zero
                // record behind an empty or zero slot
                if hk == 0 {
                    match spec_find(s, 0) {
                        Some(j) => {
                            assert(j == i);
                            assert(s[j].hash_key == 0);
                            assert(s[i].hash_key != 0);
                        },
                        None => {
                            assert(spec_usable(s[i], 0, ld));
                            if spec_is_empty(s[i]) {
                                assert(s[i].hash_key == 0);
                                assert(false);
                            } else {
                                assert(ld > 0 && crate::prefix::spec_prefix(s[i].hash_key, ld)
                                    != crate::prefix::spec_prefix(0, ld));
                                assert(s[i].hash_key != 0);
                            }
                        },
                    }
                }
            } else {
                assert(s2[a] == s[a]);
            }
        }
    }
}

/// Some slot of `s` carries this hash word.
pub open spec fn spec_contains_hash(s: Seq<Record>, hk: u64) -> bool {
    exists|j: int| 0 <= j < s.len() && s[j].hash_key == hk
}

/// When `put` finds no slot, every slot holds a live record of this
/// bucket's own prefix class, and none of them carries the inserted key.
pub proof fn lemma_full_slots(s: Seq<Record>, hk: u64, ld: u64)
    requires
        spec_insert_slot(s, hk, ld) is None,
    ensures
        forall|k: int|
            0 <= k < s.len() ==> !spec_is_empty(#[trigger] s[k]) && s[k].hash_key != hk && (ld > 0
                ==> crate::prefix::spec_prefix(s[k].hash_key, ld) == crate::prefix::spec_prefix(
                hk,
                ld,
            )),
{
    lemma_find_from_props(s, hk, 0);
    lemma_find_usable_from_props(s, hk, ld, 0);
}

/// In a full bucket with the structural invariants, the slot hashes are
/// pairwise distinct and each slot is exactly what a scan for its hash
/// returns.
pub proof fn lemma_full_distinct(s: Seq<Record>, hk: u64, ld: u64)
    requires
        spec_bucket_inv(s),
        spec_insert_slot(s, hk, ld) is None,
    ensures
        forall|a: int, b: int|
            0 <= a < b < s.len() ==> #[trigger] s[a].hash_key != #[trigger] s[b].hash_key,
        forall|k: int|
            0 <= k < s.len() ==> spec_cell(s, #[trigger] s[k].hash_key) == Some(s[k].value),
{
    lemma_full_slots(s, hk, ld);
    assert forall|a: int, b: int| 0 <= a < b < s.len() implies #[trigger] s[a].hash_key
        != #[trigger] s[b].hash_key by {
        if s[a].hash_key == s[b].hash_key {
            // equal hashes force hash 0 twice; a full bucket then holds
            // two non-empty zero-hash records, breaking the zero order
            assert(s[a].hash_key == 0);
            assert(s[b].value != 0);
            assert(s[a].hash_key != 0);
        }
    }
    assert forall|k: int| 0 <= k < s.len() implies spec_cell(s, #[trigger] s[k].hash_key) == Some(
        s[k].value,
    ) by {
        lemma_find_from_props(s, s[k].hash_key, 0);
        match spec_find_from(s, s[k].hash_key, 0) {
            Some(j) => {
                if j != k {
                    assert(s[j].hash_key == s[k].hash_key);
                    if j < k {
                        assert(s[j].hash_key == 0);
                        assert(s[k].value != 0);
                        assert(s[j].hash_key != 0);
                    } else {
                        assert(s[k].hash_key == 0);
                        assert(s[j].value != 0);
                        assert(s[k].hash_key != 0);
                    }
                    assert(false);
                }
                assert(!spec_is_empty(s[j]));
            },
            None => {
                assert(s[k].hash_key != s[k].hash_key);
            },
        }
    }
}

/// The moved records of a split: all of the sibling's prefix class, none
/// empty, hashes drawn from the old bucket and still pairwise distinct.
pub proof fn lemma_moved_inv(s: Seq<Record>, mask: u64, new_depth: u64)
    requires
        new_depth <= 64,
        mask != 0,
        spec_distinct_hashes(s),
    ensures
        spec_distinct_hashes(spec_moved(s, mask, new_depth)),
        forall|k: int|
            0 <= k < spec_moved(s, mask, new_depth).len() ==> #[trigger] spec_moved(
                s,
                mask,
                new_depth,
            )[k].hash_key != 0 && crate::prefix::spec_prefix(
                spec_moved(s, mask, new_depth)[k].hash_key,
                new_depth,
            ) == mask,
        forall|hk: u64|
            spec_contains_hash(spec_moved(s, mask, new_depth), hk) ==> spec_contains_hash(s, hk),
    decreases s.len(),
{
    vstd::arithmetic::power2::lemma_pow2_pos((64 - new_depth) as nat);
    assert(crate::prefix::spec_prefix(0, new_depth) == 0) by {
        vstd::arithmetic::div_mod::lemma_basic_div(
            0,
            vstd::arithmetic::power2::pow2((64 - new_depth) as nat) as int,
        );
    }
    if s.len() > 0 {
        let t = s.drop_first();
        assert(spec_distinct_hashes(t)) by {
            assert forall|a: int, b: int|
                0 <= a < b < t.len() && #[trigger] t[a].hash_key == #[trigger] t[b].hash_key implies t[a].hash_key
                == 0 by {
                assert(t[a] == s[a + 1] && t[b] == s[b + 1]);
            }
        }
        lemma_moved_inv(t, mask, new_depth);
        let m = spec_moved(s, mask, new_depth);
        let mt = spec_moved(t, mask, new_depth);
        if crate::prefix::spec_prefix(s[0].hash_key, new_depth) == mask {
            assert(m == seq![s[0]] + mt);
            assert(s[0].hash_key != 0);
            assert(m[0] == s[0]);
            assert(forall|k: int| 1 <= k < m.len() ==> #[trigger] m[k] == mt[k - 1]);
            // the head's hash does not recur among the moved tail records
            assert forall|b: int| 1 <= b < m.len() implies #[trigger] m[b].hash_key
                != s[0].hash_key by {
                if m[b].hash_key == s[0].hash_key {
                    assert(mt[b - 1].hash_key == s[0].hash_key);
                    assert(spec_contains_hash(mt, s[0].hash_key)) by {
                        assert(0 <= b - 1 < mt.len() && mt[b - 1].hash_key == s[0].hash_key);
                    }
                    assert(spec_contains_hash(t, s[0].hash_key));
                    let j = choose|j: int|
                        0 <= j < t.len() && #[trigger] t[j].hash_key == s[0].hash_key;
                    assert(t[j] == s[j + 1]);
                    assert(s[j + 1].hash_key == s[0].hash_key);
                    assert(s[0].hash_key == 0);
                }
            }
            assert forall|a: int, b: int|
                0 <= a < b < m.len() && #[trigger] m[a].hash_key == #[trigger] m[b].hash_key implies m[a].hash_key
                == 0 by {
                if a >= 1 {
                    assert(m[a] == mt[a - 1] && m[b] == mt[b - 1]);
                }
            }
            assert forall|hk: u64| spec_contains_hash(m, hk) implies spec_contains_hash(s, hk) by {
                let k = choose|k: int| 0 <= k < m.len() && #[trigger] m[k].hash_key == hk;
                if k == 0 {
                    assert(s[0].hash_key == hk);
                } else {
                    assert(mt[k - 1].hash_key == hk);
                    assert(spec_contains_hash(mt, hk)) by {
                        assert(0 <= k - 1 < mt.len() && mt[k - 1].hash_key == hk);
                    }
                    assert(spec_contains_hash(t, hk));
                    let j = choose|j: int| 0 <= j < t.len() && #[trigger] t[j].hash_key == hk;
                    assert(t[j] == s[j + 1]);
                    assert(s[j + 1].hash_key == hk);
                }
            }
        } else {
            assert(m == mt);
            assert forall|hk: u64| spec_contains_hash(m, hk) implies spec_contains_hash(s, hk) by {
                assert(spec_contains_hash(mt, hk));
                assert(spec_contains_hash(t, hk));
                let j = choose|j: int| 0 <= j < t.len() && #[trigger] t[j].hash_key == hk;
                assert(t[j] == s[j + 1]);
                assert(s[j + 1].hash_key == hk);
            }
        }
    }
}

/// A freshly built sibling bucket satisfies the structural invariants.
pub proof fn lemma_split_records_inv(s: Seq<Record>, mask: u64, new_depth: u64)
    requires
        new_depth <= 64,
        mask != 0,
        spec_distinct_hashes(s),
    ensures
        spec_bucket_inv(spec_split_records(s, mask, new_depth)),
        forall|k: int|
            0 <= k < spec_split_records(s, mask, new_depth).len() ==> spec_is_empty(
                #[trigger] spec_split_records(s, mask, new_depth)[k],
            ) || crate::prefix::spec_prefix(
                spec_split_records(s, mask, new_depth)[k].hash_key,
                new_depth,
            ) == mask,
{
    lemma_moved_inv(s, mask, new_depth);
    let m = spec_moved(s, mask, new_depth);
    let w = spec_split_records(s, mask, new_depth);
    assert(forall|k: int| 0 <= k < m.len() ==> #[trigger] w[k] == m[k]);
    assert(forall|k: int|
        m.len() <= k < w.len() ==> #[trigger] w[k] == Record { hash_key: 0u64, value: 0u64 });
}

/// A cursor over a bucket's slots, front to back.
pub struct BucketIter<'b> {
    pub index: usize,
    pub bucket: &'b Bucket,
}

impl<'b> BucketIter<'b> {
    /// The record under the cursor, advancing past it; `None` once all 16
    /// slots have been yielded.
    pub fn next(&mut self) -> (r: Option<Record>)
        requires
            old(self).bucket.wf(),
        ensures
            final(self).bucket == old(self).bucket,
            old(self).index < 16 ==> r == Some(old(self).bucket.recs()[old(self).index as int])
                && final(self).index == old(self).index + 1,
            old(self).index >= 16 ==> r is None && final(self).index == old(self).index,
    {
        if self.index >= 16 {
            return None;
        }
        self.index = self.index + 1;
        Some(self.bucket.at(self.index - 1))
    }
}

} // verus!
