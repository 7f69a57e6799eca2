//! The segment store: segments of 64 buckets, kept in memory, with the
//! exact byte layout of the segment file.

use vstd::bytes::{spec_u32_from_le_bytes, spec_u32_to_le_bytes, spec_u64_to_le_bytes, u32_from_le_bytes, u32_to_le_bytes, u64_from_le_bytes, u64_to_le_bytes};
use vstd::prelude::*;

verus! {

use crate::bucket::{
    spec_bucket_bytes, spec_is_empty, Bucket, Record, lemma_bucket_bytes_len,
};

/// A 16-byte index header holding the global depth and the segment count
/// as little-endian `u64`s — for a layout that keeps both in one file,
/// unlike the paired directory and segment files.
#[derive(Clone, Copy, Debug, PartialEq, Eq, Structural)]
pub struct Header {
    pub global_depth: u64,
    pub num_segments: u64,
}

/// The serialized header.
pub open spec fn spec_header_bytes(h: Header) -> Seq<u8> {
    spec_u64_to_le_bytes(h.global_depth) + spec_u64_to_le_bytes(h.num_segments)
}

/// Why a header image was rejected.
#[derive(Clone, Copy, Debug, PartialEq, Eq, Structural)]
pub struct HeaderTooSmallError {
    pub len: usize,
}

impl Header {
    /// Serializes the header: global depth, then segment count.
    pub fn to_bytes(&self) -> (buf: Vec<u8>)
        ensures
            buf@ == spec_header_bytes(*self),
            buf@.len() == 16,
    {
        proof {
            vstd::bytes::lemma_auto_spec_u64_to_from_le_bytes();
        }
        let mut buf = u64_to_le_bytes(self.global_depth);
        let mut tail = u64_to_le_bytes(self.num_segments);
        buf.append(&mut tail);
        buf
    }

    /// Reads a header from the first 16 bytes of an image; rejects a
    /// shorter one.
    pub fn from_bytes(buf: &[u8]) -> (r: Result<Header, HeaderTooSmallError>)
        ensures
            match r {
                Ok(h) => buf@.len() >= 16 && spec_header_bytes(h) == buf@.subrange(0, 16),
                Err(e) => buf@.len() < 16 && e.len == buf@.len(),
            },
    {
        if buf.len() < 16 {
            return Err(HeaderTooSmallError { len: buf.len() });
        }
        proof {
            vstd::bytes::lemma_auto_spec_u64_to_from_le_bytes();
        }
        let global_depth = u64_from_le_bytes(vstd::slice::slice_subrange(buf, 0, 8));
        let num_segments = u64_from_le_bytes(vstd::slice::slice_subrange(buf, 8, 16));
        let h = Header { global_depth, num_segments };
        proof {
            assert(spec_header_bytes(h) =~= buf@.subrange(0, 16));
            assert(buf@.subrange(0, 8) =~= buf@.subrange(0, 16).subrange(0, 8));
            assert(buf@.subrange(8, 16) =~= buf@.subrange(0, 16).subrange(8, 16));
        }
        Ok(h)
    }
}

/// A segment handle: its local depth and its byte offset in the segment
/// file.
#[derive(Clone, Copy, Debug, PartialEq, Eq, Structural)]
pub struct Segment {
    pub depth: u8,
    pub offset: u64,
}

/// The in-memory segment store, mirroring the segment file: segment `i`
/// lives at byte offset `4 + i * 16385`, and its buckets sit at indices
/// `64 i .. 64 i + 64` of the flat bucket array. The ghost owners are the
/// prefixes the directory addresses the segments by.
pub struct SegmentStore {
    depths: Vec<u8>,
    buckets: Vec<Bucket>,
    owners: Ghost<Seq<u64>>,
}

/// The byte offset of a segment in the file.
pub open spec fn spec_segment_offset(index: int) -> int {
    4 + index * 16385
}

/// The byte offset of a bucket in the file.
pub open spec fn spec_bucket_offset(seg_index: int, bucket_index: int) -> int {
    spec_segment_offset(seg_index) + 1 + bucket_index * 256
}

/// A flat bucket index determines its segment and slot.
proof fn lemma_flat_index(s: int, b: int)
    requires
        0 <= s,
        0 <= b < 64,
    ensures
        (64 * s + b) / 64 == s,
        (64 * s + b) % 64 == b,
{
    vstd::arithmetic::div_mod::lemma_fundamental_div_mod_converse(64 * s + b, 64, s, b);
}

impl SegmentStore {
    /// How many segments the store holds.
    pub closed spec fn num(self) -> int {
        self.depths@.len() as int
    }

    /// A segment's local depth.
    pub closed spec fn depth_of(self, s: int) -> u8 {
        self.depths@[s]
    }

    /// The ghost prefix a segment is addressed by.
    pub closed spec fn owner_of(self, s: int) -> u64 {
        self.owners@[s]
    }

    /// The slots of one bucket.
    pub closed spec fn recs_of(self, s: int, b: int) -> Seq<Record> {
        self.buckets@[64 * s + b].recs()
    }

    /// Each segment holds exactly 64 buckets of 16 slots.
    pub closed spec fn shape_ok(self) -> bool {
        &&& self.buckets@.len() == 64 * self.num()
        &&& self.owners@.len() == self.num()
        &&& forall|k: int| 0 <= k < self.buckets@.len() ==> (#[trigger] self.buckets@[k]).wf()
    }

    /// Every segment holds 64 well-formed buckets, and the store stays
    /// within `u32` segment indices.
    pub open spec fn wf(self) -> bool {
        &&& 1 <= self.num() <= 0x8000_0000
        &&& self.shape_ok()
        &&& forall|s: int, b: int|
            0 <= s < self.num() && 0 <= b < 64 ==> #[trigger] self.recs_of(s, b).len() == 16
    }

    proof fn lemma_wf_parts(self)
        requires
            self.shape_ok(),
            1 <= self.num() <= 0x8000_0000,
        ensures
            self.wf(),
    {
        assert forall|s: int, b: int| 0 <= s < self.num() && 0 <= b < 64 implies #[trigger] self.recs_of(
            s,
            b,
        ).len() == 16 by {
            assert(64 * s + b < 64 * self.num()) by (nonlinear_arith)
                requires
                    s < self.num() && b < 64,
            ;
            assert(64 * s + b >= 0) by (nonlinear_arith)
                requires
                    s >= 0 && b >= 0,
            ;
            assert(self.buckets@[64 * s + b].wf());
        }
    }

    /// A fresh store: one segment of depth 0 with all buckets empty, as a
    /// new segment file is initialized.
    pub fn init() -> (st: SegmentStore)
        ensures
            st.wf(),
            st.num() == 1,
            st.depth_of(0) == 0,
            st.owner_of(0) == 0,
            forall|b: int, k: int|
                0 <= b < 64 && 0 <= k < 16 ==> spec_is_empty(#[trigger] st.recs_of(0, b)[k]),
    {
        let mut depths: Vec<u8> = Vec::new();
        depths.push(0);
        let ghost ow: Seq<u64> = seq![0u64];
        let st = SegmentStore { depths, buckets: empty_buckets(), owners: Ghost(ow) };
        proof {
            st.lemma_wf_parts();
            assert forall|b: int, k: int| 0 <= b < 64 && 0 <= k < 16 implies spec_is_empty(
                #[trigger] st.recs_of(0, b)[k],
            ) by {
                assert(st.buckets@[64 * 0 + b] == st.buckets@[b]);
            }
        }
        st
    }

    /// How many segments are allocated.
    pub fn num_segments(&self) -> (n: u32)
        requires
            self.wf(),
        ensures
            n == self.num(),
    {
        self.depths.len() as u32
    }

    /// The handle of a segment: its depth and its file offset.
    pub fn segment(&self, index: u32) -> (seg: Segment)
        requires
            self.wf(),
            index < self.num(),
        ensures
            seg.depth == self.depth_of(index as int),
            seg.offset == spec_segment_offset(index as int),
    {
        Segment { depth: self.depths[index as usize], offset: 4 + (index as u64) * 16385 }
    }

    /// The flat index of a bucket, in bounds whenever its segment is.
    fn flat(&self, seg_index: u32, bucket_index: u32) -> (k: usize)
        requires
            self.wf(),
            seg_index < self.num(),
            bucket_index < 64,
        ensures
            k == 64 * (seg_index as int) + bucket_index as int,
            k < self.buckets@.len(),
    {
        let total = self.buckets.len();
        proof {
            assert(64 * (seg_index as int) + (bucket_index as int) < 64 * self.num())
                by (nonlinear_arith)
                requires
                    (seg_index as int) < self.num() && (bucket_index as int) < 64,
            ;
            assert(64 * (seg_index as int) >= 0) by (nonlinear_arith)
                requires
                    seg_index as int >= 0,
            ;
            assert(64 * (seg_index as int) + (bucket_index as int) < total as int);
        }
        64 * (seg_index as usize) + (bucket_index as usize)
    }

    /// A copy of one bucket, carrying its file offset for write-back.
    pub fn bucket(&self, seg_index: u32, bucket_index: u32) -> (b: Bucket)
        requires
            self.wf(),
            seg_index < self.num(),
            bucket_index < 64,
        ensures
            b.wf(),
            b.recs() == self.recs_of(seg_index as int, bucket_index as int),
            b.spec_offset() == spec_bucket_offset(seg_index as int, bucket_index as int),
    {
        let k = self.flat(seg_index, bucket_index);
        let offset: u64 = 4 + (seg_index as u64) * 16385 + 1 + (bucket_index as u64) * 256;
        self.buckets[k].copy_at(offset)
    }

    /// A borrowed view of one bucket, for read-only scans.
    pub fn bucket_ref(&self, seg_index: u32, bucket_index: u32) -> (b: &Bucket)
        requires
            self.wf(),
            seg_index < self.num(),
            bucket_index < 64,
        ensures
            b.wf(),
            b.recs() == self.recs_of(seg_index as int, bucket_index as int),
    {
        let k = self.flat(seg_index, bucket_index);
        &self.buckets[k]
    }

    /// Writes one bucket's slots back in place.
    pub fn write_bucket(&mut self, seg_index: u32, bucket_index: u32, b: Bucket)
        requires
            old(self).wf(),
            seg_index < old(self).num(),
            bucket_index < 64,
            b.wf(),
        ensures
            final(self).wf(),
            final(self).num() == old(self).num(),
            final(self).recs_of(seg_index as int, bucket_index as int) == b.recs(),
            forall|s: int|
                0 <= s < old(self).num() ==> final(self).depth_of(s) == old(self).depth_of(s)
                    && final(self).owner_of(s) == old(self).owner_of(s),
            forall|s: int, b2: int|
                0 <= s < old(self).num() && 0 <= b2 < 64 && !(s == seg_index as int && b2
                    == bucket_index as int) ==> final(self).recs_of(s, b2) == old(self).recs_of(
                    s,
                    b2,
                ),
    {
        let k = self.flat(seg_index, bucket_index);
        self.buckets.set(k, b);
        proof {
            self.lemma_wf_parts();
            assert forall|s: int, b2: int|
                0 <= s < old(self).num() && 0 <= b2 < 64 && !(s == seg_index as int && b2
                    == bucket_index as int) implies final(self).recs_of(s, b2) == old(
                self,
            ).recs_of(s, b2) by {
                lemma_flat_index(s, b2);
                lemma_flat_index(seg_index as int, bucket_index as int);
                assert(64 * s + b2 != k as int);
            }
        }
    }

    /// Appends a zero-filled segment with the given depth and reports its
    /// index; the ghost owner is the prefix the caller will wire it under.
    pub fn allocate_segment(&mut self, depth: u8, Ghost(owner): Ghost<u64>) -> (index: u32)
        requires
            old(self).wf(),
            old(self).num() < 0x8000_0000,
        ensures
            final(self).wf(),
            index == old(self).num(),
            final(self).num() == old(self).num() + 1,
            final(self).depth_of(index as int) == depth,
            final(self).owner_of(index as int) == owner,
            forall|b: int, k: int|
                0 <= b < 64 && 0 <= k < 16 ==> spec_is_empty(
                    #[trigger] final(self).recs_of(index as int, b)[k],
                ),
            forall|s: int|
                0 <= s < old(self).num() ==> final(self).depth_of(s) == old(self).depth_of(s)
                    && final(self).owner_of(s) == old(self).owner_of(s),
            forall|s: int, b: int|
                0 <= s < old(self).num() && 0 <= b < 64 ==> final(self).recs_of(s, b) == old(
                    self,
                ).recs_of(s, b),
    {
        let mut fresh = empty_buckets();
        let ghost fresh_view = fresh@;
        let index = self.depths.len() as u32;
        self.depths.push(depth);
        self.buckets.append(&mut fresh);
        proof {
            self.owners = Ghost(self.owners@.push(owner));
        }
        proof {
            self.lemma_append_effect(*old(self), index as int, fresh_view);
        }
        index
    }

    /// Appends a segment filled with the given 64 buckets — what a split
    /// uses to publish the sibling's records in one step.
    pub fn allocate_with_buckets(&mut self, buckets: Vec<Bucket>, depth: u8, Ghost(owner): Ghost<
        u64,
    >) -> (index: u32)
        requires
            old(self).wf(),
            old(self).num() < 0x8000_0000,
            buckets@.len() == 64,
            forall|b: int| 0 <= b < 64 ==> (#[trigger] buckets@[b]).wf(),
        ensures
            final(self).wf(),
            index == old(self).num(),
            final(self).num() == old(self).num() + 1,
            final(self).depth_of(index as int) == depth,
            final(self).owner_of(index as int) == owner,
            forall|b: int|
                0 <= b < 64 ==> final(self).recs_of(index as int, b) == (#[trigger] buckets@[b]).recs(),
            forall|s: int|
                0 <= s < old(self).num() ==> final(self).depth_of(s) == old(self).depth_of(s)
                    && final(self).owner_of(s) == old(self).owner_of(s),
            forall|s: int, b: int|
                0 <= s < old(self).num() && 0 <= b < 64 ==> final(self).recs_of(s, b) == old(
                    self,
                ).recs_of(s, b),
    {
        let mut incoming = buckets;
        let ghost incoming_view = incoming@;
        let index = self.depths.len() as u32;
        self.depths.push(depth);
        self.buckets.append(&mut incoming);
        proof {
            self.owners = Ghost(self.owners@.push(owner));
        }
        proof {
            self.lemma_append_effect(*old(self), index as int, incoming_view);
            assert forall|b: int| 0 <= b < 64 implies final(self).recs_of(index as int, b) == (
            #[trigger] incoming_view[b]).recs() by {
                assert(64 * (index as int) + b == 64 * old(self).num() + b);
                assert(self.buckets@[64 * old(self).num() + b] == incoming_view[b]);
            }
        }
        index
    }

    /// What one appended segment does to the store's views.
    proof fn lemma_append_effect(self, before: SegmentStore, index: int, added: Seq<Bucket>)
        requires
            before.wf(),
            before.num() < 0x8000_0000,
            index == before.num(),
            added.len() == 64,
            forall|b: int| 0 <= b < 64 ==> (#[trigger] added[b]).wf(),
            self.depths@ == before.depths@.push(self.depths@[index]),
            self.buckets@ == before.buckets@ + added,
            self.owners@ == before.owners@.push(self.owners@[index]),
        ensures
            self.wf(),
            self.num() == before.num() + 1,
            forall|s: int|
                0 <= s < before.num() ==> self.depth_of(s) == before.depth_of(s) && self.owner_of(
                    s,
                ) == before.owner_of(s),
            forall|s: int, b: int|
                0 <= s < before.num() && 0 <= b < 64 ==> self.recs_of(s, b) == before.recs_of(
                    s,
                    b,
                ),
            forall|b: int|
                0 <= b < 64 ==> #[trigger] self.recs_of(index, b) == added[b].recs(),
    {
        assert(self.num() == before.num() + 1);
        assert(self.buckets@.len() == 64 * before.num() + 64);
        assert(64 * self.num() == 64 * before.num() + 64) by (nonlinear_arith)
            requires
                self.num() == before.num() + 1,
        ;
        assert forall|s: int, b: int|
            0 <= s < before.num() && 0 <= b < 64 implies self.recs_of(s, b) == before.recs_of(
            s,
            b,
        ) by {
            assert(64 * s + b < 64 * before.num()) by (nonlinear_arith)
                requires
                    s < before.num() && b < 64,
            ;
            assert(64 * s + b >= 0) by (nonlinear_arith)
                requires
                    s >= 0 && b >= 0,
            ;
            assert(self.buckets@[64 * s + b] == before.buckets@[64 * s + b]);
        }
        assert forall|b: int| 0 <= b < 64 implies #[trigger] self.recs_of(index, b)
            == added[b].recs() by {
            assert(self.buckets@[64 * index + b] == added[b]);
        }
        self.lemma_wf_parts();
    }

    /// Re-addresses a segment's ghost owner without touching its data —
    /// used when an engine is assembled from decoded parts and the owners
    /// are re-derived from the directory.
    pub fn set_owner(&mut self, seg_index: u32, Ghost(owner): Ghost<u64>)
        requires
            old(self).wf(),
            seg_index < old(self).num(),
        ensures
            final(self).wf(),
            final(self).num() == old(self).num(),
            final(self).owner_of(seg_index as int) == owner,
            forall|s: int|
                0 <= s < old(self).num() ==> final(self).depth_of(s) == old(self).depth_of(s) && (s
                    != seg_index as int ==> final(self).owner_of(s) == old(self).owner_of(s)),
            forall|s: int, b: int|
                0 <= s < old(self).num() && 0 <= b < 64 ==> final(self).recs_of(s, b) == old(
                    self,
                ).recs_of(s, b),
    {
        proof {
            self.owners = Ghost(self.owners@.update(seg_index as int, owner));
            self.lemma_wf_parts();
        }
    }

    /// Overwrites a segment's local depth — the final step of a split,
    /// which also re-addresses the ghost owner.
    pub fn update_segment(&mut self, seg_index: u32, depth: u8, Ghost(owner): Ghost<u64>)
        requires
            old(self).wf(),
            seg_index < old(self).num(),
        ensures
            final(self).wf(),
            final(self).num() == old(self).num(),
            final(self).depth_of(seg_index as int) == depth,
            final(self).owner_of(seg_index as int) == owner,
            forall|s: int|
                0 <= s < old(self).num() && s != seg_index as int ==> final(self).depth_of(s)
                    == old(self).depth_of(s) && final(self).owner_of(s) == old(self).owner_of(s),
            forall|s: int, b: int|
                0 <= s < old(self).num() && 0 <= b < 64 ==> final(self).recs_of(s, b) == old(
                    self,
                ).recs_of(s, b),
    {
        self.depths.set(seg_index as usize, depth);
        proof {
            self.owners = Ghost(self.owners@.update(seg_index as int, owner));
            self.lemma_wf_parts();
        }
    }
}

/// The serialized run of buckets: each bucket's 256 bytes in order.
pub open spec fn spec_buckets_bytes(bs: Seq<Bucket>) -> Seq<u8>
    decreases bs.len(),
{
    if bs.len() == 0 {
        Seq::empty()
    } else {
        spec_bucket_bytes(bs[0].recs()) + spec_buckets_bytes(bs.drop_first())
    }
}

proof fn lemma_buckets_bytes_snoc(bs: Seq<Bucket>, b: Bucket)
    ensures
        spec_buckets_bytes(bs.push(b)) == spec_buckets_bytes(bs) + spec_bucket_bytes(b.recs()),
    decreases bs.len(),
{
    let t = bs.push(b);
    if bs.len() == 0 {
        assert(t[0] == b);
        assert(t.drop_first() =~= Seq::<Bucket>::empty());
        assert(spec_buckets_bytes(t.drop_first()) == Seq::<u8>::empty());
        assert(spec_buckets_bytes(t) =~= spec_buckets_bytes(bs) + spec_bucket_bytes(b.recs()));
    } else {
        assert(t[0] == bs[0]);
        assert(t.drop_first() =~= bs.drop_first().push(b));
        lemma_buckets_bytes_snoc(bs.drop_first(), b);
        assert(spec_buckets_bytes(t) == spec_bucket_bytes(bs[0].recs()) + (spec_buckets_bytes(
            bs.drop_first(),
        ) + spec_bucket_bytes(b.recs())));
        assert(spec_buckets_bytes(t) =~= spec_buckets_bytes(bs) + spec_bucket_bytes(b.recs()));
    }
}

proof fn lemma_buckets_bytes_len(bs: Seq<Bucket>)
    requires
        forall|b: int| 0 <= b < bs.len() ==> (#[trigger] bs[b]).wf(),
    ensures
        spec_buckets_bytes(bs).len() == 256 * bs.len(),
    decreases bs.len(),
{
    if bs.len() > 0 {
        lemma_bucket_bytes_len(bs[0].recs());
        assert(forall|b: int|
            0 <= b < bs.drop_first().len() ==> (#[trigger] bs.drop_first()[b]).wf());
        lemma_buckets_bytes_len(bs.drop_first());
    }
}

/// The serialized form of the first `s` segments of the flat layout.
pub closed spec fn spec_segs_prefix(depths: Seq<u8>, buckets: Seq<Bucket>, s: int) -> Seq<u8>
    decreases s,
{
    if s <= 0 {
        Seq::empty()
    } else {
        spec_segs_prefix(depths, buckets, s - 1) + seq![depths[s - 1]] + spec_buckets_bytes(
            buckets.subrange(64 * (s - 1), 64 * (s - 1) + 64),
        )
    }
}

/// The earlier segments' bytes do not depend on entries beyond them.
proof fn lemma_segs_prefix_extend(
    depths1: Seq<u8>,
    buckets1: Seq<Bucket>,
    depths2: Seq<u8>,
    buckets2: Seq<Bucket>,
    s: int,
)
    requires
        0 <= s <= depths1.len(),
        s <= depths2.len(),
        64 * s <= buckets1.len(),
        64 * s <= buckets2.len(),
        depths2.subrange(0, s) == depths1.subrange(0, s),
        buckets2.subrange(0, 64 * s) == buckets1.subrange(0, 64 * s),
    ensures
        spec_segs_prefix(depths2, buckets2, s) == spec_segs_prefix(depths1, buckets1, s),
    decreases s,
{
    if s > 0 {
        let lo = 64 * (s - 1);
        assert(lo + 64 == 64 * s);
        assert(depths2.subrange(0, s - 1) =~= depths2.subrange(0, s).subrange(0, s - 1));
        assert(depths1.subrange(0, s - 1) =~= depths1.subrange(0, s).subrange(0, s - 1));
        assert(buckets2.subrange(0, lo) =~= buckets2.subrange(0, 64 * s).subrange(0, lo));
        assert(buckets1.subrange(0, lo) =~= buckets1.subrange(0, 64 * s).subrange(0, lo));
        lemma_segs_prefix_extend(depths1, buckets1, depths2, buckets2, s - 1);
        assert(depths2[s - 1] == depths1[s - 1]) by {
            assert(depths2.subrange(0, s)[s - 1] == depths2[s - 1]);
            assert(depths1.subrange(0, s)[s - 1] == depths1[s - 1]);
        }
        assert(buckets2.subrange(lo, lo + 64) =~= buckets1.subrange(lo, lo + 64)) by {
            assert forall|x: int| 0 <= x < 64 implies #[trigger] buckets2.subrange(lo, lo + 64)[x]
                == buckets1.subrange(lo, lo + 64)[x] by {
                assert(buckets2.subrange(0, 64 * s)[lo + x] == buckets2[lo + x]);
                assert(buckets1.subrange(0, 64 * s)[lo + x] == buckets1[lo + x]);
            }
        }
    }
}

proof fn lemma_segs_prefix_len(depths: Seq<u8>, buckets: Seq<Bucket>, s: int)
    requires
        0 <= s,
        64 * s <= buckets.len(),
        forall|k: int| 0 <= k < buckets.len() ==> (#[trigger] buckets[k]).wf(),
    ensures
        spec_segs_prefix(depths, buckets, s).len() == 16385 * s,
    decreases s,
{
    if s > 0 {
        assert(64 * (s - 1) + 64 == 64 * s);
        assert(64 * (s - 1) <= buckets.len());
        lemma_segs_prefix_len(depths, buckets, s - 1);
        let part = buckets.subrange(64 * (s - 1), 64 * (s - 1) + 64);
        assert(forall|b: int| 0 <= b < part.len() ==> (#[trigger] part[b]).wf());
        lemma_buckets_bytes_len(part);
        assert(16385 * (s - 1) + 1 + 256 * 64 == 16385 * s);
    }
}

/// Why a segment-file image was rejected.
#[derive(Clone, Copy, Debug, PartialEq, Eq, Structural)]
pub enum StoreDecodeError {
    /// Too short to carry the 4-byte segment count.
    TooShort,
    /// A count of zero or beyond the `u32` segment-index space.
    BadCount,
    /// The image length does not match `4 + count * 16385`.
    WrongLength,
}

impl SegmentStore {
    /// The segment-file image of the store: the segment count, then each
    /// segment's depth byte and buckets.
    pub closed spec fn spec_store_bytes(self) -> Seq<u8> {
        spec_u32_to_le_bytes(self.depths@.len() as u32) + spec_segs_prefix(
            self.depths@,
            self.buckets@,
            self.num(),
        )
    }

    /// Serializes the store as its file image.
    pub fn to_bytes(&self) -> (buf: Vec<u8>)
        requires
            self.wf(),
        ensures
            buf@ == self.spec_store_bytes(),
            buf@.len() == 4 + 16385 * self.num(),
    {
        proof {
            vstd::bytes::lemma_auto_spec_u32_to_from_le_bytes();
            lemma_segs_prefix_len(self.depths@, self.buckets@, self.num());
        }
        let n = self.depths.len();
        let total = self.buckets.len();
        let mut buf: Vec<u8> = u32_to_le_bytes(n as u32);
        let ghost head = spec_u32_to_le_bytes(n as u32);
        let mut s: usize = 0;
        proof {
            assert(buf@ =~= head + spec_segs_prefix(self.depths@, self.buckets@, 0));
        }
        while s < n
            invariant
                self.wf(),
                n == self.num(),
                total == self.buckets@.len(),
                head == spec_u32_to_le_bytes(n as u32),
                s <= n,
                buf@ == head + spec_segs_prefix(self.depths@, self.buckets@, s as int),
                buf@.len() == 4 + 16385 * s,
            decreases n - s,
        {
            buf.push(self.depths[s]);
            let ghost mid = buf@;
            let ghost base = 64 * (s as int);
            let mut b: usize = 0;
            proof {
                assert(64 * (s as int) + 64 <= 64 * self.num());
                assert(base >= 0);
                assert(self.buckets@.subrange(base, base + 0) =~= Seq::<Bucket>::empty());
            }
            while b < 64
                invariant
                    self.wf(),
                    s < n,
                    n == self.num(),
                    total == self.buckets@.len(),
                    base == 64 * (s as int),
                    base + 64 <= self.buckets@.len(),
                    b <= 64,
                    mid.len() == 4 + 16385 * s + 1,
                    buf@ == mid + spec_buckets_bytes(self.buckets@.subrange(base, base + b)),
                    buf@.len() == mid.len() + 256 * b,
                decreases 64 - b,
            {
                proof {
                    assert(self.buckets@[base + b].wf());
                    assert(base + b < total as int);
                }
                let k = 64 * s + b;
                let mut rec = self.buckets[k].to_bytes();
                proof {
                    let part = self.buckets@.subrange(base, base + b as int);
                    lemma_buckets_bytes_snoc(part, self.buckets@[base + b]);
                    assert(part.push(self.buckets@[base + b]) =~= self.buckets@.subrange(
                        base,
                        base + b as int + 1,
                    ));
                    assert(forall|x: int| 0 <= x < part.len() ==> (#[trigger] part[x]).wf());
                    lemma_buckets_bytes_len(part);
                    assert((mid + spec_buckets_bytes(part)) + rec@ =~= mid + spec_buckets_bytes(
                        self.buckets@.subrange(base, base + b as int + 1),
                    ));
                }
                buf.append(&mut rec);
                b = b + 1;
            }
            proof {
                assert(mid =~= (head + spec_segs_prefix(self.depths@, self.buckets@, s as int))
                    + seq![self.depths@[s as int]]);
                assert(buf@ =~= head + spec_segs_prefix(
                    self.depths@,
                    self.buckets@,
                    s as int + 1,
                ));
            }
            s = s + 1;
        }
        buf
    }

    /// Reads a store back from a segment-file image; rejects a malformed
    /// one and says why. The ghost owners are left for the caller to
    /// re-derive from the directory.
    pub fn from_bytes(buf: &[u8]) -> (r: Result<SegmentStore, StoreDecodeError>)
        ensures
            match r {
                Ok(st) => {
                    &&& st.wf()
                    &&& buf@.len() >= 4
                    &&& st.num() == spec_u32_from_le_bytes(buf@.subrange(0, 4)) as int
                    &&& st.spec_store_bytes() == buf@
                },
                Err(StoreDecodeError::TooShort) => buf@.len() < 4,
                Err(StoreDecodeError::BadCount) => buf@.len() >= 4 && (spec_u32_from_le_bytes(
                    buf@.subrange(0, 4),
                ) == 0 || spec_u32_from_le_bytes(buf@.subrange(0, 4)) > 0x8000_0000),
                Err(StoreDecodeError::WrongLength) => buf@.len() >= 4 && 1 <= spec_u32_from_le_bytes(
                    buf@.subrange(0, 4),
                ) <= 0x8000_0000 && buf@.len() != 4 + 16385 * (spec_u32_from_le_bytes(
                    buf@.subrange(0, 4),
                ) as int),
            },
    {
        if buf.len() < 4 {
            return Err(StoreDecodeError::TooShort);
        }
        proof {
            vstd::bytes::lemma_auto_spec_u32_to_from_le_bytes();
        }
        let n32 = u32_from_le_bytes(vstd::slice::slice_subrange(buf, 0, 4));
        if n32 == 0 || n32 > 0x8000_0000 {
            return Err(StoreDecodeError::BadCount);
        }
        let n = n32 as usize;
        let total: u64 = 4 + 16385u64 * (n32 as u64);
        if buf.len() as u64 != total {
            return Err(StoreDecodeError::WrongLength);
        }
        let ghost head = buf@.subrange(0, 4);
        let mut depths: Vec<u8> = Vec::new();
        let mut buckets: Vec<Bucket> = Vec::new();
        let mut s: usize = 0;
        let mut pos: usize = 4;
        proof {
            assert(head + spec_segs_prefix(depths@, buckets@, 0) =~= buf@.subrange(0, 4));
        }
        while s < n
            invariant
                buf@.len() == 4 + 16385 * n,
                buf@.len() <= usize::MAX,
                1 <= n <= 0x8000_0000,
                s <= n,
                pos == 4 + 16385 * s,
                depths@.len() == s,
                buckets@.len() == 64 * s,
                forall|k: int| 0 <= k < buckets@.len() ==> (#[trigger] buckets@[k]).wf(),
                head == buf@.subrange(0, 4),
                head + spec_segs_prefix(depths@, buckets@, s as int) == buf@.subrange(
                    0,
                    pos as int,
                ),
            decreases n - s,
        {
            let ghost depths0 = depths@;
            let ghost buckets0 = buckets@;
            let depth = *vstd::slice::slice_index_get(buf, pos);
            depths.push(depth);
            let ghost seg_start = pos as int;
            let mut b: usize = 0;
            let mut bpos: usize = pos + 1;
            proof {
                assert(buckets@.subrange(64 * (s as int), 64 * (s as int)) =~= Seq::<
                    Bucket,
                >::empty());
            }
            while b < 64
                invariant
                    buf@.len() == 4 + 16385 * n,
                    buf@.len() <= usize::MAX,
                    s < n <= 0x8000_0000,
                    seg_start == 4 + 16385 * s,
                    b <= 64,
                    bpos == seg_start + 1 + 256 * b,
                    depths@.len() == s + 1,
                    buckets@.len() == 64 * s + b,
                    forall|k: int| 0 <= k < buckets@.len() ==> (#[trigger] buckets@[k]).wf(),
                    forall|k: int| 0 <= k < 64 * s ==> #[trigger] buckets@[k] == buckets0[k],
                    spec_buckets_bytes(buckets@.subrange(64 * (s as int), buckets@.len() as int))
                        == buf@.subrange(seg_start + 1, bpos as int),
                decreases 64 - b,
            {
                let slice = vstd::slice::slice_subrange(buf, bpos, bpos + 256);
                let bk = Bucket::from_bytes(0, slice);
                proof {
                    let part = buckets@.subrange(64 * (s as int), buckets@.len() as int);
                    lemma_buckets_bytes_snoc(part, bk);
                    assert(buckets@.push(bk).subrange(
                        64 * (s as int),
                        buckets@.push(bk).len() as int,
                    ) =~= part.push(bk));
                    assert(buf@.subrange(seg_start + 1, bpos as int) + slice@ =~= buf@.subrange(
                        seg_start + 1,
                        bpos as int + 256,
                    ));
                }
                buckets.push(bk);
                b = b + 1;
                bpos = bpos + 256;
            }
            proof {
                assert(depths@.subrange(0, s as int) =~= depths0.subrange(0, s as int));
                assert(depths0.subrange(0, s as int) =~= depths0);
                assert(depths@.subrange(0, s as int) =~= depths0);
                assert(buckets@.subrange(0, 64 * (s as int)) =~= buckets0);
                assert(buckets0.subrange(0, 64 * (s as int)) =~= buckets0);
                lemma_segs_prefix_extend(depths0, buckets0, depths@, buckets@, s as int);
                assert(spec_segs_prefix(depths@, buckets@, s as int + 1) == spec_segs_prefix(
                    depths0,
                    buckets0,
                    s as int,
                ) + seq![depth] + spec_buckets_bytes(
                    buckets@.subrange(64 * (s as int), 64 * (s as int) + 64),
                ));
                assert(seq![depth] =~= buf@.subrange(seg_start, seg_start + 1));
                assert(buckets@.subrange(64 * (s as int), 64 * (s as int) + 64) =~= buckets@.subrange(
                    64 * (s as int),
                    buckets@.len() as int,
                ));
                assert((buf@.subrange(0, seg_start) + buf@.subrange(seg_start, seg_start + 1))
                    + buf@.subrange(seg_start + 1, seg_start + 16385) =~= buf@.subrange(
                    0,
                    seg_start + 16385,
                ));
                assert(head + spec_segs_prefix(depths@, buckets@, s as int + 1) =~= buf@.subrange(
                    0,
                    seg_start + 16385,
                ));
            }
            s = s + 1;
            pos = pos + 16385;
        }
        let ghost owners = Seq::<u64>::new(n as nat, |i: int| 0u64);
        let st = SegmentStore { depths, buckets, owners: Ghost(owners) };
        proof {
            assert(spec_u32_to_le_bytes(n as u32) =~= head) by {
                assert(spec_u32_to_le_bytes(spec_u32_from_le_bytes(head)) == head);
            }
            assert(st.spec_store_bytes() =~= buf@) by {
                assert(buf@.subrange(0, pos as int) =~= buf@);
            }
            st.lemma_wf_parts();
        }
        Ok(st)
    }
}

/// 64 fresh empty buckets.
fn empty_buckets() -> (bs: Vec<Bucket>)
    ensures
        bs@.len() == 64,
        forall|b: int| 0 <= b < 64 ==> (#[trigger] bs@[b]).wf(),
        forall|b: int, k: int|
            0 <= b < 64 && 0 <= k < 16 ==> spec_is_empty(#[trigger] bs@[b].recs()[k]),
{
    let mut bs: Vec<Bucket> = Vec::new();
    let mut i: usize = 0;
    while i < 64
        invariant
            i <= 64,
            bs@.len() == i,
            forall|b: int| 0 <= b < i ==> (#[trigger] bs@[b]).wf(),
            forall|b: int, k: int|
                0 <= b < i && 0 <= k < 16 ==> spec_is_empty(#[trigger] bs@[b].recs()[k]),
        decreases 64 - i,
    {
        bs.push(Bucket::new());
        i = i + 1;
    }
    bs
}

} // verus!
