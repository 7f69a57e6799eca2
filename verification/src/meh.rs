//! The engine: extendible hashing over the directory and the segment
//! store, with `put`, `get` and the split protocol.

use vstd::arithmetic::power2::{lemma2_to64, lemma_pow2_adds, lemma_pow2_pos, pow2};
use vstd::prelude::*;

verus! {

use crate::bucket::{
    spec_bucket_inv, spec_cell, spec_is_empty, Bucket, Record, lemma_find_from_props,
};
use crate::directory::{Directory, MAX_GLOBAL_DEPTH};
use crate::prefix::{
    lemma_div_block, lemma_prefix_bound, lemma_prefix_compose, lemma_prefix_step, spec_prefix,
};
use crate::serializer::{ByteKey, ByteValue};
use crate::store::SegmentStore;

/// The words of the engine's keyed 256-bit hash of a byte string. The
/// first word routes through the directory; the last selects the bucket
/// within a segment.
pub uninterp spec fn highway_words(k0: u64, k1: u64, k2: u64, k3: u64, data: Seq<u8>) -> Seq<u64>;

/// Relies on highway's `HighwayHasher::new` and `HighwayHash::hash256`: a
/// keyed 256-bit digest that is a pure function of the seed words and the
/// input bytes, identical across processes and machines.
#[verifier::external_body]
fn hash256(k0: u64, k1: u64, k2: u64, k3: u64, data: &Vec<u8>) -> (r: (u64, u64, u64, u64))
    ensures
        ({
            let w = highway_words(k0, k1, k2, k3, data@);
            r.0 == w[0] && r.1 == w[1] && r.2 == w[2] && r.3 == w[3]
        }),
{
    let words = highway::HighwayHash::hash256(
        highway::HighwayHasher::new(highway::Key([k0, k1, k2, k3])),
        data.as_slice(),
    );
    (words[0], words[1], words[2], words[3])
}

/// The engine-scoped hash seed, fixed so that a database answers the same
/// across opens.
pub const SEED0: u64 = 53252;

pub const SEED1: u64 = 2352323;

pub const SEED2: u64 = 563956259;

pub const SEED3: u64 = 234832;

/// Returned by `put` when the key's bucket still overflows at the deepest
/// directory this build can hold: sixteen other keys share its routing
/// prefix and bucket slot.
#[derive(Clone, Copy, Debug, PartialEq, Eq, Structural)]
pub struct SaturatedError {
    pub hash_key: u64,
    pub bucket_index: u64,
}

/// Returned by `open` when a decoded directory and segment store do not
/// form a consistent extendible-hash layout.
#[derive(Clone, Copy, Debug, PartialEq, Eq, Structural)]
pub struct CorruptLayoutError {}

/// The extendible-hash engine: a directory routing hash prefixes to the
/// segments of the store.
pub struct MehDB {
    directory: Directory,
    store: SegmentStore,
}

/// What a sequence of `put`s leaves under a hashed key: an insertion,
/// except that storing the value 0 under the hash word 0 writes the
/// on-disk empty record and so erases the cell.
pub open spec fn spec_hashed_put(m: Map<(u64, u64), u64>, k: (u64, u64), v: u64) -> Map<
    (u64, u64),
    u64,
> {
    if k.0 == 0 && v == 0 {
        m.remove(k)
    } else {
        m.insert(k, v)
    }
}

/// Sixteen keys other than `h0`, pairwise distinct, all present in the
/// map, all sharing `h0`'s bucket slot and its deepest routing prefix.
pub open spec fn spec_sat_witness(ks: Seq<u64>, m: Map<(u64, u64), u64>, h0: u64, b: u64) -> bool {
    &&& ks.len() == 16
    &&& ks.no_duplicates()
    &&& forall|i: int|
        0 <= i < 16 ==> #[trigger] ks[i] != h0 && m.dom().contains((ks[i], b)) && spec_prefix(
            ks[i],
            MAX_GLOBAL_DEPTH as u64,
        ) == spec_prefix(h0, MAX_GLOBAL_DEPTH as u64)
}

/// The one state of affairs in which `put(h0, ...)` cannot be given a
/// slot: sixteen other keys fill its bucket and no depth can separate
/// them from it.
pub open spec fn spec_saturated(m: Map<(u64, u64), u64>, h0: u64, b: u64) -> bool {
    exists|ks: Seq<u64>| #[trigger] spec_sat_witness(ks, m, h0, b)
}

/// A sequence of distinct integers drawn from `[lo, hi)` can have at most
/// `hi - lo` elements.
pub proof fn lemma_distinct_ints_bound(s: Seq<int>, lo: int, hi: int)
    requires
        lo <= hi,
        s.no_duplicates(),
        forall|k: int| 0 <= k < s.len() ==> lo <= #[trigger] s[k] < hi,
    ensures
        s.len() <= hi - lo,
{
    broadcast use vstd::seq_lib::group_seq_properties;

    s.unique_seq_to_set();
    assert(s.to_set().subset_of(vstd::set_lib::set_int_range(lo, hi))) by {
        assert forall|x: int| s.to_set().contains(x) implies vstd::set_lib::set_int_range(
            lo,
            hi,
        ).contains(x) by {
            let k = choose|k: int| 0 <= k < s.len() && s[k] == x;
            assert(lo <= s[k] < hi);
        }
    }
    vstd::set_lib::lemma_int_range(lo, hi);
    vstd::set_lib::lemma_len_subset(s.to_set(), vstd::set_lib::set_int_range(lo, hi));
}

/// How a slot index relates to the halves of a splitting segment's run:
/// the run is the `own`-th block of width `2m`, its upper half is the
/// `mask`-th block of width `m`, its lower half the `2 own`-th.
proof fn lemma_run_blocks(j: int, m: int, own: int, mask: int, start: int)
    requires
        m > 0,
        j >= 0,
        own >= 0,
        mask == 2 * own + 1,
        start == own * (2 * m),
    ensures
        (start + m <= j < start + 2 * m) <==> j / m == mask,
        (start <= j < start + m) <==> j / m == 2 * own,
        (start <= j < start + 2 * m) <==> j / (2 * m) == own,
{
    lemma_div_block(j, m, mask);
    lemma_div_block(j, m, 2 * own);
    lemma_div_block(j, 2 * m, own);
    assert((2 * own + 1) * m == own * (2 * m) + m) by (nonlinear_arith);
    assert((2 * own + 2) * m == own * (2 * m) + 2 * m) by (nonlinear_arith);
    assert((2 * own) * m == own * (2 * m)) by (nonlinear_arith);
    assert((own + 1) * (2 * m) == own * (2 * m) + 2 * m) by (nonlinear_arith);
}

impl MehDB {
    /// The directory, for stating the engine's layout laws.
    pub closed spec fn dir(self) -> Directory {
        self.directory
    }

    /// The segment store, for stating the engine's layout laws.
    pub closed spec fn segs(self) -> SegmentStore {
        self.store
    }

    /// The number of prefix bits the directory currently uses.
    pub open spec fn gd(self) -> u64 {
        self.dir().depth() as u64
    }

    /// The directory addresses segment `s` by exactly the aligned run of
    /// slots whose index has the segment's owner as its depth-long prefix.
    pub open spec fn seg_ok(self, s: int) -> bool {
        let d = self.segs().depth_of(s);
        let own = self.segs().owner_of(s);
        &&& d as u64 <= self.gd()
        &&& d <= MAX_GLOBAL_DEPTH
        &&& (own as nat) < pow2(d as nat)
        &&& forall|j: int|
            0 <= j < self.dir().entries().len()
                ==> ((#[trigger] self.dir().entries()[j]) as int == s <==> j / (pow2(
                (self.gd() - d) as nat,
            ) as int) == own as int)
    }

    /// The engine invariant: well-formed parts, directory entries that hit
    /// allocated segments, the buddy-run layout for every segment, and the
    /// structural bucket invariants everywhere.
    pub open spec fn inv(self) -> bool {
        &&& self.dir().wf()
        &&& self.segs().wf()
        &&& forall|j: int|
            0 <= j < self.dir().entries().len() ==> ((#[trigger] self.dir().entries()[j])
                as int) < self.segs().num()
        &&& forall|s: int| 0 <= s < self.segs().num() ==> self.seg_ok(s)
        &&& forall|s: int, b: int|
            0 <= s < self.segs().num() && 0 <= b < 64 ==> spec_bucket_inv(
                #[trigger] self.segs().recs_of(s, b),
            )
    }

    /// The segment a hash word routes to.
    pub open spec fn spec_route(self, hk: u64) -> int {
        self.dir().entries()[self.dir().spec_dir_index(hk)] as int
    }

    /// What the engine stores under a hash word and bucket slot.
    pub open spec fn spec_cell_at(self, hk: u64, b: u64) -> Option<u64> {
        spec_cell(self.segs().recs_of(self.spec_route(hk), b as int), hk)
    }

    /// The engine as a map from hashed identities to values.
    pub open spec fn view(self) -> Map<(u64, u64), u64> {
        Map::new(
            |k: (u64, u64)| k.1 < 64 && self.spec_cell_at(k.0, k.1) is Some,
            |k: (u64, u64)| self.spec_cell_at(k.0, k.1).unwrap(),
        )
    }

    /// Routing lands on an allocated segment whose owner prefix is the
    /// key's own.
    pub proof fn lemma_route(self, hk: u64)
        requires
            self.inv(),
        ensures
            0 <= self.spec_route(hk) < self.segs().num(),
            0 <= self.dir().spec_dir_index(hk) < self.dir().entries().len(),
            spec_prefix(hk, self.segs().depth_of(self.spec_route(hk)) as u64)
                == self.segs().owner_of(self.spec_route(hk)),
    {
        let j = self.directory.spec_dir_index(hk);
        lemma_prefix_bound(hk, self.gd());
        let s = self.spec_route(hk);
        assert(self.seg_ok(s));
        let d = self.store.depth_of(s);
        lemma_prefix_compose(hk, d as u64, self.gd());
        lemma_pow2_pos((self.gd() - d) as nat);
        assert(j / (pow2((self.gd() - d) as nat) as int) == self.store.owner_of(s) as int);
        lemma_prefix_bound(hk, d as u64);
    }

    /// Two keys with the same prefix at one segment's depth route to the
    /// same segment, whenever one of them routes there.
    pub proof fn lemma_route_together(self, hk1: u64, hk2: u64)
        requires
            self.inv(),
            spec_prefix(hk1, self.segs().depth_of(self.spec_route(hk1)) as u64) == spec_prefix(
                hk2,
                self.segs().depth_of(self.spec_route(hk1)) as u64,
            ),
        ensures
            self.spec_route(hk2) == self.spec_route(hk1),
    {
        self.lemma_route(hk1);
        let s = self.spec_route(hk1);
        let d = self.store.depth_of(s);
        let j2 = self.directory.spec_dir_index(hk2);
        assert(self.seg_ok(s));
        lemma_prefix_bound(hk2, self.gd());
        lemma_prefix_compose(hk2, d as u64, self.gd());
        lemma_pow2_pos((self.gd() - d) as nat);
        assert(j2 / (pow2((self.gd() - d) as nat) as int) == self.store.owner_of(s) as int);
        assert(self.directory.entries()[j2] as int == s);
    }

    /// Doubling the directory with buddy pairing disturbs neither the
    /// layout invariant nor a single answer: every key routes to the same
    /// segment as before.
    #[verifier::rlimit(60)]
    proof fn lemma_grow_preserves(a: MehDB, b: MehDB)
        requires
            a.inv(),
            b.segs() == a.segs(),
            b.dir().wf(),
            b.dir().depth() == a.dir().depth() + 1,
            b.dir().entries().len() == 2 * a.dir().entries().len(),
            forall|i: int|
                0 <= i < a.dir().entries().len() ==> b.dir().entries()[2 * i] == a.dir().entries()[i]
                    && b.dir().entries()[2 * i + 1] == a.dir().entries()[i],
        ensures
            b.inv(),
            forall|hk: u64| #[trigger] b.spec_route(hk) == a.spec_route(hk),
            forall|hk: u64, b2: u64| #[trigger] b.spec_cell_at(hk, b2) == a.spec_cell_at(hk, b2),
    {
        let gd = a.gd();
        assert forall|j: int| 0 <= j < b.dir().entries().len() implies #[trigger] b.dir().entries()[j]
            == a.dir().entries()[j / 2] by {
            vstd::arithmetic::div_mod::lemma_fundamental_div_mod(j, 2);
            assert(0 <= j % 2 < 2) by (nonlinear_arith);
            let i = j / 2;
            assert(b.dir().entries()[2 * i] == a.dir().entries()[i] && b.dir().entries()[2 * i + 1]
                == a.dir().entries()[i]);
        }
        assert forall|s: int| 0 <= s < b.segs().num() implies b.seg_ok(s) by {
            assert(a.seg_ok(s));
            let d = a.segs().depth_of(s);
            let own = a.segs().owner_of(s);
            let m = pow2((gd - d) as nat) as int;
            lemma_pow2_pos((gd - d) as nat);
            lemma_pow2_adds(1, (gd - d) as nat);
            lemma2_to64();
            assert forall|j: int| 0 <= j < b.dir().entries().len() implies ((
            #[trigger] b.dir().entries()[j]) as int == s <==> j / (pow2((b.gd() - d) as nat)
                as int) == own as int) by {
                assert(b.dir().entries()[j] == a.dir().entries()[j / 2]);
                assert(pow2((b.gd() - d) as nat) as int == 2 * m);
                vstd::arithmetic::div_mod::lemma_div_denominator(j, 2, m);
                assert((a.dir().entries()[j / 2]) as int == s <==> (j / 2) / m == own as int);
            }
        }
        assert forall|hk: u64| #[trigger] b.spec_route(hk) == a.spec_route(hk) by {
            let j1 = a.dir().spec_dir_index(hk);
            let j2 = b.dir().spec_dir_index(hk);
            lemma_prefix_bound(hk, b.gd());
            lemma_prefix_bound(hk, gd);
            crate::prefix::lemma_prefix_step(hk, gd);
            assert(b.dir().entries()[j2] == a.dir().entries()[j2 / 2]);
            assert(j2 / 2 == j1);
        }
    }

    /// The first directory slot of a segment's run.
    spec fn spec_first_slot(self, s: int) -> int {
        self.segs().owner_of(s) as int * (pow2(
            (self.gd() - self.segs().depth_of(s)) as nat,
        ) as int)
    }

    /// A segment addressed by fewer prefix bits than the directory uses
    /// leaves room: the store holds strictly fewer segments than the
    /// directory has slots.
    proof fn lemma_count_with_split_room(self, s0: int)
        requires
            self.inv(),
            0 <= s0 < self.segs().num(),
            (self.segs().depth_of(s0) as u64) < self.gd(),
        ensures
            self.segs().num() < pow2(self.gd() as nat),
    {
        let gd = self.gd();
        let n = self.segs().num();
        // each segment's first slot points back at it
        assert forall|s: int| 0 <= s < n implies 0 <= self.spec_first_slot(s) < pow2(gd as nat)
            && (self.dir().entries()[self.spec_first_slot(s)]) as int == s by {
            assert(self.seg_ok(s));
            let d = self.segs().depth_of(s);
            let own = self.segs().owner_of(s) as int;
            let m = pow2((gd - d) as nat) as int;
            lemma_pow2_pos((gd - d) as nat);
            lemma_pow2_adds(d as nat, (gd - d) as nat);
            assert((own + 1) * m == own * m + m) by (nonlinear_arith);
            assert((own + 1) * m <= pow2(d as nat) * m) by (nonlinear_arith)
                requires
                    own + 1 <= pow2(d as nat) && m > 0,
            ;
            assert(own * m >= 0) by (nonlinear_arith)
                requires
                    own >= 0 && m > 0,
            ;
            crate::prefix::lemma_div_block(own * m, m, own);
        }
        let base = Seq::new(n as nat, |s: int| self.spec_first_slot(s));
        let slots = base.push(self.spec_first_slot(s0) + 1);
        // the run of the shallow segment is at least two slots wide, so
        // the slot after its first also points at it
        let d0 = self.segs().depth_of(s0);
        let own0 = self.segs().owner_of(s0) as int;
        let m0 = pow2((gd - d0) as nat) as int;
        assert(self.seg_ok(s0));
        lemma_pow2_pos((gd - d0) as nat);
        assert(m0 >= 2) by {
            vstd::arithmetic::power2::lemma_pow2_strictly_increases(0, (gd - d0) as nat);
            lemma2_to64();
        }
        assert(self.spec_first_slot(s0) + 1 < pow2(gd as nat) && (self.dir().entries()[
        self.spec_first_slot(s0) + 1]) as int == s0) by {
            lemma_pow2_adds(d0 as nat, (gd - d0) as nat);
            assert((own0 + 1) * m0 == own0 * m0 + m0) by (nonlinear_arith);
            assert((own0 + 1) * m0 <= pow2(d0 as nat) * m0) by (nonlinear_arith)
                requires
                    own0 + 1 <= pow2(d0 as nat) && m0 > 0,
            ;
            crate::prefix::lemma_div_block(own0 * m0 + 1, m0, own0);
        }
        assert forall|x: int, y: int| 0 <= x < y < slots.len() implies slots[x] != slots[y] by {
            assert(slots[x] == base[x] && base[x] == self.spec_first_slot(x));
            if slots[x] == slots[y] {
                if y < n {
                    assert(slots[y] == self.spec_first_slot(y));
                    assert(self.dir().entries()[self.spec_first_slot(x)] as int == x);
                    assert(self.dir().entries()[self.spec_first_slot(y)] as int == y);
                    assert(false);
                } else {
                    // the extra slot also points at s0, yet it is not any
                    // segment's first slot
                    assert(slots[y] == self.spec_first_slot(s0) + 1);
                    assert(self.dir().entries()[self.spec_first_slot(x)] as int == x);
                    assert(self.dir().entries()[self.spec_first_slot(s0) + 1] as int == s0);
                    assert(x == s0);
                    assert(false);
                }
            }
        }
        assert(slots.no_duplicates());
        assert forall|k: int| 0 <= k < slots.len() implies 0 <= #[trigger] slots[k] < pow2(
            gd as nat,
        ) as int by {
            if k < n {
                assert(slots[k] == self.spec_first_slot(k));
                assert(self.dir().entries()[self.spec_first_slot(k)] as int == k);
            } else {
                assert(slots[k] == self.spec_first_slot(s0) + 1);
            }
        }
        lemma_distinct_ints_bound(slots, 0, pow2(gd as nat) as int);
    }

    /// The split protocol: raises the overflowing segment's depth by one,
    /// builds a sibling from the records whose next prefix bit is set,
    /// publishes the sibling, and rewires the upper half of the old run to
    /// it. No key's answer changes.
    #[verifier::rlimit(100)]
    fn split_segment(&mut self, seg_idx: u32, hk: u64)
        requires
            old(self).inv(),
            seg_idx as int == old(self).spec_route(hk),
            old(self).segs().depth_of(seg_idx as int) < MAX_GLOBAL_DEPTH,
        ensures
            final(self).inv(),
            forall|hk2: u64, b2: u64|
                b2 < 64 ==> #[trigger] final(self).spec_cell_at(hk2, b2) == old(
                    self,
                ).spec_cell_at(hk2, b2),
            final(self).view() == old(self).view(),
            final(self).segs().depth_of(final(self).spec_route(hk)) == old(self).segs().depth_of(
                seg_idx as int,
            ) + 1,
            final(self).spec_route(hk) < final(self).segs().num(),
    {
        let ghost g0 = *self;
        proof {
            g0.lemma_route(hk);
        }
        let seg = self.store.segment(seg_idx);
        let ld = seg.depth;
        // 1. grow the directory if the segment's depth has caught up
        self.directory.grow_if_eq(ld);
        let ghost g1 = *self;
        proof {
            assert(g0.seg_ok(seg_idx as int));
            if g0.dir().depth() > ld {
                assert(g1 == g0);
            } else {
                Self::lemma_grow_preserves(g0, g1);
            }
            assert(g1.inv());
            assert(g1.spec_route(hk) == seg_idx as int);
            assert((ld as u64) < g1.gd());
            g1.lemma_route(hk);
        }
        let nd = ld + 1;
        let ghost gd = g1.gd();
        let ghost own = g1.segs().owner_of(seg_idx as int) as int;
        let ghost m = pow2((gd - nd) as nat) as int;
        let ghost len0 = g1.dir().entries().len() as int;
        // 2. the sibling mask: the routed prefix one bit longer, with that
        // bit forced on
        let p1 = crate::prefix::prefix_bits(hk, nd as u64);
        let mask = p1 | 1;
        proof {
            lemma_prefix_step(hk, ld as u64);
            assert(spec_prefix(hk, ld as u64) == own);
            assert(p1 % 2 == 0 ==> (p1 | 1) == p1 + 1) by (bit_vector);
            assert(p1 % 2 == 1 ==> (p1 | 1) == p1) by (bit_vector);
            assert(p1 == 2 * own || p1 == 2 * own + 1);
            assert((2 * own) % 2 == 0 && (2 * own + 1) % 2 == 1) by (nonlinear_arith);
            assert(mask == 2 * own + 1);
            assert(mask % 2 == 1) by (nonlinear_arith)
                requires
                    mask == 2 * own + 1 && own >= 0,
            ;
        }
        // 3. build the sibling's buckets from the records that move
        let mut new_buckets: Vec<Bucket> = Vec::new();
        let mut bi: usize = 0;
        while bi < 64
            invariant
                *self == g1,
                g1.inv(),
                seg_idx as int == g1.spec_route(hk),
                (seg_idx as int) < g1.segs().num(),
                1 <= nd <= 64,
                bi <= 64,
                new_buckets@.len() == bi,
                forall|b: int| 0 <= b < bi ==> (#[trigger] new_buckets@[b]).wf(),
                forall|b: int|
                    0 <= b < bi ==> (#[trigger] new_buckets@[b]).recs()
                        == crate::bucket::spec_split_records(
                        g1.segs().recs_of(seg_idx as int, b),
                        mask,
                        nd as u64,
                    ),
            decreases 64 - bi,
        {
            let ob = self.store.bucket(seg_idx, bi as u32);
            let nb = ob.split_off(mask, nd as u64);
            new_buckets.push(nb);
            bi = bi + 1;
        }
        // 4. publish the sibling
        proof {
            g1.lemma_count_with_split_room(seg_idx as int);
            assert(pow2(gd as nat) <= 0x8000_0000) by {
                if gd < 31 {
                    vstd::arithmetic::power2::lemma_pow2_strictly_increases(gd as nat, 31);
                }
                lemma2_to64();
            }
        }
        let ghost nb_view = new_buckets@;
        let new_idx = self.store.allocate_with_buckets(new_buckets, nd, Ghost(mask));
        let ghost g2 = *self;
        // 5. rewire the upper half of the old segment's run: the run
        // starts at the routed prefix padded with zero bits, which is a
        // multiple of the run's width and so already buddy-aligned
        let gd_now = self.directory.global_depth();
        let step: u64 = 1u64 << ((gd_now - nd) as u64);
        let p_ld = crate::prefix::prefix_bits(hk, ld as u64);
        let start: u64 = p_ld << ((gd_now - ld) as u64);
        proof {
            lemma_pow2_pos((gd - nd) as nat);
            lemma_pow2_pos((gd - ld) as nat);
            vstd::bits::lemma_u64_pow2_no_overflow((gd - nd) as nat);
            vstd::bits::lemma_u64_shl_is_mul(1u64, (gd_now - nd) as u64);
            assert(step == m);
            // start = own * 2^(gd - ld), the first slot of the old run
            lemma_pow2_adds((gd - nd) as nat, 1);
            lemma2_to64();
            assert(pow2((gd - ld) as nat) == 2 * m);
            assert(g1.seg_ok(seg_idx as int));
            assert(own < pow2(ld as nat));
            assert((own + 1) * (2 * m) <= pow2(ld as nat) * (2 * m)) by (nonlinear_arith)
                requires
                    own + 1 <= pow2(ld as nat) && m > 0,
            ;
            lemma_pow2_adds(ld as nat, (gd - ld) as nat);
            assert(pow2(ld as nat) * (2 * m) == pow2(gd as nat)) by {
                assert(pow2(ld as nat) * pow2((gd - ld) as nat) == pow2(gd as nat));
            }
            assert((own + 1) * (2 * m) == own * (2 * m) + 2 * m) by (nonlinear_arith);
            assert(own * (2 * m) >= 0) by (nonlinear_arith)
                requires
                    own >= 0 && m > 0,
            ;
            assert(own * pow2((gd - ld) as nat) <= u64::MAX);
            vstd::bits::lemma_u64_shl_is_mul(p_ld, (gd_now - ld) as u64);
            assert(start == own * (2 * m));
            assert(start + 2 * m <= len0) by {
                assert(len0 == pow2(gd as nat));
            }
        }
        let mut i: u64 = 0;
        while i < step
            invariant
                self.segs() == g2.segs(),
                self.dir().wf(),
                self.dir().depth() == g1.dir().depth(),
                self.dir().entries().len() == len0,
                i <= step,
                step == m,
                m >= 1,
                start + 2 * m <= len0,
                len0 <= 0x8000_0000,
                new_idx < self.segs().num(),
                forall|j: int|
                    0 <= j < len0 && !(start + m <= j < start + m + i) ==> #[trigger] self.dir().entries()[j]
                        == g1.dir().entries()[j],
                forall|j: int|
                    start + m <= j < start + m + i ==> #[trigger] self.dir().entries()[j]
                        == new_idx,
            decreases step - i,
        {
            self.directory.set_segment_index((start + step + i) as usize, new_idx);
            i = i + 1;
        }
        // 6. raise the old segment's depth; it now owns only the lower half
        self.store.update_segment(seg_idx, nd, Ghost((mask - 1) as u64));
        proof {
            let fin = *self;
            let nd64 = nd as u64;
            let num0 = g1.segs().num();
            let new_i = new_idx as int;
            let si = seg_idx as int;
            assert(new_i == num0);
            assert(fin.gd() == gd);
            assert(fin.dir().entries().len() == len0);
            assert(len0 == pow2(gd as nat));
            // the directory after rewiring
            assert forall|j: int| 0 <= j < len0 implies (#[trigger] fin.dir().entries()[j]) == (
            if start + m <= j < start + 2 * m {
                new_idx
            } else {
                g1.dir().entries()[j]
            }) by {}
            // every entry is in range
            assert forall|j: int| 0 <= j < len0 implies ((#[trigger] fin.dir().entries()[j])
                as int) < fin.segs().num() by {
                if !(start + m <= j < start + 2 * m) {
                    assert(((g1.dir().entries()[j]) as int) < num0);
                }
            }
            // the buddy-run layout holds for every segment
            assert forall|s: int| 0 <= s < fin.segs().num() implies fin.seg_ok(s) by {
                if s == new_i {
                    assert(fin.segs().depth_of(s) == nd && fin.segs().owner_of(s) == mask);
                    assert((mask as nat) < pow2(nd as nat)) by {
                        lemma_pow2_adds(ld as nat, 1);
                        lemma2_to64();
                        assert(pow2(nd as nat) == 2 * pow2(ld as nat));
                        assert(own < pow2(ld as nat));
                    }
                    assert forall|j: int| 0 <= j < len0 implies ((
                    #[trigger] fin.dir().entries()[j]) as int == s <==> j / (pow2(
                        (gd - nd) as nat,
                    ) as int) == mask as int) by {
                        lemma_run_blocks(j, m, own, mask as int, start as int);
                        if start + m <= j < start + 2 * m {
                        } else {
                            assert(fin.dir().entries()[j] == g1.dir().entries()[j]);
                            assert(((g1.dir().entries()[j]) as int) < num0);
                        }
                    }
                } else if s == si {
                    assert(fin.segs().depth_of(s) == nd && fin.segs().owner_of(s) as int == 2
                        * own);
                    assert(g1.seg_ok(si));
                    assert((2 * own + 1) < pow2(nd as nat)) by {
                        lemma_pow2_adds(ld as nat, 1);
                        assert(pow2(nd as nat) == 2 * pow2(ld as nat));
                    }
                    assert forall|j: int| 0 <= j < len0 implies ((
                    #[trigger] fin.dir().entries()[j]) as int == s <==> j / (pow2(
                        (gd - nd) as nat,
                    ) as int) == 2 * own) by {
                        lemma_run_blocks(j, m, own, mask as int, start as int);
                        assert((g1.dir().entries()[j]) as int == si <==> j / (2 * m) == own);
                        if start + m <= j < start + 2 * m {
                            assert(fin.dir().entries()[j] == new_idx);
                            assert(new_i != si);
                            assert(j / m == mask as int);
                        } else {
                            assert(fin.dir().entries()[j] == g1.dir().entries()[j]);
                            if j / m == 2 * own {
                                assert(start <= j < start + m);
                                assert(j / (2 * m) == own);
                            }
                            if (g1.dir().entries()[j]) as int == si {
                                assert(j / (2 * m) == own);
                                assert(start <= j < start + 2 * m);
                                assert(start <= j < start + m);
                            }
                        }
                    }
                } else {
                    assert(g1.seg_ok(s));
                    let d = g1.segs().depth_of(s);
                    let ms = pow2((gd - d) as nat) as int;
                    assert(fin.segs().depth_of(s) == d && fin.segs().owner_of(s)
                        == g1.segs().owner_of(s));
                    assert forall|j: int| 0 <= j < len0 implies ((
                    #[trigger] fin.dir().entries()[j]) as int == s <==> j / ms
                        == g1.segs().owner_of(s) as int) by {
                        lemma_run_blocks(j, m, own, mask as int, start as int);
                        assert((g1.dir().entries()[j]) as int == s <==> j / ms == g1.segs().owner_of(
                            s,
                        ) as int);
                        if start + m <= j < start + 2 * m {
                            assert(fin.dir().entries()[j] == new_idx);
                            assert(new_i != s);
                            // a slot of the old run cannot satisfy another
                            // segment's run condition
                            assert(j / (2 * m) == own);
                            assert((g1.dir().entries()[j]) as int == si);
                            if j / ms == g1.segs().owner_of(s) as int {
                                assert((g1.dir().entries()[j]) as int == s);
                                assert(false);
                            }
                        } else {
                            assert(fin.dir().entries()[j] == g1.dir().entries()[j]);
                        }
                    }
                }
            }
            // bucket invariants everywhere
            assert forall|s: int, b: int|
                0 <= s < fin.segs().num() && 0 <= b < 64 implies spec_bucket_inv(
                #[trigger] fin.segs().recs_of(s, b),
            ) by {
                if s == new_i {
                    assert(spec_bucket_inv(g1.segs().recs_of(si, b)));
                    crate::bucket::lemma_split_records_inv(g1.segs().recs_of(si, b), mask, nd64);
                    assert(g2.segs().recs_of(new_i, b) == (#[trigger] nb_view[b]).recs());
                    assert(nb_view[b].recs() == crate::bucket::spec_split_records(
                        g1.segs().recs_of(si, b),
                        mask,
                        nd64,
                    ));
                    assert(fin.segs().recs_of(s, b) == g2.segs().recs_of(s, b));
                } else {
                    assert(fin.segs().recs_of(s, b) == g1.segs().recs_of(s, b));
                    assert(spec_bucket_inv(g1.segs().recs_of(s, b)));
                }
            }
            assert(fin.inv());
            // no key's answer changes
            assert forall|hk2: u64, b2: u64| b2 < 64 implies #[trigger] fin.spec_cell_at(hk2, b2)
                == g1.spec_cell_at(hk2, b2) by {
                g1.lemma_route(hk2);
                let s2 = g1.spec_route(hk2);
                let j2 = g1.dir().spec_dir_index(hk2);
                lemma_prefix_bound(hk2, gd);
                assert(fin.dir().spec_dir_index(hk2) == j2);
                lemma_run_blocks(j2, m, own, mask as int, start as int);
                if s2 == si {
                    assert(spec_prefix(hk2, ld as u64) == own);
                    lemma_prefix_step(hk2, ld as u64);
                    lemma_prefix_compose(hk2, nd64, gd);
                    assert(j2 / m == spec_prefix(hk2, nd64) as int);
                    assert(g1.seg_ok(si));
                    assert(j2 / (2 * m) == own) by {
                        lemma_prefix_compose(hk2, ld as u64, gd);
                        lemma_pow2_adds((gd - nd) as nat, 1);
                    }
                    assert(start <= j2 < start + 2 * m);
                    if spec_prefix(hk2, nd64) == mask {
                        assert(start + m <= j2 < start + 2 * m);
                        assert(fin.dir().entries()[j2] == new_idx);
                        assert(fin.spec_route(hk2) == new_i);
                        assert(g2.segs().recs_of(new_i, b2 as int) == (#[trigger] nb_view[b2 as int]).recs());
                        assert(fin.segs().recs_of(new_i, b2 as int)
                            == crate::bucket::spec_split_records(
                            g1.segs().recs_of(si, b2 as int),
                            mask,
                            nd64,
                        ));
                        crate::bucket::lemma_cell_split_records(
                            g1.segs().recs_of(si, b2 as int),
                            mask,
                            nd64,
                            hk2,
                        );
                    } else {
                        assert(spec_prefix(hk2, nd64) as int == 2 * own);
                        assert(start <= j2 < start + m);
                        assert(fin.dir().entries()[j2] == g1.dir().entries()[j2]);
                        assert(fin.spec_route(hk2) == si);
                        assert(fin.segs().recs_of(si, b2 as int) == g1.segs().recs_of(
                            si,
                            b2 as int,
                        ));
                    }
                } else {
                    assert(g1.dir().entries()[j2] as int == s2);
                    assert(g1.seg_ok(si));
                    if start + m <= j2 < start + 2 * m {
                        assert(j2 / (2 * m) == own);
                        assert(g1.dir().entries()[j2] as int == si);
                        assert(false);
                    }
                    assert(fin.dir().entries()[j2] == g1.dir().entries()[j2]);
                    assert(fin.spec_route(hk2) == s2);
                    assert(fin.segs().recs_of(s2, b2 as int) == g1.segs().recs_of(s2, b2 as int));
                }
            }
            // the routed segment for the split key is one level deeper now
            assert(fin.segs().depth_of(fin.spec_route(hk)) == nd && fin.spec_route(hk)
                < fin.segs().num()) by {
                let jh = g1.dir().spec_dir_index(hk);
                lemma_prefix_bound(hk, gd);
                lemma_run_blocks(jh, m, own, mask as int, start as int);
                assert(g1.seg_ok(si));
                assert(jh / (2 * m) == own) by {
                    lemma_prefix_compose(hk, ld as u64, gd);
                    lemma_pow2_adds((gd - nd) as nat, 1);
                }
                assert(start <= jh < start + 2 * m);
                if start + m <= jh {
                    assert(fin.dir().entries()[jh] == new_idx);
                } else {
                    assert(fin.dir().entries()[jh] == g1.dir().entries()[jh]);
                    assert(g1.dir().entries()[jh] as int == si);
                }
            }
            // the abstract map is untouched
            assert forall|k: (u64, u64)| #![all_triggers] true implies (fin.view().dom().contains(
                k,
            ) <==> g0.view().dom().contains(k)) && (fin.view().dom().contains(k)
                ==> fin.view()[k] == g0.view()[k]) by {
                if k.1 < 64 {
                    assert(fin.spec_cell_at(k.0, k.1) == g1.spec_cell_at(k.0, k.1));
                    assert(g1.spec_cell_at(k.0, k.1) == g0.spec_cell_at(k.0, k.1));
                }
            }
            assert(fin.view() =~= g0.view());
        }
    }

    /// Keys that share a prefix at or below a segment's depth route with
    /// each other; in particular sharers of the deepest prefix do.
    proof fn lemma_same_prefix_routes(self, h0: u64, hk2: u64)
        requires
            self.inv(),
            spec_prefix(hk2, MAX_GLOBAL_DEPTH as u64) == spec_prefix(h0, MAX_GLOBAL_DEPTH as u64),
        ensures
            self.spec_route(hk2) == self.spec_route(h0),
            spec_prefix(hk2, self.segs().depth_of(self.spec_route(h0)) as u64) == spec_prefix(
                h0,
                self.segs().depth_of(self.spec_route(h0)) as u64,
            ),
    {
        self.lemma_route(h0);
        let si = self.spec_route(h0);
        let d = self.segs().depth_of(si);
        assert(self.seg_ok(si));
        lemma_prefix_compose(h0, d as u64, MAX_GLOBAL_DEPTH as u64);
        lemma_prefix_compose(hk2, d as u64, MAX_GLOBAL_DEPTH as u64);
        self.lemma_route_together(h0, hk2);
    }

    /// Inserts under a hashed identity. `Ok` updates the map at that
    /// identity; `Err` comes exactly when the identity's bucket is
    /// saturated, and leaves the map unchanged.
    pub fn put_hashed(&mut self, h0: u64, h3: u64, value: u64) -> (r: Result<(), SaturatedError>)
        requires
            old(self).inv(),
        ensures
            final(self).inv(),
            ({
                let b = h3 % 64;
                match r {
                    Ok(_) => !spec_saturated(old(self).view(), h0, b) && final(self).view()
                        == spec_hashed_put(old(self).view(), (h0, b), value),
                    Err(_) => spec_saturated(old(self).view(), h0, b) && final(self).view() == old(
                        self,
                    ).view(),
                }
            }),
    {
        let b = Self::bucket_index_of(h3);
        let ghost orig = *self;
        let ghost v0 = self.view();
        loop
            invariant
                orig == *old(self),
                self.inv(),
                b == h3 % 64,
                b < 64,
                self.view() == v0,
                v0 == orig.view(),
            decreases 31int - self.segs().depth_of(self.spec_route(h0)),
        {
            let seg_idx = self.directory.segment_index(h0);
            proof {
                self.lemma_route(h0);
                assert(self.seg_ok(seg_idx as int));
            }
            let seg = self.store.segment(seg_idx);
            let ld = seg.depth;
            let mut bucket = self.store.bucket(seg_idx, b as u32);
            let ghost pre = *self;
            let ghost recs0 = pre.segs().recs_of(seg_idx as int, b as int);
            let res = bucket.put(h0, value, ld as u64);
            match res {
                Ok(idx) => {
                    self.store.write_bucket(seg_idx, b as u32, bucket);
                    proof {
                        self.lemma_put_done(pre, orig, seg_idx, h0, b, value, idx as int);
                    }
                    return Ok(());
                },
                Err(_) => {
                    if ld >= MAX_GLOBAL_DEPTH {
                        proof {
                            pre.lemma_full_is_saturated(seg_idx, h0, b);
                        }
                        return Err(SaturatedError { hash_key: h0, bucket_index: b });
                    }
                    self.split_segment(seg_idx, h0);
                },
            }
        }
    }

    /// A bucket that rejects an insertion at the deepest possible segment
    /// depth exhibits sixteen saturating keys.
    proof fn lemma_full_is_saturated(self, seg_idx: u32, h0: u64, b: u64)
        requires
            self.inv(),
            b < 64,
            seg_idx as int == self.spec_route(h0),
            self.segs().depth_of(seg_idx as int) >= MAX_GLOBAL_DEPTH,
            crate::bucket::spec_insert_slot(
                self.segs().recs_of(seg_idx as int, b as int),
                h0,
                self.segs().depth_of(seg_idx as int) as u64,
            ) is None,
        ensures
            spec_saturated(self.view(), h0, b),
    {
        let si = seg_idx as int;
        let ld = self.segs().depth_of(si);
        let recs = self.segs().recs_of(si, b as int);
        self.lemma_route(h0);
        assert(self.seg_ok(si));
        assert(ld == MAX_GLOBAL_DEPTH);
        crate::bucket::lemma_full_slots(recs, h0, ld as u64);
        crate::bucket::lemma_full_distinct(recs, h0, ld as u64);
        let ks = Seq::new(16, |k: int| recs[k].hash_key);
        assert forall|i: int| 0 <= i < 16 implies #[trigger] ks[i] != h0
            && self.view().dom().contains((ks[i], b)) && spec_prefix(ks[i], MAX_GLOBAL_DEPTH as u64)
            == spec_prefix(h0, MAX_GLOBAL_DEPTH as u64) by {
            assert(ks[i] == recs[i].hash_key);
            assert(spec_prefix(recs[i].hash_key, ld as u64) == spec_prefix(h0, ld as u64));
            self.lemma_same_prefix_routes(h0, ks[i]);
            assert(self.spec_route(ks[i]) == si);
            assert(spec_cell(recs, recs[i].hash_key) == Some(recs[i].value));
            assert(self.spec_cell_at(ks[i], b) == Some(recs[i].value));
        }
        assert(ks.no_duplicates()) by {
            assert forall|x: int, y: int| 0 <= x < y < 16 implies ks[x] != ks[y] by {
                assert(recs[x].hash_key != recs[y].hash_key);
            }
        }
        assert(spec_sat_witness(ks, self.view(), h0, b));
    }

    /// After a successful bucket insertion is written back, the invariant
    /// holds again, the map has been updated at exactly the put identity,
    /// and the identity was not saturated.
    proof fn lemma_put_done(
        self,
        pre: MehDB,
        orig: MehDB,
        seg_idx: u32,
        h0: u64,
        b: u64,
        value: u64,
        idx: int,
    )
        requires
            pre.inv(),
            b < 64,
            seg_idx as int == pre.spec_route(h0),
            pre.view() == orig.view(),
            Some(idx) == crate::bucket::spec_insert_slot(
                pre.segs().recs_of(seg_idx as int, b as int),
                h0,
                pre.segs().depth_of(seg_idx as int) as u64,
            ),
            // the state after the write-back
            self.dir() == pre.dir(),
            self.segs().num() == pre.segs().num(),
            self.segs().recs_of(seg_idx as int, b as int) == pre.segs().recs_of(
                seg_idx as int,
                b as int,
            ).update(idx, Record { hash_key: h0, value }),
            forall|s: int|
                0 <= s < pre.segs().num() ==> self.segs().depth_of(s) == pre.segs().depth_of(s)
                    && self.segs().owner_of(s) == pre.segs().owner_of(s),
            forall|s: int, b2: int|
                0 <= s < pre.segs().num() && 0 <= b2 < 64 && !(s == seg_idx as int && b2
                    == b as int) ==> self.segs().recs_of(s, b2) == pre.segs().recs_of(s, b2),
            self.segs().wf(),
        ensures
            self.inv(),
            self.view() == spec_hashed_put(orig.view(), (h0, b), value),
            !spec_saturated(orig.view(), h0, b),
    {
        broadcast use vstd::set::group_set_axioms;
        broadcast use vstd::seq_lib::group_seq_properties;

        let si = seg_idx as int;
        let ld = pre.segs().depth_of(si);
        let recs0 = pre.segs().recs_of(si, b as int);
        pre.lemma_route(h0);
        assert(pre.seg_ok(si));
        assert(recs0.len() == 16);
        // the invariant survives the single-bucket update
        assert forall|s: int| 0 <= s < self.segs().num() implies self.seg_ok(s) by {
            assert(pre.seg_ok(s));
        }
        assert forall|s: int, b2: int|
            0 <= s < self.segs().num() && 0 <= b2 < 64 implies spec_bucket_inv(
            #[trigger] self.segs().recs_of(s, b2),
        ) by {
            if s == si && b2 == b as int {
                crate::bucket::lemma_inv_after_put(recs0, h0, value, ld as u64, idx);
            } else {
                assert(self.segs().recs_of(s, b2) == pre.segs().recs_of(s, b2));
                assert(spec_bucket_inv(pre.segs().recs_of(s, b2)));
            }
        }
        assert(self.inv());
        // pointwise effect on the cells
        assert forall|hk2: u64, b2: u64| b2 < 64 implies #[trigger] self.spec_cell_at(hk2, b2) == (
        if hk2 == h0 && b2 == b {
            if h0 == 0 && value == 0 {
                None::<u64>
            } else {
                Some(value)
            }
        } else {
            pre.spec_cell_at(hk2, b2)
        }) by {
            pre.lemma_route(hk2);
            let s2 = pre.spec_route(hk2);
            assert(self.spec_route(hk2) == s2);
            if s2 == si && b2 == b {
                assert(spec_prefix(hk2, ld as u64) == pre.segs().owner_of(si));
                assert(spec_prefix(h0, ld as u64) == pre.segs().owner_of(si));
                crate::bucket::lemma_cell_after_put(recs0, h0, value, ld as u64, idx, hk2);
            } else {
                assert(self.segs().recs_of(s2, b2 as int) == pre.segs().recs_of(s2, b2 as int));
                if hk2 == h0 && b2 == b {
                    assert(s2 == si);
                    assert(false);
                }
            }
        }
        // hence the map is the old one updated at the put identity
        assert forall|k: (u64, u64)| #![all_triggers] true implies (self.view().dom().contains(k)
            <==> spec_hashed_put(orig.view(), (h0, b), value).dom().contains(k)) && (
        self.view().dom().contains(k) ==> self.view()[k] == spec_hashed_put(
            orig.view(),
            (h0, b),
            value,
        )[k]) by {
            if k.1 < 64 {
                assert(orig.view().dom().contains(k) <==> pre.view().dom().contains(k));
                assert(pre.view().dom().contains(k) <==> pre.spec_cell_at(k.0, k.1) is Some);
                if pre.view().dom().contains(k) {
                    assert(orig.view()[k] == pre.view()[k]);
                }
            }
        }
        assert(self.view() =~= spec_hashed_put(orig.view(), (h0, b), value));
        // and the identity was not saturated: sixteen saturating keys
        // would fill every slot of the bucket, leaving none to insert at
        if spec_saturated(orig.view(), h0, b) {
            let ks = choose|ks: Seq<u64>| #[trigger] spec_sat_witness(ks, orig.view(), h0, b);
            assert forall|i: int| 0 <= i < 16 implies {
                let j = crate::bucket::spec_find(recs0, #[trigger] ks[i]);
                &&& j is Some
                &&& 0 <= j.unwrap() < recs0.len()
                &&& recs0[j.unwrap()].hash_key == ks[i]
                &&& !spec_is_empty(recs0[j.unwrap()])
                &&& j.unwrap() != idx
            } by {
                assert(ks[i] != h0 && orig.view().dom().contains((ks[i], b)));
                pre.lemma_same_prefix_routes(h0, ks[i]);
                assert(pre.view().dom().contains((ks[i], b)));
                assert(pre.spec_cell_at(ks[i], b) is Some);
                assert(pre.spec_route(ks[i]) == si);
                lemma_find_from_props(recs0, ks[i], 0);
                let j = crate::bucket::spec_find(recs0, ks[i]).unwrap();
                assert(recs0[j].hash_key == ks[i]);
                assert(!spec_is_empty(recs0[j]));
                if j == idx {
                    // the chosen insertion slot holds no live record of
                    // this bucket's class other than h0's own
                    crate::bucket::lemma_find_from_props(recs0, h0, 0);
                    crate::bucket::lemma_find_usable_from_props(recs0, h0, ld as u64, 0);
                    match crate::bucket::spec_find(recs0, h0) {
                        Some(j0) => {
                            assert(j0 == idx);
                            assert(recs0[idx].hash_key == h0);
                            assert(false);
                        },
                        None => {
                            assert(crate::bucket::spec_usable(recs0[idx], h0, ld as u64));
                            if spec_is_empty(recs0[idx]) {
                                assert(false);
                            } else {
                                assert((ld as u64) > 0 && spec_prefix(recs0[idx].hash_key, ld as u64)
                                    != spec_prefix(h0, ld as u64));
                                assert(spec_prefix(ks[i], ld as u64) == spec_prefix(
                                    h0,
                                    ld as u64,
                                ));
                                assert(false);
                            }
                        },
                    }
                }
            }
            let slots = Seq::new(16, |i: int| crate::bucket::spec_find(recs0, ks[i]).unwrap());
            assert forall|x: int, y: int| 0 <= x < y < 16 implies slots[x] != slots[y] by {
                if slots[x] == slots[y] {
                    assert(recs0[slots[x]].hash_key == ks[x]);
                    assert(recs0[slots[y]].hash_key == ks[y]);
                    assert(ks[x] == ks[y]);
                    assert(false);
                }
            }
            assert(slots.no_duplicates());
            slots.unique_seq_to_set();
            vstd::set_lib::lemma_int_range(0, 16);
            let range = vstd::set_lib::set_int_range(0, 16);
            assert(0 <= idx < 16) by {
                crate::bucket::lemma_find_from_props(recs0, h0, 0);
                crate::bucket::lemma_find_usable_from_props(recs0, h0, ld as u64, 0);
            }
            assert(range.contains(idx));
            assert(range.remove(idx).len() == 15);
            assert(slots.to_set().subset_of(range.remove(idx))) by {
                assert forall|x: int| slots.to_set().contains(x) implies range.remove(idx).contains(
                    x,
                ) by {
                    let k = choose|k: int| 0 <= k < 16 && slots[k] == x;
                    assert(0 <= slots[k] < 16 && slots[k] != idx);
                }
            }
            vstd::set_lib::lemma_len_subset(slots.to_set(), range.remove(idx));
            assert(false);
        }
    }

    /// A fresh engine: an empty directory of depth 0 and a single empty
    /// segment, as a pair of new files would be initialized.
    pub fn new() -> (db: MehDB)
        ensures
            db.inv(),
            db.view() =~= Map::<(u64, u64), u64>::empty(),
    {
        let directory = Directory::new();
        let store = SegmentStore::init();
        let db = MehDB { directory, store };
        proof {
            lemma2_to64();
            assert forall|s: int| 0 <= s < db.store.num() implies db.seg_ok(s) by {
                assert(s == 0);
                assert forall|j: int| 0 <= j < db.directory.entries().len() implies ((
                #[trigger] db.directory.entries()[j]) as int == 0 <==> j / (pow2(0) as int)
                    == 0int) by {
                    assert(j == 0);
                    assert(db.directory.entries()[0] == 0);
                }
            }
            assert forall|s: int, b: int| 0 <= s < db.store.num() && 0 <= b < 64 implies
                spec_bucket_inv(#[trigger] db.store.recs_of(s, b)) by {
                let rs = db.store.recs_of(s, b);
                assert(forall|k: int| 0 <= k < 16 ==> spec_is_empty(#[trigger] rs[k]));
            }
            assert forall|k: (u64, u64)| #[trigger]
                db.view().dom().contains(k) implies false by {
                crate::prefix::lemma_prefix_zero(k.0);
                let rs = db.store.recs_of(db.spec_route(k.0), k.1 as int);
                lemma_find_from_props(rs, k.0, 0);
                assert(db.spec_route(k.0) == 0);
                match crate::bucket::spec_find(rs, k.0) {
                    Some(j) => {
                        assert(spec_is_empty(rs[j]));
                    },
                    None => {},
                }
            }
        }
        db
    }

    /// What must hold of a decoded directory and store for them to be one
    /// database: every slot names an allocated segment, every segment is
    /// reachable and no deeper than the directory, the slots naming one
    /// segment are exactly one block at that segment's depth, and every
    /// bucket keeps its structural invariants.
    /// Some directory slot names segment `s`.
    pub open spec fn spec_reachable(dir: Directory, s: int) -> bool {
        exists|j: int|
            0 <= j < dir.entries().len() && (#[trigger] dir.entries()[j]) as int == s
    }

    /// During `open`: segment `k`'s witness slot determines a block whose
    /// every slot names `k`.
    pub open spec fn spec_block_claim(
        entries: Seq<u32>,
        st: SegmentStore,
        gd: u8,
        len: int,
        firsts: Seq<u32>,
        owners: Seq<u64>,
        k: int,
    ) -> bool {
        let d = st.depth_of(k);
        let m = pow2((gd as u64 - d as u64) as nat) as int;
        &&& (d as u64) <= gd as u64
        &&& owners[k] as int == (firsts[k] as int) / m
        &&& ((owners[k] as int) + 1) * m <= len
        &&& forall|jj: int|
            (owners[k] as int) * m <= jj < ((owners[k] as int) + 1) * m ==> (#[trigger] entries[jj])
                as int == k
    }

    pub open spec fn spec_layout_ok(dir: Directory, st: SegmentStore) -> bool {
        let len = dir.entries().len() as int;
        &&& forall|j: int| 0 <= j < len ==> ((#[trigger] dir.entries()[j]) as int) < st.num()
        &&& forall|s: int|
            0 <= s < st.num() ==> (#[trigger] st.depth_of(s)) as u64 <= dir.depth() as u64
        &&& forall|s: int| 0 <= s < st.num() ==> #[trigger] Self::spec_reachable(dir, s)
        &&& forall|j: int, j2: int|
            0 <= j < len && 0 <= j2 < len ==> ((#[trigger] dir.entries()[j2])
                == (#[trigger] dir.entries()[j]) <==> j2 / (pow2(
                (dir.depth() as u64 - st.depth_of(dir.entries()[j] as int) as u64) as nat,
            ) as int) == j / (pow2(
                (dir.depth() as u64 - st.depth_of(dir.entries()[j] as int) as u64) as nat,
            ) as int))
        &&& forall|s: int, b: int|
            0 <= s < st.num() && 0 <= b < 64 ==> spec_bucket_inv(#[trigger] st.recs_of(s, b))
    }

    /// Assembles an engine from a decoded directory and segment store,
    /// verifying the extendible-hash layout slot by slot. `Ok` only on a
    /// consistent pair; `Err` exactly when the layout does not hold.
    #[verifier::loop_isolation(false)]
    pub fn open(directory: Directory, store: SegmentStore) -> (r: Result<MehDB, CorruptLayoutError>)
        requires
            directory.wf(),
            store.wf(),
        ensures
            match r {
                Ok(db) => {
                    &&& db.inv()
                    &&& db.dir() == directory
                    &&& db.segs().num() == store.num()
                    &&& forall|s: int|
                        0 <= s < store.num() ==> #[trigger] db.segs().depth_of(s)
                            == store.depth_of(s)
                    &&& forall|s: int, b: int|
                        0 <= s < store.num() && 0 <= b < 64 ==> #[trigger] db.segs().recs_of(s, b)
                            == store.recs_of(s, b)
                },
                Err(_) => !Self::spec_layout_ok(directory, store),
            },
    {
        let gd = directory.global_depth();
        let len = directory.len();
        let num = store.num_segments();
        let ghost entries = directory.entries();
        proof {
            lemma2_to64();
            vstd::arithmetic::power2::lemma_pow2_strictly_increases(gd as nat, 32);
        }
        // every slot must name an allocated segment; remember one slot
        // per segment as the witness for its block
        let mut first: Vec<u32> = Vec::new();
        let mut s: usize = 0;
        while s < num as usize
            invariant
                first@.len() == s,
                s <= num,
                forall|k: int| 0 <= k < s ==> first@[k] == u32::MAX,
            decreases num - s,
        {
            first.push(u32::MAX);
            s = s + 1;
        }
        let mut j: usize = 0;
        while j < len
            invariant
                directory.wf(),
                store.wf(),
                entries == directory.entries(),
                len == entries.len(),
                len <= 0x8000_0000,
                num == store.num(),
                first@.len() == num,
                j <= len,
                forall|k: int| 0 <= k < j ==> ((#[trigger] entries[k]) as int) < store.num(),
                forall|k: int|
                    0 <= k < num ==> (#[trigger] first@[k]) == u32::MAX || ((first@[k] as int) < j
                        && entries[first@[k] as int] as int == k),
                forall|k: int|
                    0 <= k < j ==> first@[(#[trigger] entries[k]) as int] != u32::MAX,
            decreases len - j,
        {
            let e = directory.entry(j);
            if e >= num {
                proof {
                    assert(entries[j as int] == e);
                }
                return Err(CorruptLayoutError {  });
            }
            if first[e as usize] == u32::MAX {
                first.set(e as usize, j as u32);
            }
            j = j + 1;
        }
        // each segment: reachable, shallow enough, and owning exactly the
        // block of its witness slot
        let mut owners: Vec<u64> = Vec::new();
        let mut s: usize = 0;
        while s < num as usize
            invariant
                directory.wf(),
                store.wf(),
                entries == directory.entries(),
                len == entries.len(),
                len <= 0x8000_0000,
                len == pow2(gd as nat),
                gd == directory.depth(),
                num == store.num(),
                first@.len() == num,
                forall|k: int| 0 <= k < len ==> ((#[trigger] entries[k]) as int) < store.num(),
                forall|k: int|
                    0 <= k < num ==> (#[trigger] first@[k]) == u32::MAX || ((first@[k] as int)
                        < len && entries[first@[k] as int] as int == k),
                forall|k: int|
                    0 <= k < len ==> first@[(#[trigger] entries[k]) as int] != u32::MAX,
                s <= num,
                owners@.len() == s,
                forall|k: int|
                    0 <= k < s ==> #[trigger] Self::spec_block_claim(
                        entries,
                        store,
                        gd,
                        len as int,
                        first@,
                        owners@,
                        k,
                    ),
            decreases num - s,
        {
            let seg = store.segment(s as u32);
            let d = seg.depth;
            if (d as u64) > (gd as u64) {
                return Err(CorruptLayoutError {  });
            }
            let j0 = first[s];
            if j0 == u32::MAX {
                proof {
                    // no slot names this segment, so it is unreachable
                    if Self::spec_layout_ok(directory, store) {
                        assert(Self::spec_reachable(directory, s as int));
                        let jw = choose|jw: int|
                            0 <= jw < len && (#[trigger] entries[jw]) as int == s as int;
                        assert(first@[entries[jw] as int] != u32::MAX);
                        assert(false);
                    }
                }
                return Err(CorruptLayoutError {  });
            }
            let shift: u64 = gd as u64 - d as u64;
            let m64: u64 = 1u64 << shift;
            proof {
                lemma_pow2_pos(shift as nat);
                vstd::bits::lemma_u64_pow2_no_overflow(shift as nat);
                vstd::bits::lemma_u64_shl_is_mul(1u64, shift);
                vstd::bits::lemma_u64_shr_is_div(j0 as u64, shift);
                vstd::arithmetic::power2::lemma_pow2_strictly_increases(shift as nat, 32);
            }
            let own: u64 = (j0 as u64) >> shift;
            let ghost m = pow2(shift as nat) as int;
            proof {
                assert(first@[s as int] == j0);
                assert((j0 as int) < len && entries[j0 as int] as int == s as int);
                lemma_pow2_adds(shift as nat, d as nat);
                assert(m * pow2(d as nat) == len) by (nonlinear_arith)
                    requires
                        pow2(shift as nat) * pow2(d as nat) == pow2(gd as nat) && m == pow2(
                            shift as nat,
                        ) && len == pow2(gd as nat),
                ;
                assert(pow2(d as nat) * m == m * pow2(d as nat)) by (nonlinear_arith);
                vstd::arithmetic::div_mod::lemma_multiply_divide_lt(
                    j0 as int,
                    m,
                    pow2(d as nat) as int,
                );
                assert(own as int == (j0 as int) / m);
                assert((own as int) < pow2(d as nat));
                assert(((own as int) + 1) * m <= pow2(d as nat) * m) by (nonlinear_arith)
                    requires
                        (own as int) + 1 <= pow2(d as nat) && m > 0,
                ;
                assert(((own as int) + 1) * m <= len);
                lemma_div_block(j0 as int, m, own as int);
                assert((own as int) * m <= j0);
                assert(own * m64 <= j0 as u64);
            }
            let block_start: u64 = own * m64;
            let mut jj: u64 = 0;
            while jj < m64
                invariant
                    directory.wf(),
                    entries == directory.entries(),
                    len == entries.len(),
                    len <= 0x8000_0000,
                    m64 == m,
                    block_start == (own as int) * m,
                    ((own as int) + 1) * m <= len,
                    jj <= m64,
                    forall|k: int|
                        block_start <= k < block_start + jj ==> (#[trigger] entries[k]) as int
                            == s,
                    s < num,
                decreases m64 - jj,
            {
                proof {
                    assert(((own as int) + 1) * m == (own as int) * m + m) by (nonlinear_arith);
                }
                let e = directory.entry((block_start + jj) as usize);
                if e as usize != s {
                    proof {
                        // the witness slot and this one sit in the same
                        // block yet name different segments
                        let jb = block_start as int + jj as int;
                        lemma_div_block(jb, m, own as int);
                        lemma_div_block(j0 as int, m, own as int);
                        assert(entries[j0 as int] as int == s);
                        assert(entries[jb] != entries[j0 as int]);
                        if Self::spec_layout_ok(directory, store) {
                            assert(jb / m == (j0 as int) / m);
                            assert(false);
                        }
                    }
                    return Err(CorruptLayoutError {  });
                }
                jj = jj + 1;
            }
            let ghost ow0 = owners@;
            owners.push(own);
            proof {
                assert(((own as int) + 1) * m == (own as int) * m + m) by (nonlinear_arith);
                assert forall|k: int| 0 <= k < owners@.len() implies #[trigger] Self::spec_block_claim(
                    entries,
                    store,
                    gd,
                    len as int,
                    first@,
                    owners@,
                    k,
                ) by {
                    if k < ow0.len() {
                        assert(Self::spec_block_claim(
                            entries,
                            store,
                            gd,
                            len as int,
                            first@,
                            ow0,
                            k,
                        ));
                        assert(owners@[k] == ow0[k]);
                    } else {
                        assert(k == s as int);
                        assert(owners@[k] == own);
                        assert(store.depth_of(k) == d);
                    }
                }
            }
            s = s + 1;
        }
        proof {
            assert(s == num as usize);
        }
        // every slot must lie in its own segment's block
        let mut j: usize = 0;
        while j < len
            invariant
                directory.wf(),
                store.wf(),
                entries == directory.entries(),
                len == entries.len(),
                len <= 0x8000_0000,
                len == pow2(gd as nat),
                gd == directory.depth(),
                num == store.num(),
                owners@.len() == num,
                forall|k: int| 0 <= k < len ==> ((#[trigger] entries[k]) as int) < store.num(),
                forall|k: int|
                    0 <= k < num ==> #[trigger] Self::spec_block_claim(
                        entries,
                        store,
                        gd,
                        len as int,
                        first@,
                        owners@,
                        k,
                    ),
                j <= len,
                forall|k: int|
                    0 <= k < j ==> {
                        let sk = (#[trigger] entries[k]) as int;
                        let m = pow2((gd as u64 - store.depth_of(sk) as u64) as nat) as int;
                        k / m == owners@[sk] as int
                    },
            decreases len - j,
        {
            let e = directory.entry(j);
            proof {
                assert(Self::spec_block_claim(
                    entries,
                    store,
                    gd,
                    len as int,
                    first@,
                    owners@,
                    e as int,
                ));
            }
            let seg = store.segment(e);
            let shift: u64 = gd as u64 - seg.depth as u64;
            proof {
                lemma_pow2_pos(shift as nat);
                vstd::bits::lemma_u64_shr_is_div(j as u64, shift);
            }
            if (j as u64) >> shift != owners[e as usize] {
                proof {
                    let ghost m = pow2(shift as nat) as int;
                    let sk = e as int;
                    let ow = owners@[sk] as int;
                    if Self::spec_layout_ok(directory, store) {
                        // the block of this segment's witness covers j
                        assert(((ow) + 1) * m == ow * m + m) by (nonlinear_arith);
                        assert(entries[ow * m] as int == sk);
                        lemma_div_block(ow * m, m, ow);
                        assert((ow * m) / m == ow) by {
                            assert(ow * m <= ow * m < (ow + 1) * m);
                        }
                        assert(entries[j as int] == entries[ow * m]);
                        assert((j as int) / m == (ow * m) / m);
                        assert(false);
                    }
                }
                return Err(CorruptLayoutError {  });
            }
            j = j + 1;
        }
        // every bucket must satisfy the structural invariants
        let mut s: usize = 0;
        while s < num as usize
            invariant
                store.wf(),
                num == store.num(),
                s <= num,
                forall|k: int, b: int|
                    0 <= k < s && 0 <= b < 64 ==> spec_bucket_inv(#[trigger] store.recs_of(k, b)),
            decreases num - s,
        {
            let mut b: u32 = 0;
            while b < 64
                invariant
                    store.wf(),
                    num == store.num(),
                    s < num,
                    b <= 64,
                    forall|bb: int|
                        0 <= bb < b ==> spec_bucket_inv(#[trigger] store.recs_of(s as int, bb)),
                decreases 64 - b,
            {
                let bk = store.bucket(s as u32, b);
                if !bk.check_inv() {
                    return Err(CorruptLayoutError {  });
                }
                b = b + 1;
            }
            s = s + 1;
        }
        // consistent: adopt the derived owners and assemble the engine
        let mut store = store;
        let mut s: usize = 0;
        let ghost st0 = store;
        while s < num as usize
            invariant
                store.wf(),
                num == store.num(),
                st0.num() == store.num(),
                owners@.len() == num,
                s <= num,
                forall|k: int|
                    0 <= k < store.num() ==> #[trigger] store.depth_of(k) == st0.depth_of(k),
                forall|k: int, b: int|
                    0 <= k < store.num() && 0 <= b < 64 ==> #[trigger] store.recs_of(k, b)
                        == st0.recs_of(k, b),
                forall|k: int| 0 <= k < s ==> #[trigger] store.owner_of(k) == owners@[k],
            decreases num - s,
        {
            store.set_owner(s as u32, Ghost(owners@[s as int]));
            s = s + 1;
        }
        let db = MehDB { directory, store };
        proof {
            assert forall|s: int| 0 <= s < db.segs().num() implies db.seg_ok(s) by {
                assert(Self::spec_block_claim(entries, st0, gd, len as int, first@, owners@, s));
                let d = st0.depth_of(s);
                let m = pow2((gd as u64 - d as u64) as nat) as int;
                let ow = owners@[s] as int;
                lemma_pow2_pos((gd as u64 - d as u64) as nat);
                assert((ow + 1) * m == ow * m + m) by (nonlinear_arith);
                lemma_pow2_adds((gd as u64 - d as u64) as nat, d as nat);
                assert(m * pow2(d as nat) == len) by (nonlinear_arith)
                    requires
                        pow2((gd as u64 - d as u64) as nat) * pow2(d as nat) == pow2(gd as nat)
                            && m == pow2((gd as u64 - d as u64) as nat) && len == pow2(gd as nat),
                ;
                assert((ow as nat) < pow2(d as nat)) by {
                    if ow >= pow2(d as nat) {
                        assert((ow + 1) * m > pow2(d as nat) * m) by (nonlinear_arith)
                            requires
                                ow >= pow2(d as nat) && m > 0,
                        ;
                        assert(pow2(d as nat) * m == m * pow2(d as nat)) by (nonlinear_arith);
                        assert(false);
                    }
                }
                assert(db.segs().depth_of(s) == d && db.segs().owner_of(s) as int == ow);
                assert forall|jj: int| 0 <= jj < len implies ((#[trigger] entries[jj]) as int == s
                    <==> jj / m == ow) by {
                    lemma_div_block(jj, m, ow);
                }
            }
            assert forall|s: int, b: int|
                0 <= s < db.segs().num() && 0 <= b < 64 implies spec_bucket_inv(
                #[trigger] db.segs().recs_of(s, b),
            ) by {
                assert(db.segs().recs_of(s, b) == st0.recs_of(s, b));
            }
            assert(db.inv());
        }
        Ok(db)
    }

    /// The directory's file image, as `open` would read it back.
    pub fn directory_bytes(&self) -> (buf: Vec<u8>)
        requires
            self.inv(),
        ensures
            buf@ == crate::directory::spec_directory_bytes(self.dir().depth(), self.dir().entries()),
    {
        self.directory.to_bytes()
    }

    /// The segment store's file image, as `open` would read it back.
    pub fn store_bytes(&self) -> (buf: Vec<u8>)
        requires
            self.inv(),
        ensures
            buf@ == self.segs().spec_store_bytes(),
            buf@.len() == 4 + 16385 * self.segs().num(),
    {
        self.store.to_bytes()
    }

    /// The bucket slot the last hash word selects.
    fn bucket_index_of(h3: u64) -> (b: u64)
        ensures
            b == h3 % 64,
            b < 64,
    {
        proof {
            vstd::bits::lemma_u64_low_bits_mask_is_mod(h3, 6);
            vstd::bits::lemma_low_bits_mask_values();
            lemma2_to64();
        }
        h3 & 63
    }

    /// Looks a hashed identity up: the record stored under the first hash
    /// word, in the bucket the last hash word selects.
    pub fn get_hashed(&self, h0: u64, h3: u64) -> (r: Option<Record>)
        requires
            self.inv(),
        ensures
            r == match self.spec_cell_at(h0, h3 % 64) {
                Some(v) => Some(Record { hash_key: h0, value: v }),
                None => None::<Record>,
            },
    {
        let b = Self::bucket_index_of(h3);
        let seg_idx = self.directory.segment_index(h0);
        proof {
            self.lemma_route(h0);
        }
        let bucket = self.store.bucket_ref(seg_idx, b as u32);
        let r = bucket.get(h0);
        proof {
            lemma_find_from_props(bucket.recs(), h0, 0);
        }
        match r {
            Some(rec) => {
                if rec.hash_key == 0 && rec.value == 0 {
                    None
                } else {
                    Some(rec)
                }
            },
            None => None,
        }
    }

    /// Inserts a key/value pair. `Ok` leaves the key's hashed identity
    /// bound to the value; `Err` comes exactly when that identity's
    /// bucket is saturated and changes nothing.
    pub fn put(&mut self, key: ByteKey, value: ByteValue) -> (r: Result<(), SaturatedError>)
        requires
            old(self).inv(),
        ensures
            final(self).inv(),
            ({
                let w = highway_words(SEED0, SEED1, SEED2, SEED3, key.0@);
                let k = (w[0], w[3] % 64);
                match r {
                    Ok(_) => !spec_saturated(old(self).view(), k.0, k.1) && final(self).view()
                        == spec_hashed_put(old(self).view(), k, value.0),
                    Err(_) => spec_saturated(old(self).view(), k.0, k.1) && final(self).view()
                        == old(self).view(),
                }
            }),
    {
        let (h0, _h1, _h2, h3) = hash256(SEED0, SEED1, SEED2, SEED3, &key.0);
        self.put_hashed(h0, h3, value.0)
    }

    /// Looks a key up. The result, if any, carries the key's first hash
    /// word and the stored value.
    pub fn get(&self, key: ByteKey) -> (r: Option<Record>)
        requires
            self.inv(),
        ensures
            ({
                let w = highway_words(SEED0, SEED1, SEED2, SEED3, key.0@);
                r == match self.spec_cell_at(w[0], w[3] % 64) {
                    Some(v) => Some(Record { hash_key: w[0], value: v }),
                    None => None::<Record>,
                }
            }),
    {
        let (h0, _h1, _h2, h3) = hash256(SEED0, SEED1, SEED2, SEED3, &key.0);
        self.get_hashed(h0, h3)
    }
}

} // verus!
