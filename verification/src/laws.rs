//! The engine's laws: what sequences of insertions leave behind, and the
//! layout facts the invariant guarantees at rest.

use vstd::arithmetic::power2::pow2;
use vstd::prelude::*;

verus! {

use crate::bucket::spec_is_empty;
use crate::meh::{spec_hashed_put, MehDB};
use crate::prefix::{lemma_div_block, spec_prefix};

/// The map left after performing each `put` of `ops` in order, oldest
/// first, on `m0`.
pub open spec fn spec_run_puts(
    m0: Map<(u64, u64), u64>,
    ops: Seq<((u64, u64), u64)>,
) -> Map<(u64, u64), u64>
    decreases ops.len(),
{
    if ops.len() == 0 {
        m0
    } else {
        spec_hashed_put(spec_run_puts(m0, ops.drop_last()), ops.last().0, ops.last().1)
    }
}

/// The value most recently put under `k`, if any.
pub open spec fn spec_last_write(ops: Seq<((u64, u64), u64)>, k: (u64, u64)) -> Option<u64>
    decreases ops.len(),
{
    if ops.len() == 0 {
        None
    } else if ops.last().0 == k {
        Some(ops.last().1)
    } else {
        spec_last_write(ops.drop_last(), k)
    }
}

/// Round trip under splits: after any finite sequence of `put`s, every
/// identity holds the last value put under it — and an identity never
/// written keeps whatever the starting map had. The one exception is the
/// degenerate pair (hash word 0, value 0), whose record is the on-disk
/// empty slot: putting it erases the identity instead.
pub proof fn lemma_round_trip_under_puts(
    m0: Map<(u64, u64), u64>,
    ops: Seq<((u64, u64), u64)>,
    k: (u64, u64),
)
    ensures
        match spec_last_write(ops, k) {
            Some(v) => if k.0 == 0 && v == 0 {
                !spec_run_puts(m0, ops).dom().contains(k)
            } else {
                spec_run_puts(m0, ops).dom().contains(k) && spec_run_puts(m0, ops)[k] == v
            },
            None => (spec_run_puts(m0, ops).dom().contains(k) <==> m0.dom().contains(k))
                && (m0.dom().contains(k) ==> spec_run_puts(m0, ops)[k] == m0[k]),
        },
    decreases ops.len(),
{
    if ops.len() > 0 {
        lemma_round_trip_under_puts(m0, ops.drop_last(), k);
    }
}

/// Round trip without overflow or not: for pairwise distinct identities,
/// each `put` is visible at the end, whatever order the others ran in.
pub proof fn lemma_round_trip(
    m0: Map<(u64, u64), u64>,
    ops: Seq<((u64, u64), u64)>,
    i: int,
)
    requires
        0 <= i < ops.len(),
        forall|x: int, y: int|
            0 <= x < y < ops.len() ==> (#[trigger] ops[x]).0 != (#[trigger] ops[y]).0,
        !(ops[i].0.0 == 0 && ops[i].1 == 0),
    ensures
        spec_run_puts(m0, ops).dom().contains(ops[i].0),
        spec_run_puts(m0, ops)[ops[i].0] == ops[i].1,
    decreases ops.len(),
{
    assert(spec_last_write(ops, ops[i].0) == Some(ops[i].1)) by {
        lemma_last_write_distinct(ops, i);
    }
    lemma_round_trip_under_puts(m0, ops, ops[i].0);
}

proof fn lemma_last_write_distinct(ops: Seq<((u64, u64), u64)>, i: int)
    requires
        0 <= i < ops.len(),
        forall|x: int, y: int|
            0 <= x < y < ops.len() ==> (#[trigger] ops[x]).0 != (#[trigger] ops[y]).0,
    ensures
        spec_last_write(ops, ops[i].0) == Some(ops[i].1),
    decreases ops.len(),
{
    if i == ops.len() - 1 {
        assert(ops.last() == ops[i]);
    } else {
        assert(ops.last().0 != ops[i].0);
        assert(ops.drop_last()[i] == ops[i]);
        lemma_last_write_distinct(ops.drop_last(), i);
    }
}

proof fn lemma_last_write_absent(ops: Seq<((u64, u64), u64)>, k: (u64, u64))
    requires
        forall|i: int| 0 <= i < ops.len() ==> (#[trigger] ops[i]).0 != k,
    ensures
        spec_last_write(ops, k) is None,
    decreases ops.len(),
{
    if ops.len() > 0 {
        assert(ops.last() == ops[ops.len() - 1]);
        assert(forall|i: int|
            0 <= i < ops.drop_last().len() ==> (#[trigger] ops.drop_last()[i]) == ops[i]);
        lemma_last_write_absent(ops.drop_last(), k);
    }
}

/// Writers of pairwise disjoint identities can run in any order: two
/// sequences of `put`s with distinct keys and the same pairs leave the
/// same map, so every interleaving of such writers equals every
/// sequential execution of them.
pub proof fn lemma_disjoint_puts_commute(
    m0: Map<(u64, u64), u64>,
    ops1: Seq<((u64, u64), u64)>,
    ops2: Seq<((u64, u64), u64)>,
)
    requires
        forall|x: int, y: int|
            0 <= x < y < ops1.len() ==> (#[trigger] ops1[x]).0 != (#[trigger] ops1[y]).0,
        forall|x: int, y: int|
            0 <= x < y < ops2.len() ==> (#[trigger] ops2[x]).0 != (#[trigger] ops2[y]).0,
        forall|p: ((u64, u64), u64)| ops1.contains(p) <==> ops2.contains(p),
    ensures
        spec_run_puts(m0, ops1) == spec_run_puts(m0, ops2),
{
    assert forall|k: (u64, u64)| #![all_triggers] true implies spec_last_write(ops1, k)
        == spec_last_write(ops2, k) by {
        if exists|i: int| 0 <= i < ops1.len() && (#[trigger] ops1[i]).0 == k {
            let i = choose|i: int| 0 <= i < ops1.len() && (#[trigger] ops1[i]).0 == k;
            lemma_last_write_distinct(ops1, i);
            assert(ops1.contains(ops1[i]));
            assert(ops2.contains(ops1[i]));
            let j = choose|j: int| 0 <= j < ops2.len() && ops2[j] == ops1[i];
            lemma_last_write_distinct(ops2, j);
        } else {
            assert(forall|i: int| 0 <= i < ops1.len() ==> (#[trigger] ops1[i]).0 != k);
            lemma_last_write_absent(ops1, k);
            assert forall|j: int| 0 <= j < ops2.len() implies (#[trigger] ops2[j]).0 != k by {
                if ops2[j].0 == k {
                    assert(ops2.contains(ops2[j]));
                    assert(ops1.contains(ops2[j]));
                    let i = choose|i: int| 0 <= i < ops1.len() && ops1[i] == ops2[j];
                    assert(ops1[i].0 == k);
                }
            }
            lemma_last_write_absent(ops2, k);
        }
    }
    assert forall|k: (u64, u64)| #![all_triggers] true implies (spec_run_puts(
        m0,
        ops1,
    ).dom().contains(k) <==> spec_run_puts(m0, ops2).dom().contains(k)) && (spec_run_puts(
        m0,
        ops1,
    ).dom().contains(k) ==> spec_run_puts(m0, ops1)[k] == spec_run_puts(m0, ops2)[k]) by {
        lemma_round_trip_under_puts(m0, ops1, k);
        lemma_round_trip_under_puts(m0, ops2, k);
    }
    assert(spec_run_puts(m0, ops1) =~= spec_run_puts(m0, ops2));
}

/// Idempotent re-put: repeating the same `put` changes nothing more, and
/// the value reads back.
pub proof fn lemma_idempotent_reput(m: Map<(u64, u64), u64>, k: (u64, u64), v: u64)
    requires
        !(k.0 == 0 && v == 0),
    ensures
        spec_hashed_put(spec_hashed_put(m, k, v), k, v) == spec_hashed_put(m, k, v),
        spec_hashed_put(m, k, v)[k] == v,
        spec_hashed_put(m, k, v).dom().contains(k),
{
    assert(spec_hashed_put(spec_hashed_put(m, k, v), k, v) =~= spec_hashed_put(m, k, v));
}

/// The directory invariant: at rest, every segment of depth `ld` is
/// addressed by exactly the `2^(global_depth - ld)` slots of one
/// contiguous run, aligned on a multiple of its own length.
pub proof fn lemma_directory_runs(db: MehDB, s: int)
    requires
        db.inv(),
        0 <= s < db.segs().num(),
    ensures
        ({
            let d = db.segs().depth_of(s);
            let m = pow2((db.gd() - d) as nat) as int;
            let start = db.segs().owner_of(s) as int * m;
            &&& start % m == 0
            &&& start + m <= db.dir().entries().len()
            &&& forall|j: int|
                0 <= j < db.dir().entries().len()
                    ==> ((#[trigger] db.dir().entries()[j]) as int == s <==> start <= j < start
                        + m)
        }),
{
    let d = db.segs().depth_of(s);
    let own = db.segs().owner_of(s) as int;
    let m = pow2((db.gd() - d) as nat) as int;
    let start = own * m;
    assert(db.seg_ok(s));
    vstd::arithmetic::power2::lemma_pow2_pos((db.gd() - d) as nat);
    assert((own * m) % m == 0) by (nonlinear_arith)
        requires
            m > 0,
    ;
    assert((own + 1) * m == own * m + m) by (nonlinear_arith);
    assert((own + 1) * m <= pow2(d as nat) * m) by (nonlinear_arith)
        requires
            own + 1 <= pow2(d as nat) && m > 0,
    ;
    vstd::arithmetic::power2::lemma_pow2_adds(d as nat, (db.gd() - d) as nat);
    assert forall|j: int| 0 <= j < db.dir().entries().len() implies ((
    #[trigger] db.dir().entries()[j]) as int == s <==> start <= j < start + m) by {
        lemma_div_block(j, m, own);
    }
}

/// The bucket discriminant: any record a lookup returns belongs to its
/// segment's prefix class — its stored hash word's depth-long prefix is
/// the prefix of every directory slot that routes to that segment.
pub proof fn lemma_bucket_discriminant(db: MehDB, hk: u64, b: u64)
    requires
        db.inv(),
        b < 64,
        db.spec_cell_at(hk, b) is Some,
    ensures
        ({
            let s = db.spec_route(hk);
            let d = db.segs().depth_of(s);
            forall|j: int|
                0 <= j < db.dir().entries().len() && (#[trigger] db.dir().entries()[j]) as int == s
                    ==> spec_prefix(hk, d as u64) as int == j / (pow2((db.gd() - d) as nat) as int)
        }),
{
    db.lemma_route(hk);
    let s = db.spec_route(hk);
    assert(db.seg_ok(s));
}

/// At most one live record per key and bucket: two non-empty slots of one
/// bucket carrying the same hash word are the same slot.
pub proof fn lemma_one_live_record(db: MehDB, hk: u64, b: u64, i: int, j: int)
    requires
        db.inv(),
        b < 64,
        ({
            let rs = db.segs().recs_of(db.spec_route(hk), b as int);
            &&& 0 <= i < rs.len()
            &&& 0 <= j < rs.len()
            &&& rs[i].hash_key == hk
            &&& rs[j].hash_key == hk
            &&& !spec_is_empty(rs[i])
            &&& !spec_is_empty(rs[j])
        }),
    ensures
        i == j,
{
    db.lemma_route(hk);
    let rs = db.segs().recs_of(db.spec_route(hk), b as int);
    assert(crate::bucket::spec_bucket_inv(rs));
    if i != j {
        let x = if i < j {
            i
        } else {
            j
        };
        let y = if i < j {
            j
        } else {
            i
        };
        assert(rs[x].hash_key == rs[y].hash_key);
        assert(rs[x].hash_key == 0);
        assert(rs[y].value != 0);
        assert(rs[x].hash_key != 0);
    }
}

} // verus!

