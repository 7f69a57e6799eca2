//! Hash-prefix arithmetic.
//!
//! The directory routes a key by the top `depth` bits of the first hash
//! word. Specifications express "the top `depth` bits of `hk`" as division
//! by a power of two, so that the split protocol's reasoning stays in plain
//! integer arithmetic; the lemmas here connect that form to the shifts the
//! executable code performs.

use vstd::arithmetic::div_mod::{
    lemma_div_denominator, lemma_fundamental_div_mod, lemma_fundamental_div_mod_converse,
    lemma_multiply_divide_lt,
};
use vstd::arithmetic::power2::{lemma2_to64, lemma2_to64_rest, lemma_pow2_adds, lemma_pow2_pos, pow2};
use vstd::bits::lemma_u64_shr_is_div;
use vstd::prelude::*;

verus! {

/// The top `depth` bits of `hk`, read as an integer. At depth 0 this is 0;
/// at depth 64 it is `hk` itself.
pub open spec fn spec_prefix(hk: u64, depth: u64) -> u64
    recommends
        depth <= 64,
{
    (hk as nat / pow2((64 - depth) as nat)) as u64
}

/// `pow2(64)` exceeds every `u64`, so a depth-0 prefix is 0.
pub proof fn lemma_pow2_64_large()
    ensures
        pow2(64) == 0x10000000000000000,
        forall|e: nat| e <= 64 ==> pow2(e) >= 1,
{
    lemma2_to64();
    lemma2_to64_rest();
    assert forall|e: nat| e <= 64 implies pow2(e) >= 1 by {
        lemma_pow2_pos(e);
    }
}

/// A `depth`-bit prefix is below `pow2(depth)`.
pub proof fn lemma_prefix_bound(hk: u64, depth: u64)
    requires
        depth <= 64,
    ensures
        (spec_prefix(hk, depth) as nat) < pow2(depth as nat),
        spec_prefix(hk, depth) as nat == hk as nat / pow2((64 - depth) as nat),
{
    lemma_pow2_64_large();
    lemma_pow2_adds((64 - depth) as nat, depth as nat);
    assert((hk as nat) < pow2((64 - depth) as nat) * pow2(depth as nat));
    lemma_multiply_divide_lt(hk as int, pow2((64 - depth) as nat) as int, pow2(depth as nat) as int);
}

/// A shorter prefix is the quotient of a longer one by the corresponding
/// power of two.
pub proof fn lemma_prefix_compose(hk: u64, d1: u64, d2: u64)
    requires
        d1 <= d2 <= 64,
    ensures
        spec_prefix(hk, d1) as nat == spec_prefix(hk, d2) as nat / pow2((d2 - d1) as nat),
{
    lemma_pow2_64_large();
    lemma_prefix_bound(hk, d2);
    lemma_pow2_adds((64 - d2) as nat, (d2 - d1) as nat);
    lemma_div_denominator(hk as int, pow2((64 - d2) as nat) as int, pow2((d2 - d1) as nat) as int);
}

/// Extending a prefix by one bit doubles it and adds the next bit.
pub proof fn lemma_prefix_step(hk: u64, depth: u64)
    requires
        depth < 64,
    ensures
        spec_prefix(hk, depth) == spec_prefix(hk, (depth + 1) as u64) / 2,
        spec_prefix(hk, (depth + 1) as u64) == 2 * spec_prefix(hk, depth)
            || spec_prefix(hk, (depth + 1) as u64) == 2 * spec_prefix(hk, depth) + 1,
{
    lemma_pow2_64_large();
    lemma_prefix_compose(hk, depth, (depth + 1) as u64);
    lemma2_to64();
    let p1 = spec_prefix(hk, (depth + 1) as u64) as int;
    lemma_fundamental_div_mod(p1, 2);
    assert(0 <= p1 % 2 < 2) by (nonlinear_arith);
    lemma_prefix_bound(hk, (depth + 1) as u64);
}

/// At depth 0 every key has the empty prefix.
pub proof fn lemma_prefix_zero(hk: u64)
    ensures
        spec_prefix(hk, 0) == 0,
{
    lemma_pow2_64_large();
    vstd::arithmetic::div_mod::lemma_basic_div(hk as int, pow2(64) as int);
}

/// The executable form of `spec_prefix`: a guarded right shift.
pub fn prefix_bits(hk: u64, depth: u64) -> (r: u64)
    requires
        depth <= 64,
    ensures
        r == spec_prefix(hk, depth),
{
    proof {
        lemma_pow2_64_large();
    }
    if depth == 0 {
        proof {
            vstd::arithmetic::div_mod::lemma_basic_div(hk as int, pow2(64) as int);
        }
        0
    } else {
        let shift: u64 = 64 - depth;
        proof {
            lemma_u64_shr_is_div(hk, shift);
            lemma_pow2_pos(shift as nat);
            vstd::arithmetic::div_mod::lemma_div_nonincreasing(hk as int, pow2(shift as nat) as int);
        }
        hk >> shift
    }
}

/// `q == j / m` exactly when `j` lies in the `q`-th block of size `m`.
pub proof fn lemma_div_block(j: int, m: int, q: int)
    requires
        m > 0,
        j >= 0,
    ensures
        (j / m == q) <==> (q * m <= j < (q + 1) * m),
{
    lemma_fundamental_div_mod(j, m);
    assert(0 <= j % m < m) by (nonlinear_arith)
        requires
            m > 0 && j >= 0,
    ;
    assert((q + 1) * m == q * m + m) by (nonlinear_arith);
    assert(m * (j / m) == (j / m) * m) by (nonlinear_arith);
    if q * m <= j < (q + 1) * m {
        lemma_fundamental_div_mod_converse(j, m, q, j - q * m);
    }
}

} // verus!
