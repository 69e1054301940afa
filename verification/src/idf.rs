//! Fixed-point inverse session-frequency (idf) weights.
//!
//! The idf weight of an item down-weights ubiquitous items: it is the
//! natural logarithm of (total retained sessions / retained sessions
//! containing the item).  So that the index and all scores stay in exact
//! integer arithmetic, the library computes that logarithm
//! deterministically in binary fixed point: `log2` at scale 2^32 by
//! repeated squaring, then a multiplication by ln(2) at scale 2^32,
//! rounded down to scale 2^20 (`IDF_SCALE`).  The weight is a pure
//! function of the two counts, so queries and the incremental engine
//! agree on every score bit for bit.

use vstd::prelude::*;
use vstd::arithmetic::power2::*;
use vstd::arithmetic::div_mod::{lemma_fundamental_div_mod, lemma_div_denominator};

verus! {

/// Denominator of every idf weight: weights are fixed point at 2^20.
pub const IDF_SCALE: u64 = 0x100000;

/// ln(2) in fixed point at scale 2^32, rounded to the nearest integer.
pub const LN2_SCALE32: u64 = 2977044472;

/// One squaring step of the fractional-bit iteration: squares a mantissa
/// in [2^32, 2^33) at scale 2^32 and extracts one bit of log2.
pub open spec fn spec_log2_frac_step(y: int) -> (int, int) {
    let sq = (y * y) / 0x100000000;
    if sq >= 0x200000000 {
        (sq / 2, 1)
    } else {
        (sq, 0)
    }
}

/// The mantissa and the accumulated fraction bits after `j` squaring steps.
pub open spec fn spec_log2_frac(y: int, j: nat) -> (int, int)
    decreases j,
{
    if j == 0 {
        (y, 0)
    } else {
        let prev = spec_log2_frac(y, (j - 1) as nat);
        let step = spec_log2_frac_step(prev.0);
        (step.0, prev.1 * 2 + step.1)
    }
}

/// Halves `y` until it lies below 2^33, counting the halvings: the count
/// is the integer part of log2 and `y` becomes the mantissa.
pub open spec fn spec_log2_norm(y: int, ip: int) -> (int, int)
    decreases (if y >= 0 { y } else { 0 }),
{
    if y < 0x200000000 {
        (y, ip)
    } else {
        spec_log2_norm(y / 2, ip + 1)
    }
}

/// log2(n) in fixed point at scale 2^32: the integer part in the high
/// bits, then 32 fraction bits from the squaring iteration.
pub open spec fn spec_log2_fixed(n: int) -> int {
    let norm = spec_log2_norm(n * 0x100000000, 0);
    norm.1 * 0x100000000 + spec_log2_frac(norm.0, 32).1
}

/// The idf weight at scale `IDF_SCALE` for an item contained in
/// `with_item` of `total` sessions.
pub open spec fn spec_idf_weight(total: int, with_item: int) -> int {
    let lt = spec_log2_fixed(total);
    let lc = spec_log2_fixed(with_item);
    if lt >= lc {
        ((lt - lc) * LN2_SCALE32) / 0x100000000000
    } else {
        0
    }
}

/// Every accumulated fraction is below 2^j after j steps.
proof fn lemma_log2_frac_bound(y: int, j: nat)
    ensures
        0 <= spec_log2_frac(y, j).1 < pow2(j),
    decreases j,
{
    if j == 0 {
        lemma2_to64();
    } else {
        lemma_log2_frac_bound(y, (j - 1) as nat);
        lemma_pow2_adds((j - 1) as nat, 1);
        lemma2_to64();
    }
}

/// log2(n) in fixed point at scale 2^32.
pub fn log2_fixed(n: u64) -> (r: u64)
    requires
        n >= 1,
    ensures
        r == spec_log2_fixed(n as int),
        r < 0x4000000000,
{
    let ghost y_init: int = (n as int) * 0x100000000;
    let mut y: u128 = (n as u128) * 0x100000000;
    let mut ip: u64 = 0;
    proof {
        lemma2_to64();
        assert(pow2(0) == 1);
    }
    while y >= 0x200000000
        invariant
            0x100000000 <= y,
            y_init == (n as int) * 0x100000000,
            n >= 1,
            y as int == y_init / pow2(ip as nat) as int,
            ip <= 63,
            spec_log2_norm(y_init, 0) == spec_log2_norm(y as int, ip as int),
        decreases y,
    {
        proof {
            let p = pow2(ip as nat) as int;
            lemma_pow2_pos(ip as nat);
            lemma_pow2_adds(ip as nat, 1);
            lemma2_to64();
            lemma_div_denominator(y_init, p, 2);
            // The count of halvings stays below 64: the current value is
            // still at least 2^33, so 2^ip * 2^33 <= y_init < 2^96.
            lemma_fundamental_div_mod(y_init, p);
            assert(y_init >= p * 0x200000000) by (nonlinear_arith)
                requires
                    y_init == p * (y as int) + (y_init % p),
                    y_init % p >= 0,
                    y as int >= 0x200000000,
                    p > 0,
            ;
            assert(y_init < 0x1000000000000000000000000);
            if ip >= 63 {
                lemma_pow2_strictly_increases(63, (ip + 1) as nat);
                lemma2_to64_rest();
                assert(p >= pow2(63) as int);
                assert(false);
            }
        }
        y = y / 2;
        ip = ip + 1;
    }
    assert(spec_log2_norm(y_init, 0) == (y as int, ip as int));
    let ghost y0: int = y as int;
    let mut frac: u64 = 0;
    let mut j: u64 = 0;
    proof {
        lemma2_to64();
    }
    while j < 32
        invariant
            0x100000000 <= y < 0x200000000,
            j <= 32,
            (y as int, frac as int) == spec_log2_frac(y0, j as nat),
            frac < 0x100000000,
        decreases 32 - j,
    {
        proof {
            lemma_log2_frac_bound(y0, (j + 1) as nat);
            assert(y * y < 0x40000000000000000) by (nonlinear_arith)
                requires
                    y < 0x200000000,
            ;
            assert(y * y >= 0x10000000000000000) by (nonlinear_arith)
                requires
                    y >= 0x100000000,
            ;
        }
        let sq: u128 = (y * y) / 0x100000000;
        if sq >= 0x200000000 {
            y = sq / 2;
            frac = frac * 2 + 1;
        } else {
            y = sq;
            frac = frac * 2;
        }
        j = j + 1;
        proof {
            lemma_log2_frac_bound(y0, j as nat);
            if j < 32 {
                lemma_pow2_strictly_increases(j as nat, 32);
            }
            lemma2_to64();
            assert(pow2(32) == 0x100000000);
        }
    }
    ip * 0x100000000 + frac
}

/// The idf weight at scale `IDF_SCALE`; always below 2^26.
pub fn idf_weight(total: u64, with_item: u64) -> (r: u64)
    requires
        total >= 1,
        with_item >= 1,
    ensures
        r == spec_idf_weight(total as int, with_item as int),
        r < 0x4000000,
{
    let lt = log2_fixed(total);
    let lc = log2_fixed(with_item);
    if lt >= lc {
        let prod: u128 = ((lt - lc) as u128) * (LN2_SCALE32 as u128);
        let q: u128 = prod / 0x100000000000;
        proof {
            assert(prod < 0x400000000000000000) by (nonlinear_arith)
                requires
                    prod == ((lt - lc) as u128) * (LN2_SCALE32 as u128),
                    ((lt - lc) as u128) < 0x4000000000,
                    LN2_SCALE32 <= 0x100000000,
            ;
            lemma_fundamental_div_mod(prod as int, 0x100000000000);
            assert(q < 0x4000000) by (nonlinear_arith)
                requires
                    prod as int == 0x100000000000 * (q as int) + (prod as int) % 0x100000000000,
                    (prod as int) % 0x100000000000 >= 0,
                    prod < 0x400000000000000000,
            ;
        }
        q as u64
    } else {
        0
    }
}

} // verus!
