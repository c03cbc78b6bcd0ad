//! Fixed-point arithmetic for slopes and coefficients.
//!
//! A slope (per-period decay rate) and a lock coefficient are rationals.
//! They are represented in atomic units of `1 / SCALE`, and every division
//! truncates toward zero. This one rounding rule is used everywhere a
//! power is derived from an amount and a coefficient, and everywhere a
//! slope is derived from a power and a duration, so that all replays of
//! the ledger produce bit-identical results.

use vstd::prelude::*;

verus! {

/// Number of atomic units in 1.0: fixed-point values carry 18 decimal
/// fractional digits.
pub const SCALE: u128 = 1000000000000000000;

/// The fixed-point value `n / d`, in atomic units, truncated.
pub open spec fn spec_ratio(n: int, d: int) -> int {
    n * SCALE / d
}

/// The integer part of `a * c` where `c` is in atomic units, truncated.
pub open spec fn spec_mul_int(a: int, c: int) -> int {
    a * c / (SCALE as int)
}

/// Builds the fixed-point value `n / d`, truncating: the analogue of a
/// decimal type's from-ratio constructor.
pub fn from_ratio(n: u64, d: u64) -> (r: u128)
    requires
        1 <= d,
    ensures
        r == spec_ratio(n as int, d as int),
        r * d <= n * SCALE,
        n * SCALE - r * d < d,
{
    proof {
        lemma_ratio_bounds(n as int, d as int);
    }
    ((n as u128) * SCALE) / (d as u128)
}

/// Multiplies an integer amount by a fixed-point coefficient no greater
/// than 1.0, truncating the result to an integer.
pub fn mul_coeff(a: u64, c: u128) -> (r: u64)
    requires
        c <= SCALE,
    ensures
        r == spec_mul_int(a as int, c as int),
        r <= a,
{
    proof {
        lemma_mul_coeff_bounds(a as int, c as int);
    }
    (((a as u128) * c) / SCALE) as u64
}

/// `n * SCALE / d` is well defined on the machine and bounded by
/// `n * SCALE`, with a remainder below `d`.
pub proof fn lemma_ratio_bounds(n: int, d: int)
    requires
        0 <= n <= u64::MAX,
        1 <= d,
    ensures
        0 <= n * SCALE <= u64::MAX * SCALE < u128::MAX,
        0 <= spec_ratio(n, d) <= n * SCALE,
        spec_ratio(n, d) * d <= n * SCALE,
        n * SCALE - spec_ratio(n, d) * d < d,
{
    assert(0 <= n * SCALE <= u64::MAX * SCALE) by (nonlinear_arith)
        requires
            0 <= n <= u64::MAX,
    ;
    let p = n * SCALE;
    vstd::arithmetic::div_mod::lemma_fundamental_div_mod(p, d);
    vstd::arithmetic::div_mod::lemma_mod_bound(p, d);
    assert(p == d * (p / d) + p % d);
    assert(d * (p / d) == (p / d) * d) by (nonlinear_arith);
    assert(p / d >= 0) by {
        vstd::arithmetic::div_mod::lemma_div_pos_is_pos(p, d);
    }
    assert(p / d <= p) by {
        vstd::arithmetic::div_mod::lemma_div_is_ordered_by_denominator(p, 1, d);
        vstd::arithmetic::div_mod::lemma_div_basics(p);
    }
}

/// `a * c / SCALE` is well defined on the machine and no greater than `a`
/// when `c <= SCALE`.
pub proof fn lemma_mul_coeff_bounds(a: int, c: int)
    requires
        0 <= a <= u64::MAX,
        0 <= c <= SCALE,
    ensures
        0 <= a * c <= u64::MAX * SCALE < u128::MAX,
        0 <= spec_mul_int(a, c) <= a,
{
    assert(0 <= a * c <= u64::MAX * SCALE) by (nonlinear_arith)
        requires
            0 <= a <= u64::MAX,
            0 <= c <= SCALE,
    ;
    assert(a * c <= a * SCALE) by (nonlinear_arith)
        requires
            0 <= a,
            c <= SCALE,
    ;
    vstd::arithmetic::div_mod::lemma_div_is_ordered(a * c, a * (SCALE as int), SCALE as int);
    vstd::arithmetic::div_mod::lemma_div_by_multiple(a, SCALE as int);
    assert(a * c / (SCALE as int) >= 0) by {
        vstd::arithmetic::div_mod::lemma_div_pos_is_pos(a * c, SCALE as int);
    }
}

} // verus!
