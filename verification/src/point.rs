//! Points: decay-function snapshots.
//!
//! A Point fixes a linear decay line from its start period onward: the
//! value at period `p >= start` is `max(0, power - slope * (p - start))`,
//! where the slope is held in atomic units (see [`crate::fixed`]) and the
//! result is truncated to whole tokens only after the exact subtraction.
//! Account points additionally satisfy [`account_point_ok`]: the line
//! reaches a remainder below one whole token exactly at `end`, so the
//! reported value at `end` is zero.

use vstd::prelude::*;

use crate::fixed::SCALE;

verus! {

/// Greatest power a point may carry: beyond it, `power * SCALE` would not
/// be representable. Every write of a global point is capped here; the cap
/// is unreachable for any realistic token supply.
pub const POWER_CAP: u128 = u128::MAX / SCALE;

/// A decay-function snapshot for one entity, valid from `start` onward.
#[derive(Clone, Copy, PartialEq, Eq, Structural, Debug)]
pub struct Point {
    /// Whole-token voting power at period `start`.
    pub power: u128,
    /// Per-period decay rate, in atomic units of `1 / SCALE`.
    pub slope: u128,
    /// First period at which this snapshot is in force.
    pub start: u64,
    /// Period at which the line is scheduled to reach zero. Meaningful
    /// for account points only; global decay is driven by the slope
    /// schedule instead.
    pub end: u64,
}

/// The exact (atomic-unit) value of the decay line at period `p`,
/// possibly negative.
pub open spec fn point_raw(pt: Point, p: int) -> int {
    pt.power * SCALE - pt.slope * (p - pt.start)
}

/// The whole-token value of the decay line at period `p`: the exact value
/// clamped at zero, truncated to whole tokens.
pub open spec fn point_value(pt: Point, p: int) -> int {
    if point_raw(pt, p) <= 0 {
        0
    } else {
        point_raw(pt, p) / (SCALE as int)
    }
}

/// Well-formedness of an account point: the power is within whole-token
/// range, and the line reaches `end` with a remainder of less than one
/// whole token, so the account's reported power at `end` is exactly zero.
/// A degenerate point whose `end` lies before `start` must be a zero
/// point (written on withdrawal or blacklisting).
pub open spec fn account_point_ok(pt: Point) -> bool {
    &&& pt.power <= u64::MAX
    &&& if pt.start <= pt.end {
        0 <= point_raw(pt, pt.end as int) < SCALE
    } else {
        pt.power == 0 && pt.slope == 0
    }
}

/// Evaluates the decay line at `period`: the exact subtraction is done in
/// atomic units and truncated to whole tokens once, at the end.
pub fn calc_voting_power(pt: &Point, period: u64) -> (r: u128)
    requires
        pt.start <= period,
        pt.power <= POWER_CAP,
    ensures
        r == point_value(*pt, period as int),
        r <= pt.power,
{
    let dt = (period - pt.start) as u128;
    proof {
        lemma_power_scale_bound(pt.power as int);
    }
    match pt.slope.checked_mul(dt) {
        Some(shift) => {
            let sub = shift / SCALE + if shift % SCALE > 0 {
                1u128
            } else {
                0u128
            };
            proof {
                lemma_ceil_div_subtract(pt.power as int, pt.slope as int, dt as int);
            }
            if sub >= pt.power {
                0
            } else {
                pt.power - sub
            }
        },
        None => {
            proof {
                assert(pt.slope * dt > u128::MAX);
            }
            0
        },
    }
}

/// `power * SCALE` stays within the machine when `power <= POWER_CAP`.
proof fn lemma_power_scale_bound(power: int)
    requires
        0 <= power <= POWER_CAP,
    ensures
        0 <= power * SCALE <= u128::MAX,
{
    assert(0 <= power * SCALE <= (u128::MAX / SCALE) * SCALE) by (nonlinear_arith)
        requires
            0 <= power <= u128::MAX / SCALE,
    ;
    vstd::arithmetic::div_mod::lemma_fundamental_div_mod(u128::MAX as int, SCALE as int);
    vstd::arithmetic::div_mod::lemma_mod_bound(u128::MAX as int, SCALE as int);
    assert((u128::MAX / SCALE) * SCALE == SCALE * (u128::MAX / SCALE)) by (nonlinear_arith);
}

/// Truncating the exact atomic value `power * SCALE - shift` to whole
/// tokens is the same as subtracting the rounded-up whole-token part of
/// `shift` from `power`, clamped at zero.
proof fn lemma_ceil_div_subtract(power: int, slope: int, dt: int)
    requires
        0 <= power,
        0 <= slope,
        0 <= dt,
    ensures
        ({
            let shift = slope * dt;
            let sub = shift / (SCALE as int) + if shift % (SCALE as int) > 0 {
                1int
            } else {
                0int
            };
            let raw = power * SCALE - shift;
            &&& (sub >= power ==> (if raw <= 0 {
                0int
            } else {
                raw / (SCALE as int)
            }) == 0)
            &&& (sub < power ==> raw > 0 && raw / (SCALE as int) == power - sub)
        }),
{
    assert(slope * dt >= 0) by (nonlinear_arith)
        requires
            0 <= slope,
            0 <= dt,
    ;
    let shift = slope * dt;
    let q = shift / (SCALE as int);
    let r = shift % (SCALE as int);
    vstd::arithmetic::div_mod::lemma_fundamental_div_mod(shift, SCALE as int);
    vstd::arithmetic::div_mod::lemma_mod_bound(shift, SCALE as int);
    vstd::arithmetic::div_mod::lemma_div_pos_is_pos(shift, SCALE as int);
    let sub = q + if r > 0 {
        1int
    } else {
        0int
    };
    let raw = power * SCALE - shift;
    // raw == (power - q) * SCALE - r
    assert((power - q) * SCALE == power * SCALE - q * SCALE) by (nonlinear_arith);
    assert(SCALE * q == q * SCALE) by (nonlinear_arith);
    if sub >= power {
        // raw <= (power - q) * SCALE <= SCALE when r > 0, and <= 0 when r == 0
        if r > 0 {
            assert(power - q <= 1);
            assert((power - q) * SCALE <= 1 * SCALE) by (nonlinear_arith)
                requires
                    power - q <= 1,
            ;
            if raw > 0 {
                vstd::arithmetic::div_mod::lemma_basic_div(raw, SCALE as int);
            }
        } else {
            assert(raw <= 0) by {
                assert(power - q <= 0);
                assert((power - q) * SCALE <= 0) by (nonlinear_arith)
                    requires
                        power - q <= 0,
                ;
            }
        }
    } else {
        // raw == (power - sub) * SCALE + (SCALE - r when r > 0 else 0)
        assert(raw > 0) by {
            assert((power - q) * SCALE >= 1 * SCALE) by (nonlinear_arith)
                requires
                    power - q >= 1,
            ;
        }
        if r > 0 {
            assert(power * SCALE - (SCALE * q + r) == (power - (q + 1)) * SCALE + (SCALE - r))
                by (nonlinear_arith);
            assert(raw == (power - sub) * SCALE + (SCALE - r));
            vstd::arithmetic::div_mod::lemma_hoist_over_denominator(
                SCALE as int - r,
                power - sub,
                SCALE as nat,
            );
            vstd::arithmetic::div_mod::lemma_basic_div(SCALE as int - r, SCALE as int);
        } else {
            assert(power * SCALE - (SCALE * q + 0) == (power - q) * SCALE) by (nonlinear_arith);
            assert(raw == (power - sub) * SCALE);
            vstd::arithmetic::div_mod::lemma_div_by_multiple(power - sub, SCALE as int);
        }
    }
}

/// Within one point's reign the reported value never increases: the decay
/// line is monotone nonincreasing from `start` onward.
pub proof fn lemma_point_value_monotone(pt: Point, p1: int, p2: int)
    requires
        pt.start <= p1 <= p2,
    ensures
        point_value(pt, p2) <= point_value(pt, p1),
{
    assert(pt.slope * (p1 - pt.start) <= pt.slope * (p2 - pt.start)) by (nonlinear_arith)
        requires
            0 <= pt.slope,
            p1 - pt.start <= p2 - pt.start,
    ;
    if point_raw(pt, p2) > 0 {
        vstd::arithmetic::div_mod::lemma_div_is_ordered(
            point_raw(pt, p2),
            point_raw(pt, p1),
            SCALE as int,
        );
        vstd::arithmetic::div_mod::lemma_div_pos_is_pos(point_raw(pt, p2), SCALE as int);
    } else if point_raw(pt, p1) > 0 {
        vstd::arithmetic::div_mod::lemma_div_pos_is_pos(point_raw(pt, p1), SCALE as int);
    }
}

/// The reported value at `start` is exactly the stored power.
pub proof fn lemma_point_value_at_start(pt: Point)
    ensures
        point_value(pt, pt.start as int) == pt.power,
{
    assert(pt.slope * 0 == 0) by (nonlinear_arith);
    if pt.power == 0 {
    } else {
        vstd::arithmetic::div_mod::lemma_div_by_multiple(pt.power as int, SCALE as int);
    }
}

/// The reported value never exceeds the stored power.
pub proof fn lemma_point_value_le_power(pt: Point, p: int)
    requires
        pt.start <= p,
    ensures
        0 <= point_value(pt, p) <= pt.power,
{
    lemma_point_value_at_start(pt);
    lemma_point_value_monotone(pt, pt.start as int, p);
    if point_raw(pt, p) > 0 {
        vstd::arithmetic::div_mod::lemma_div_pos_is_pos(point_raw(pt, p), SCALE as int);
    }
}

/// A well-formed account point reports exactly zero at its `end` period
/// and at every later period.
pub proof fn lemma_account_zero_from_end(pt: Point, p: int)
    requires
        account_point_ok(pt),
        pt.start <= p,
        pt.end <= p,
    ensures
        point_value(pt, p) == 0,
{
    if pt.start <= pt.end {
        lemma_point_value_monotone(pt, pt.end as int, p);
        if point_raw(pt, pt.end as int) > 0 {
            vstd::arithmetic::div_mod::lemma_basic_div(
                point_raw(pt, pt.end as int),
                SCALE as int,
            );
        }
        assert(point_value(pt, pt.end as int) == 0);
    } else {
        assert(pt.slope * (p - pt.start) == 0) by (nonlinear_arith)
            requires
                pt.slope == 0,
        ;
    }
}

} // verus!
