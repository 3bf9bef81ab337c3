//! Rounding of quotients to whole cents.

use vstd::prelude::*;
use vstd::arithmetic::div_mod::{lemma_fundamental_div_mod, lemma_fundamental_div_mod_converse, lemma_mod_bound};

verus! {

/// The quotient of a numerator that is not negative by a positive
/// denominator, rounded to the nearest whole number, a half going up.
pub open spec fn half_up(numerator: int, denominator: int) -> int {
    (2 * numerator + denominator) / (2 * denominator)
}

/// The quotient `numerator / denominator`, for a positive denominator,
/// rounded to the nearest whole number, a half going away from zero.
pub open spec fn rounded_ratio(numerator: int, denominator: int) -> int {
    if numerator >= 0 {
        half_up(numerator, denominator)
    } else {
        -half_up(-numerator, denominator)
    }
}

/// Rounding half up is the whole quotient, plus one where the remainder is
/// at least half the denominator.
pub proof fn lemma_half_up_split(numerator: int, denominator: int)
    requires
        0 <= numerator,
        0 < denominator,
    ensures
        half_up(numerator, denominator) == numerator / denominator + (if numerator % denominator
            >= denominator - numerator % denominator {
            1int
        } else {
            0int
        }),
{
    let q = numerator / denominator;
    let r = numerator % denominator;
    lemma_fundamental_div_mod(numerator, denominator);
    lemma_mod_bound(numerator, denominator);
    assert(numerator == denominator * q + r);
    if r >= denominator - r {
        assert(2 * numerator + denominator == (q + 1) * (2 * denominator) + (2 * r - denominator))
            by (nonlinear_arith)
            requires
                numerator == denominator * q + r,
        ;
        lemma_fundamental_div_mod_converse(
            2 * numerator + denominator,
            2 * denominator,
            q + 1,
            2 * r - denominator,
        );
    } else {
        assert(2 * numerator + denominator == q * (2 * denominator) + (2 * r + denominator))
            by (nonlinear_arith)
            requires
                numerator == denominator * q + r,
        ;
        lemma_fundamental_div_mod_converse(
            2 * numerator + denominator,
            2 * denominator,
            q,
            2 * r + denominator,
        );
    }
}

/// A quotient rounded half up lies within half a unit of the true quotient:
/// twice the denominator times the result differs from twice the numerator by
/// at most the denominator, and by less than it from below.
pub proof fn lemma_half_up_bounds(numerator: int, denominator: int)
    requires
        0 <= numerator,
        0 < denominator,
    ensures
        0 <= half_up(numerator, denominator),
        2 * denominator * half_up(numerator, denominator) <= 2 * numerator + denominator,
        2 * numerator - denominator < 2 * denominator * half_up(numerator, denominator),
{
    let x = 2 * numerator + denominator;
    let d = 2 * denominator;
    lemma_fundamental_div_mod(x, d);
    lemma_mod_bound(x, d);
    assert(x == d * (x / d) + x % d);
    assert(0 <= x / d) by (nonlinear_arith)
        requires
            x == d * (x / d) + x % d,
            0 <= x,
            0 < d,
            x % d < d,
    ;
}

/// A quotient that is a whole number already is its own rounding.
pub proof fn lemma_round_whole(value: int, denominator: int)
    requires
        0 < denominator,
    ensures
        rounded_ratio(value * denominator, denominator) == value,
{
    if value >= 0 {
        assert(value * denominator >= 0) by (nonlinear_arith)
            requires
                value >= 0,
                denominator > 0,
        ;
        assert(2 * (value * denominator) + denominator == value * (2 * denominator) + denominator)
            by (nonlinear_arith);
        lemma_fundamental_div_mod_converse(
            2 * (value * denominator) + denominator,
            2 * denominator,
            value,
            denominator,
        );
    } else {
        assert(value * denominator < 0) by (nonlinear_arith)
            requires
                value < 0,
                denominator > 0,
        ;
        assert(2 * (-(value * denominator)) + denominator == (-value) * (2 * denominator)
            + denominator) by (nonlinear_arith);
        lemma_fundamental_div_mod_converse(
            2 * (-(value * denominator)) + denominator,
            2 * denominator,
            -value,
            denominator,
        );
    }
}

/// Rounding is stable: a rounded quotient, taken as so many whole units and
/// rounded again, stays as it is.
pub proof fn lemma_round_price_stable(numerator: int, denominator: int)
    requires
        0 < denominator,
    ensures
        rounded_ratio(rounded_ratio(numerator, denominator), 1) == rounded_ratio(
            numerator,
            denominator,
        ),
{
    let once = rounded_ratio(numerator, denominator);
    lemma_round_whole(once, 1);
    assert(once * 1 == once);
}

/// The magnitude of a rounded quotient is at most that of the numerator.
pub proof fn lemma_rounded_ratio_magnitude(numerator: int, denominator: int)
    requires
        0 < denominator,
    ensures
        numerator >= 0 ==> 0 <= rounded_ratio(numerator, denominator) <= numerator,
        numerator < 0 ==> numerator <= rounded_ratio(numerator, denominator) <= 0,
{
    let m = if numerator >= 0 { numerator } else { -numerator };
    lemma_half_up_bounds(m, denominator);
    let h = half_up(m, denominator);
    assert(h <= m) by (nonlinear_arith)
        requires
            2 * denominator * h <= 2 * m + denominator,
            0 <= h,
            0 <= m,
            0 < denominator,
    ;
}

/// The quotient `numerator / denominator` rounded to the nearest whole
/// number, a half going away from zero.
pub fn round_price(numerator: i128, denominator: u64) -> (rounded: i128)
    requires
        denominator > 0,
    ensures
        rounded == rounded_ratio(numerator as int, denominator as int),
{
    let negative = numerator < 0;
    let magnitude: u128 = if !negative {
        numerator as u128
    } else if numerator == i128::MIN {
        0x8000_0000_0000_0000_0000_0000_0000_0000u128
    } else {
        (-numerator) as u128
    };
    let wide: u128 = denominator as u128;
    let whole: u128 = magnitude / wide;
    let rest: u128 = magnitude % wide;
    proof {
        lemma_half_up_split(magnitude as int, denominator as int);
        lemma_rounded_ratio_magnitude(numerator as int, denominator as int);
    }
    let up: bool = rest >= wide - rest;
    if negative {
        if up {
            -(whole as i128) - 1
        } else if whole == 0x8000_0000_0000_0000_0000_0000_0000_0000u128 {
            i128::MIN
        } else {
            -(whole as i128)
        }
    } else {
        if up {
            (whole + 1) as i128
        } else {
            whole as i128
        }
    }
}

} // verus!
