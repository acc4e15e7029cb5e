//! Fixed-point numeric helpers: range limits, truncating division and
//! clamping, computed in wide intermediate arithmetic.

use vstd::prelude::*;

verus! {

/// Largest magnitude a position coordinate may take.
pub const COORD_LIMIT: i64 = 1_000_000_000_000_000_000;

/// Largest magnitude a velocity component may take.
pub const VEL_LIMIT: i64 = 1_000_000_000_000;

/// Largest mass value; masses are at least 1.
pub const MASS_LIMIT: i64 = 1_000_000;

/// Largest numerator or denominator of a configured ratio (restitution,
/// tick length, gravity).
pub const RATIO_LIMIT: i64 = 1_000_000;

/// Division truncating toward zero, as machine division does; the
/// mathematical `/` on `int` rounds toward negative infinity instead.
pub open spec fn tdiv(n: int, d: int) -> int
    recommends
        d > 0,
{
    if n >= 0 {
        n / d
    } else {
        -((-n) / d)
    }
}

pub open spec fn spec_clamp(v: int, lim: int) -> int
    recommends
        lim >= 0,
{
    if v < -lim {
        -lim
    } else if v > lim {
        lim
    } else {
        v
    }
}

/// Truncating division on wide integers.
pub fn div_trunc(n: i128, d: i128) -> (r: i128)
    requires
        d > 0,
        n > i128::MIN,
    ensures
        r == tdiv(n as int, d as int),
{
    if n >= 0 {
        n / d
    } else {
        -((-n) / d)
    }
}

/// Clamp a wide intermediate into `[-lim, lim]`.
pub fn clamp_to(v: i128, lim: i64) -> (r: i64)
    requires
        lim >= 0,
    ensures
        r == spec_clamp(v as int, lim as int),
{
    if v < -(lim as i128) {
        -lim
    } else if v > lim as i128 {
        lim
    } else {
        v as i64
    }
}

/// A truncating quotient lies between zero and the numerator, so its
/// magnitude never exceeds the numerator's when the denominator is at
/// least one.
pub proof fn lemma_tdiv_bound(n: int, d: int)
    requires
        d >= 1,
    ensures
        n >= 0 ==> 0 <= tdiv(n, d) <= n,
        n <= 0 ==> n <= tdiv(n, d) <= 0,
{
    if n >= 0 {
        vstd::arithmetic::div_mod::lemma_div_nonincreasing(n, d);
        vstd::arithmetic::div_mod::lemma_div_pos_is_pos(n, d);
    } else {
        vstd::arithmetic::div_mod::lemma_div_nonincreasing(-n, d);
        vstd::arithmetic::div_mod::lemma_div_pos_is_pos(-n, d);
    }
}

/// Exact cancellation: dividing `a * d` by `d` gives back `a`.
pub proof fn lemma_tdiv_cancel(a: int, d: int)
    requires
        d >= 1,
    ensures
        tdiv(a * d, d) == a,
{
    if a >= 0 {
        assert(a * d >= 0) by (nonlinear_arith)
            requires
                a >= 0 && d >= 1,
        ;
        vstd::arithmetic::div_mod::lemma_div_by_multiple(a, d);
    } else {
        assert(a * d <= 0) by (nonlinear_arith)
            requires
                a <= 0 && d >= 1,
        ;
        assert(-(a * d) == (-a) * d) by (nonlinear_arith);
        vstd::arithmetic::div_mod::lemma_div_by_multiple(-a, d);
    }
}

} // verus!
