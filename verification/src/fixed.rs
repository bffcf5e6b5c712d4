//! Fixed-point scalar arithmetic for the simulation.
//!
//! A scalar is an `i64` counting `SCALE` fractional steps per world unit.
//! Every arithmetic result that is stored back into simulation state is
//! clipped into `[-LIMIT, LIMIT]`, so all operations are total; quotients
//! are rounded toward zero.

use vstd::prelude::*;

verus! {

use vstd::arithmetic::div_mod::lemma_div_is_ordered;
use vstd::arithmetic::div_mod::lemma_div_pos_is_pos;
use vstd::arithmetic::div_mod::lemma_fundamental_div_mod;
use vstd::arithmetic::div_mod::lemma_mod_bound;

/// Fractional steps per world unit.
pub const SCALE: i64 = 1000;

/// Largest magnitude a stored scalar may carry.
pub const LIMIT: i64 = 1_000_000_000_000;

/// Magnitude of an integer.
pub open spec fn absi(a: int) -> int {
    if a < 0 {
        -a
    } else {
        a
    }
}

/// Quotient of `a` by `b`, rounded toward zero.
pub open spec fn tdiv(a: int, b: int) -> int
    recommends
        b != 0,
{
    if (a < 0) != (b < 0) {
        -(absi(a) / absi(b))
    } else {
        absi(a) / absi(b)
    }
}

/// `x` clipped into the representable range.
pub open spec fn clip(x: int) -> int {
    if x > LIMIT as int {
        LIMIT as int
    } else if x < -(LIMIT as int) {
        -(LIMIT as int)
    } else {
        x
    }
}

/// Product of two scalars, brought back to scale; rounded toward zero.
pub open spec fn mul_s(a: int, b: int) -> int {
    tdiv(a * b, SCALE as int)
}

/// Quotient of two scalars, kept at scale; rounded toward zero.
pub open spec fn div_s(a: int, b: int) -> int
    recommends
        b != 0,
{
    tdiv(a * (SCALE as int), b)
}

/// Floor of the square root of a nonnegative integer.
pub open spec fn sqrt_floor(n: int) -> int
    decreases n,
{
    if n <= 0 {
        0
    } else {
        let r = sqrt_floor(n - 1);
        if (r + 1) * (r + 1) <= n {
            r + 1
        } else {
            r
        }
    }
}

/// The defining bounds of the floored square root.
pub proof fn lemma_sqrt_floor(n: int)
    requires
        n >= 0,
    ensures
        sqrt_floor(n) >= 0,
        sqrt_floor(n) * sqrt_floor(n) <= n,
        n < (sqrt_floor(n) + 1) * (sqrt_floor(n) + 1),
    decreases n,
{
    if n > 0 {
        lemma_sqrt_floor(n - 1);
        let r = sqrt_floor(n - 1);
        if (r + 1) * (r + 1) <= n {
            assert((r + 1) * (r + 1) + 1 <= (r + 2) * (r + 2)) by (nonlinear_arith)
                requires
                    r >= 0,
            ;
        }
    }
}

/// Any integer meeting the floored-square-root bounds is the floored square root.
pub proof fn lemma_sqrt_floor_unique(n: int, r: int)
    requires
        n >= 0,
        r >= 0,
        r * r <= n,
        n < (r + 1) * (r + 1),
    ensures
        r == sqrt_floor(n),
{
    lemma_sqrt_floor(n);
    let s = sqrt_floor(n);
    if r < s {
        assert((r + 1) * (r + 1) <= s * s) by (nonlinear_arith)
            requires
                0 <= r + 1 <= s,
        ;
    } else if s < r {
        assert((s + 1) * (s + 1) <= r * r) by (nonlinear_arith)
            requires
                0 <= s + 1 <= r,
        ;
    }
}

/// For a nonnegative dividend and positive divisor, truncation equals the
/// Euclidean quotient, with its usual bracketing.
pub proof fn lemma_tdiv_pos(a: int, b: int)
    requires
        a >= 0,
        b > 0,
    ensures
        tdiv(a, b) == a / b,
        tdiv(a, b) >= 0,
        b * tdiv(a, b) <= a,
        a < b * (tdiv(a, b) + 1),
{
    lemma_div_pos_is_pos(a, b);
    lemma_fundamental_div_mod(a, b);
    lemma_mod_bound(a, b);
    assert(tdiv(a, b) == a / b);
    assert(b * (a / b + 1) == b * (a / b) + b) by (nonlinear_arith);
}

/// Truncating division is odd in its dividend.
pub proof fn lemma_tdiv_neg(a: int, b: int)
    requires
        b > 0,
    ensures
        tdiv(-a, b) == -tdiv(a, b),
{
    lemma_div_pos_is_pos(0, b);
    lemma_div_is_ordered_by_one(0, b);
}

/// Truncation never grows the magnitude faster than the exact quotient:
/// `|tdiv(a, b)| * b <= |a|`, and the sign of the result follows `a`.
pub proof fn lemma_tdiv_bounds(a: int, b: int)
    requires
        b > 0,
    ensures
        a >= 0 ==> 0 <= tdiv(a, b) && b * tdiv(a, b) <= a && a < b * (tdiv(a, b) + 1),
        a <= 0 ==> tdiv(a, b) <= 0 && b * tdiv(a, b) >= a && a > b * (tdiv(a, b) - 1),
        absi(tdiv(a, b)) * b <= absi(a),
{
    if a > 0 {
        lemma_tdiv_pos(a, b);
        assert(tdiv(a, b) * b == b * tdiv(a, b)) by (nonlinear_arith);
    } else if a == 0 {
        lemma_tdiv_pos(0, b);
        assert(tdiv(0, b) == 0) by (nonlinear_arith)
            requires
                b > 0,
                tdiv(0, b) >= 0,
                b * tdiv(0, b) <= 0,
        ;
        assert(b * (0 - 1) == -b) by (nonlinear_arith);
        assert(0 * b == 0) by (nonlinear_arith);
        assert(b * 0 == 0) by (nonlinear_arith);
    } else {
        lemma_tdiv_pos(-a, b);
        lemma_tdiv_neg(-a, b);
        let t = tdiv(-a, b);
        assert(tdiv(a, b) == -t);
        assert(b * (-t) == -(b * t)) by (nonlinear_arith);
        assert(b * (-t - 1) == -(b * (t + 1))) by (nonlinear_arith);
        assert(t * b == b * t) by (nonlinear_arith);
    }
}

/// A truncated quotient never exceeds its dividend in magnitude, and its
/// sign follows the dividend.
pub proof fn lemma_tdiv_abs_le(a: int, b: int)
    requires
        b >= 1,
    ensures
        absi(tdiv(a, b)) <= absi(a),
        a >= 0 ==> tdiv(a, b) >= 0,
        a <= 0 ==> tdiv(a, b) <= 0,
        -absi(a) <= tdiv(a, b) <= absi(a),
{
    lemma_tdiv_bounds(a, b);
    assert(absi(tdiv(a, b)) <= absi(tdiv(a, b)) * b) by (nonlinear_arith)
        requires
            b >= 1,
            absi(tdiv(a, b)) >= 0,
    ;
}

/// A zero dividend gives a zero quotient.
pub proof fn lemma_tdiv_zero(b: int)
    requires
        b > 0,
    ensures
        tdiv(0, b) == 0,
{
    lemma_tdiv_pos(0, b);
    assert(tdiv(0, b) == 0) by (nonlinear_arith)
        requires
            b > 0,
            tdiv(0, b) >= 0,
            b * tdiv(0, b) <= 0,
    ;
}

/// The magnitude of a truncated quotient is the truncated quotient of the
/// magnitude.
pub proof fn lemma_tdiv_abs_eq(a: int, b: int)
    requires
        b > 0,
    ensures
        absi(tdiv(a, b)) == tdiv(absi(a), b),
{
    lemma_div_pos_is_pos(absi(a), b);
}

/// Truncating division by a positive divisor is monotone on nonnegative
/// dividends.
pub proof fn lemma_tdiv_ordered(a1: int, a2: int, b: int)
    requires
        0 <= a1 <= a2,
        b > 0,
    ensures
        tdiv(a1, b) <= tdiv(a2, b),
{
    lemma_div_is_ordered(a1, a2, b);
}

/// Exact quotients are recovered untruncated.
pub proof fn lemma_tdiv_exact(q: int, b: int)
    requires
        b > 0,
    ensures
        tdiv(q * b, b) == q,
{
    if q >= 0 {
        lemma_tdiv_pos(q * b, b);
        assert(q * b >= 0) by (nonlinear_arith)
            requires
                q >= 0,
                b > 0,
        ;
        assert(b * tdiv(q * b, b) <= q * b < b * (tdiv(q * b, b) + 1));
        assert(tdiv(q * b, b) == q) by (nonlinear_arith)
            requires
                b > 0,
                b * tdiv(q * b, b) <= q * b < b * (tdiv(q * b, b) + 1),
        ;
    } else {
        assert((-q) * b == -(q * b)) by (nonlinear_arith);
        assert((-q) * b >= 0) by (nonlinear_arith)
            requires
                q < 0,
                b > 0,
        ;
        lemma_tdiv_pos((-q) * b, b);
        assert(tdiv((-q) * b, b) == -q) by (nonlinear_arith)
            requires
                b > 0,
                b * tdiv((-q) * b, b) <= (-q) * b < b * (tdiv((-q) * b, b) + 1),
        ;
        lemma_tdiv_neg(q * b, b);
    }
}

/// A product of bounded factors is bounded by the product of the bounds.
pub proof fn lemma_mul_bounds(a: int, b: int, am: int, bm: int)
    requires
        -am <= a <= am,
        -bm <= b <= bm,
        0 <= am,
        0 <= bm,
    ensures
        -(am * bm) <= a * b <= am * bm,
{
    assert(-(am * bm) <= a * b <= am * bm) by (nonlinear_arith)
        requires
            -am <= a <= am,
            -bm <= b <= bm,
            0 <= am,
            0 <= bm,
    ;
}

/// Quotient rounded toward zero, on machine integers.
pub fn div_trunc(a: i128, b: i128) -> (r: i128)
    requires
        b != 0,
        a != i128::MIN,
        b != i128::MIN,
    ensures
        r as int == tdiv(a as int, b as int),
{
    let ua: u128 = if a >= 0 {
        a as u128
    } else {
        (-a) as u128
    };
    let ub: u128 = if b >= 0 {
        b as u128
    } else {
        (-b) as u128
    };
    let q: u128 = ua / ub;
    proof {
        assert(ua as int == absi(a as int));
        assert(ub as int == absi(b as int));
        assert(ua <= i128::MAX as u128);
        lemma_div_is_ordered_by_one(ua as int, ub as int);
    }
    if (a < 0) != (b < 0) {
        -(q as i128)
    } else {
        q as i128
    }
}

/// A quotient by a divisor of at least one never exceeds the dividend.
proof fn lemma_div_is_ordered_by_one(x: int, d: int)
    requires
        x >= 0,
        d > 0,
    ensures
        x / d <= x,
{
    lemma_fundamental_div_mod(x, d);
    lemma_mod_bound(x, d);
    assert(x / d <= x) by (nonlinear_arith)
        requires
            d > 0,
            x / d >= 0,
            x == d * (x / d) + (x % d),
            x % d >= 0,
    ;
    assert(x / d >= 0) by {
        lemma_div_pos_is_pos(x, d);
    }
}

/// `x` clipped into the representable range, on machine integers.
pub fn clip_to(x: i128) -> (r: i64)
    ensures
        r as int == clip(x as int),
{
    if x > LIMIT as i128 {
        LIMIT
    } else if x < -(LIMIT as i128) {
        -LIMIT
    } else {
        x as i64
    }
}

/// Floor of the square root, on machine integers.
pub fn isqrt(n: u128) -> (r: u128)
    requires
        n <= 100_000_000_000_000_000_000_000_000,
    ensures
        r as int == sqrt_floor(n as int),
{
    let mut lo: u128 = 0;
    let mut hi: u128 = 10_000_000_000_001;
    proof {
        assert(n < hi * hi) by (nonlinear_arith)
            requires
                n <= 100_000_000_000_000_000_000_000_000u128,
                hi == 10_000_000_000_001u128,
        ;
    }
    while hi - lo > 1
        invariant
            lo < hi,
            hi <= 10_000_000_000_001,
            lo * lo <= n,
            n < hi * hi,
        decreases hi - lo,
    {
        let mid: u128 = lo + (hi - lo) / 2;
        proof {
            assert(lo < mid < hi);
            assert(mid * mid <= u128::MAX) by (nonlinear_arith)
                requires
                    mid <= 10_000_000_000_001u128,
        ;
        }
        if mid * mid <= n {
            lo = mid;
        } else {
            hi = mid;
        }
    }
    proof {
        assert(hi == lo + 1);
        lemma_sqrt_floor_unique(n as int, lo as int);
    }
    lo
}

} // verus!
