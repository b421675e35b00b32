//! Scaled-integer ("fixed-point") scalar arithmetic.
//!
//! A raw value `n: i64` stands for the real number `n / UNIT`.
//! Products, quotients and square roots are floored to the grid
//! (Euclidean division by the positive scale), so every operation is
//! an exact function of its integer inputs.

use vstd::prelude::*;
use vstd::arithmetic::div_mod::{
    lemma_fundamental_div_mod, lemma_fundamental_div_mod_converse, lemma_div_is_ordered,
    lemma_div_is_ordered_by_denominator,
};
use vstd::arithmetic::mul::lemma_mul_upper_bound;

verus! {

/// The scale: raw value `UNIT` stands for the real number one.
pub const UNIT: i64 = 65536;

/// Fixed-point product: the raw value standing for the product of the
/// reals that `a` and `b` stand for, floored to the grid.
pub open spec fn fmul(a: int, b: int) -> int {
    (a * b) / (UNIT as int)
}

/// Fixed-point quotient (for a positive divisor): the raw value
/// standing for the quotient of the reals, floored to the grid.
pub open spec fn fdiv(a: int, b: int) -> int {
    (a * (UNIT as int)) / b
}

/// Clamp `x` into `[lo, hi]`.
pub open spec fn clamp_s(x: int, lo: int, hi: int) -> int {
    if x < lo {
        lo
    } else if x > hi {
        hi
    } else {
        x
    }
}

/// The integer square root: the largest `r` with `r * r <= n`.
pub open spec fn sqrt_floor(n: nat) -> nat
    decreases n,
{
    if n == 0 {
        0
    } else {
        let r = sqrt_floor((n - 1) as nat);
        if (r + 1) * (r + 1) <= n {
            r + 1
        } else {
            r
        }
    }
}

/// Fixed-point square root of a nonnegative raw value, floored to the
/// grid; zero for a negative argument.
pub open spec fn fsqrt(x: int) -> int {
    if x <= 0 {
        0
    } else {
        sqrt_floor((x * (UNIT as int)) as nat) as int
    }
}

/// `sqrt_floor(n)` is the floor of the square root of `n`.
pub proof fn lemma_sqrt_floor(n: nat)
    ensures
        sqrt_floor(n) * sqrt_floor(n) <= n,
        (sqrt_floor(n) + 1) * (sqrt_floor(n) + 1) > n,
    decreases n,
{
    if n == 0 {
        assert(sqrt_floor(0) == 0);
        assert(sqrt_floor(n) * sqrt_floor(n) <= n);
        assert((sqrt_floor(n) + 1) * (sqrt_floor(n) + 1) > n) by (nonlinear_arith)
            requires
                sqrt_floor(n) == 0,
                n == 0,
        ;
    } else {
        lemma_sqrt_floor((n - 1) as nat);
        let r = sqrt_floor((n - 1) as nat);
        if (r + 1) * (r + 1) <= n {
            assert(sqrt_floor(n) == r + 1);
            assert((r + 1) * (r + 1) > n - 1);
            assert((r + 2) * (r + 2) > n) by (nonlinear_arith)
                requires
                    (r + 1) * (r + 1) >= n,
            ;
            assert((sqrt_floor(n) + 1) * (sqrt_floor(n) + 1) > n);
        } else {
            assert(sqrt_floor(n) == r);
            assert(r * r <= n - 1);
        }
    }
}

/// No two distinct values satisfy the floor-square-root bounds.
pub proof fn lemma_sqrt_floor_unique(n: nat, r: nat)
    requires
        r * r <= n,
        (r + 1) * (r + 1) > n,
    ensures
        r == sqrt_floor(n),
{
    lemma_sqrt_floor(n);
    let s = sqrt_floor(n);
    if r < s {
        assert((r + 1) * (r + 1) <= s * s) by (nonlinear_arith)
            requires
                r + 1 <= s,
        ;
    }
    if s < r {
        assert((s + 1) * (s + 1) <= r * r) by (nonlinear_arith)
            requires
                s + 1 <= r,
        ;
    }
}

/// The square root of a perfect square.
pub proof fn lemma_sqrt_floor_square(r: nat)
    ensures
        sqrt_floor(r * r) == r,
{
    assert((r + 1) * (r + 1) > r * r) by (nonlinear_arith);
    lemma_sqrt_floor_unique(r * r, r);
}

/// The floor square root is monotone.
pub proof fn lemma_sqrt_floor_mono(a: nat, b: nat)
    requires
        a <= b,
    ensures
        sqrt_floor(a) <= sqrt_floor(b),
{
    lemma_sqrt_floor(a);
    lemma_sqrt_floor(b);
    let ra = sqrt_floor(a);
    let rb = sqrt_floor(b);
    if rb < ra {
        assert((rb + 1) * (rb + 1) <= ra * ra) by (nonlinear_arith)
            requires
                rb + 1 <= ra,
        ;
    }
}

/// Floored division of a signed 128-bit value by a positive divisor:
/// the result is the Euclidean quotient (rounding toward minus
/// infinity), matching `/` in contracts.
pub fn div_floor_i128(a: i128, b: i128) -> (r: i128)
    requires
        -0x4000_0000_0000_0000_0000_0000_0000_0000 <= a
            <= 0x4000_0000_0000_0000_0000_0000_0000_0000,
        0 < b <= 0x4000_0000_0000_0000_0000_0000_0000_0000,
    ensures
        r == a as int / b as int,
{
    if a >= 0 {
        a / b
    } else {
        let q = (-a + (b - 1)) / b;
        proof {
            let ai = a as int;
            let bi = b as int;
            lemma_fundamental_div_mod(-ai, bi);
            let q0 = (-ai) / bi;
            let m = (-ai) % bi;
            assert(-ai == bi * q0 + m);
            if m == 0 {
                assert(-ai + bi - 1 == q0 * bi + (bi - 1)) by (nonlinear_arith)
                    requires
                        -ai == bi * q0 + m,
                        m == 0,
                ;
                lemma_fundamental_div_mod_converse(-ai + bi - 1, bi, q0, bi - 1);
                assert(ai == (-q0) * bi + 0) by (nonlinear_arith)
                    requires
                        -ai == bi * q0 + m,
                        m == 0,
                ;
                lemma_fundamental_div_mod_converse(ai, bi, -q0, 0);
            } else {
                assert(-ai + bi - 1 == (q0 + 1) * bi + (m - 1)) by (nonlinear_arith)
                    requires
                        -ai == bi * q0 + m,
                ;
                lemma_fundamental_div_mod_converse(-ai + bi - 1, bi, q0 + 1, m - 1);
                assert(ai == (-(q0 + 1)) * bi + (bi - m)) by (nonlinear_arith)
                    requires
                        -ai == bi * q0 + m,
                ;
                lemma_fundamental_div_mod_converse(ai, bi, -(q0 + 1), bi - m);
            }
        }
        -q
    }
}

/// Fixed-point multiplication, exact on the floored grid.
pub fn mul_fixed(a: i64, b: i64) -> (r: i64)
    requires
        i64::MIN <= fmul(a as int, b as int) <= i64::MAX,
    ensures
        r == fmul(a as int, b as int),
{
    let p: i128 = (a as i128) * (b as i128);
    proof {
        assert((a as int) * (b as int) <= 0x4000_0000_0000_0000_0000_0000_0000_0000
            && (a as int) * (b as int) >= -0x4000_0000_0000_0000_0000_0000_0000_0000)
            by (nonlinear_arith)
            requires
                i64::MIN <= a <= i64::MAX,
                i64::MIN <= b <= i64::MAX,
        ;
    }
    let q = div_floor_i128(p, UNIT as i128);
    q as i64
}

/// Fixed-point division by a positive divisor, exact on the floored
/// grid.
pub fn div_fixed(a: i64, b: i64) -> (r: i64)
    requires
        b > 0,
        i64::MIN <= fdiv(a as int, b as int) <= i64::MAX,
    ensures
        r == fdiv(a as int, b as int),
{
    let p: i128 = (a as i128) * (UNIT as i128);
    let q = div_floor_i128(p, b as i128);
    q as i64
}

/// Integer square root of a 128-bit value by bisection.
pub fn isqrt_u128(n: u128) -> (r: u128)
    requires
        n < 0x4000_0000_0000_0000_0000_0000_0000_0000,
    ensures
        r * r <= n,
        (r + 1) * (r + 1) > n,
        r == sqrt_floor(n as nat),
{
    let mut lo: u128 = 0;
    let mut hi: u128 = 0x8000_0000_0000_0000;
    proof {
        assert((hi as int) * (hi as int) > n) by (nonlinear_arith)
            requires
                hi == 0x8000_0000_0000_0000u128,
                n < 0x4000_0000_0000_0000_0000_0000_0000_0000,
        ;
    }
    while lo + 1 < hi
        invariant
            lo < hi <= 0x8000_0000_0000_0000,
            (lo as int) * (lo as int) <= n,
            (hi as int) * (hi as int) > n,
        decreases hi - lo,
    {
        let mid = lo + (hi - lo) / 2;
        proof {
            lemma_fundamental_div_mod(n as int, mid as int);
        }
        if mid <= n / mid {
            proof {
                assert((mid as int) * (mid as int) <= n) by (nonlinear_arith)
                    requires
                        mid > 0,
                        n >= 0,
                        mid <= n as int / mid as int,
                        n as int == (mid as int) * (n as int / mid as int) + n as int % (
                        mid as int),
                        0 <= n as int % (mid as int),
                ;
            }
            lo = mid;
        } else {
            proof {
                assert((mid as int) * (mid as int) > n) by (nonlinear_arith)
                    requires
                        mid > 0,
                        n >= 0,
                        mid > n as int / mid as int,
                        n as int == (mid as int) * (n as int / mid as int) + n as int % (
                        mid as int),
                        n as int % (mid as int) < mid as int,
                ;
            }
            hi = mid;
        }
    }
    proof {
        lemma_sqrt_floor_unique(n as nat, lo as nat);
    }
    lo
}

/// Fixed-point square root of a nonnegative raw value.
pub fn sqrt_fixed(x: i64) -> (r: i64)
    requires
        x >= 0,
    ensures
        r == fsqrt(x as int),
        0 <= r < 0x100_0000_0000,
{
    if x == 0 {
        return 0;
    }
    proof {
        assert((x as int) * (UNIT as int) < 0x8_0000_0000_0000_0000_0000);
    }
    let n: u128 = (x as u128) * (UNIT as u128);
    let r = isqrt_u128(n);
    proof {
        let c = 0x100_0000_0000int;
        assert(0x100_0000_0000int * 0x100_0000_0000int == 0x1_0000_0000_0000_0000_0000int)
            by (nonlinear_arith);
        if r as int >= c {
            lemma_mul_upper_bound(c, r as int, c, r as int);
            assert(false);
        }
    }
    r as i64
}

/// Clamp `x` into `[lo, hi]`.
pub fn clamp_fixed(x: i64, lo: i64, hi: i64) -> (r: i64)
    requires
        lo <= hi,
    ensures
        r == clamp_s(x as int, lo as int, hi as int),
{
    if x < lo {
        lo
    } else if x > hi {
        hi
    } else {
        x
    }
}

/// Division by the scale commutes with adding a multiple of the scale:
/// the floor loses nothing on whole units.
pub proof fn lemma_fdiv_unit_shift(a: int, k: int)
    ensures
        (a + k * (UNIT as int)) / (UNIT as int) == a / (UNIT as int) + k,
{
    let u = UNIT as int;
    lemma_fundamental_div_mod(a, u);
    lemma_fundamental_div_mod_converse(a + k * u, u, a / u + k, a % u);
}

/// `(-a) / d >= -(a / d) - 1` for a positive divisor: flooring a
/// negated dividend loses at most one step.
pub proof fn lemma_floor_div_neg(a: int, d: int)
    requires
        0 < d,
        0 <= a,
    ensures
        (-a) / d >= -(a / d) - 1,
{
    lemma_fundamental_div_mod(-a, d);
    lemma_fundamental_div_mod(a, d);
    let q = a / d;
    let qn = (-a) / d;
    if qn < -q - 1 {
        assert(d * qn <= d * (-q - 2)) by (nonlinear_arith)
            requires
                qn <= -q - 2,
                d > 0,
        ;
        assert(d * (-q - 2) == -(d * q) - 2 * d) by (nonlinear_arith);
        assert(false);
    }
}

/// A bound on a fixed-point product from bounds on the factors.
pub proof fn lemma_fmul_bound(a: int, b: int, ba: int, bb: int)
    requires
        -ba <= a <= ba,
        -bb <= b <= bb,
        0 <= ba,
        0 <= bb,
    ensures
        -((ba * bb) / (UNIT as int)) - 1 <= fmul(a, b) <= (ba * bb) / (UNIT as int),
{
    assert(-(ba * bb) <= a * b <= ba * bb) by (nonlinear_arith)
        requires
            -ba <= a <= ba,
            -bb <= b <= bb,
            0 <= ba,
            0 <= bb,
    ;
    lemma_div_is_ordered(a * b, ba * bb, UNIT as int);
    lemma_div_is_ordered(-(ba * bb), a * b, UNIT as int);
    lemma_floor_div_neg(ba * bb, UNIT as int);
}

/// A fixed-point quotient by a full-scale divisor is no larger than
/// the dividend's bound.
pub proof fn lemma_fdiv_bound(x: int, b: int, bx: int)
    requires
        -bx <= x <= bx,
        0 <= bx,
        b >= UNIT,
    ensures
        -bx - 1 <= fdiv(x, b) <= bx,
{
    let u = UNIT as int;
    lemma_div_is_ordered(x * u, bx * u, b);
    lemma_div_is_ordered(-(bx * u), x * u, b);
    lemma_div_is_ordered_by_denominator(bx * u, u, b);
    lemma_fundamental_div_mod_converse(bx * u, u, bx, 0);
    lemma_floor_div_neg(bx * u, b);
}

/// A fixed-point quotient of a dividend within `k` times the divisor
/// is within `k` times the scale.
pub proof fn lemma_fdiv_ratio_bound(x: int, b: int, k: int)
    requires
        -(k * b) <= x <= k * b,
        0 < b,
        0 <= k,
    ensures
        -(k * (UNIT as int)) <= fdiv(x, b) <= k * (UNIT as int),
{
    let u = UNIT as int;
    assert((k * b) * u == (k * u) * b + 0) by (nonlinear_arith);
    assert(-((k * b) * u) == (-(k * u)) * b + 0) by (nonlinear_arith);
    lemma_fundamental_div_mod_converse((k * b) * u, b, k * u, 0);
    lemma_fundamental_div_mod_converse(-((k * b) * u), b, -(k * u), 0);
    assert(x * u <= (k * b) * u) by (nonlinear_arith)
        requires
            x <= k * b,
            u > 0,
    ;
    assert(-((k * b) * u) <= x * u) by (nonlinear_arith)
        requires
            -(k * b) <= x,
            u > 0,
    ;
    lemma_div_is_ordered(x * u, (k * b) * u, b);
    lemma_div_is_ordered(-((k * b) * u), x * u, b);
}

/// A floored quotient is ordered as its dividends are.
pub proof fn lemma_fdiv_ordered(a: int, b: int, d: int)
    requires
        a <= b,
        0 < d,
    ensures
        a / d <= b / d,
{
    lemma_div_is_ordered(a, b, d);
}

} // verus!
