//! Three-component vectors over the fixed-point scalars.
//!
//! Components are raw fixed-point values (see `fixed`): the vector
//! `(x, y, z)` stands for the real vector `(x, y, z) / UNIT`. Sums are
//! exact; dot products and scalings are floored to the grid.

use vstd::prelude::*;
use crate::fixed::{fmul, fdiv, fsqrt, UNIT, mul_fixed, div_fixed, sqrt_fixed, div_floor_i128};
use vstd::arithmetic::div_mod::{
    lemma_fundamental_div_mod, lemma_fundamental_div_mod_converse, lemma_div_is_ordered,
};

verus! {

/// A vector of three raw fixed-point components.
#[derive(Clone, Copy, PartialEq, Eq, Structural, Debug)]
pub struct Vec3 {
    pub x: i64,
    pub y: i64,
    pub z: i64,
}

/// All components lie in `[-b, b]`.
pub open spec fn within(v: Vec3, b: int) -> bool {
    &&& -b <= v.x <= b
    &&& -b <= v.y <= b
    &&& -b <= v.z <= b
}

/// Componentwise sum (exact).
pub open spec fn add_s(u: Vec3, v: Vec3) -> Vec3 {
    Vec3 { x: (u.x + v.x) as i64, y: (u.y + v.y) as i64, z: (u.z + v.z) as i64 }
}

/// Componentwise difference (exact).
pub open spec fn sub_s(u: Vec3, v: Vec3) -> Vec3 {
    Vec3 { x: (u.x - v.x) as i64, y: (u.y - v.y) as i64, z: (u.z - v.z) as i64 }
}

/// Componentwise negation (exact).
pub open spec fn neg_s(v: Vec3) -> Vec3 {
    Vec3 { x: (-v.x) as i64, y: (-v.y) as i64, z: (-v.z) as i64 }
}

/// The raw sum of the componentwise products, before the scale is
/// divided back out.
pub open spec fn dot_wide(u: Vec3, v: Vec3) -> int {
    u.x * v.x + u.y * v.y + u.z * v.z
}

/// Fixed-point dot product, floored to the grid.
pub open spec fn dot_s(u: Vec3, v: Vec3) -> int {
    dot_wide(u, v) / (UNIT as int)
}

/// Scaling by a fixed-point factor, componentwise and floored.
pub open spec fn scale_s(k: int, v: Vec3) -> Vec3 {
    Vec3 {
        x: fmul(k, v.x as int) as i64,
        y: fmul(k, v.y as int) as i64,
        z: fmul(k, v.z as int) as i64,
    }
}

/// The unit vector along `v`: each component divided by the
/// fixed-point magnitude of `v`.
pub open spec fn unit_s(v: Vec3) -> Vec3 {
    let m = fsqrt(dot_s(v, v));
    Vec3 {
        x: fdiv(v.x as int, m) as i64,
        y: fdiv(v.y as int, m) as i64,
        z: fdiv(v.z as int, m) as i64,
    }
}

impl Vec3 {
    /// Build a vector from raw fixed-point components.
    pub fn new(x: i64, y: i64, z: i64) -> (r: Vec3)
        ensures
            r == (Vec3 { x, y, z }),
    {
        Vec3 { x, y, z }
    }

    /// The zero vector.
    pub fn zero() -> (r: Vec3)
        ensures
            r == (Vec3 { x: 0i64, y: 0i64, z: 0i64 }),
    {
        Vec3 { x: 0, y: 0, z: 0 }
    }

    /// Componentwise sum.
    pub fn add(self, o: Vec3) -> (r: Vec3)
        requires
            i64::MIN <= self.x + o.x <= i64::MAX,
            i64::MIN <= self.y + o.y <= i64::MAX,
            i64::MIN <= self.z + o.z <= i64::MAX,
        ensures
            r == add_s(self, o),
    {
        Vec3 { x: self.x + o.x, y: self.y + o.y, z: self.z + o.z }
    }

    /// Componentwise difference.
    pub fn sub(self, o: Vec3) -> (r: Vec3)
        requires
            i64::MIN <= self.x - o.x <= i64::MAX,
            i64::MIN <= self.y - o.y <= i64::MAX,
            i64::MIN <= self.z - o.z <= i64::MAX,
        ensures
            r == sub_s(self, o),
    {
        Vec3 { x: self.x - o.x, y: self.y - o.y, z: self.z - o.z }
    }

    /// Componentwise negation.
    pub fn neg(self) -> (r: Vec3)
        requires
            self.x > i64::MIN,
            self.y > i64::MIN,
            self.z > i64::MIN,
        ensures
            r == neg_s(self),
    {
        Vec3 { x: -self.x, y: -self.y, z: -self.z }
    }

    /// Scale by a fixed-point factor.
    pub fn scale(self, k: i64) -> (r: Vec3)
        requires
            i64::MIN <= fmul(k as int, self.x as int) <= i64::MAX,
            i64::MIN <= fmul(k as int, self.y as int) <= i64::MAX,
            i64::MIN <= fmul(k as int, self.z as int) <= i64::MAX,
        ensures
            r == scale_s(k as int, self),
    {
        Vec3 { x: mul_fixed(k, self.x), y: mul_fixed(k, self.y), z: mul_fixed(k, self.z) }
    }

    /// Fixed-point dot product.
    pub fn dot(self, o: Vec3) -> (r: i64)
        requires
            within(self, 0x4000_0000_0000_0000),
            within(o, 0x4000_0000_0000_0000),
            i64::MIN <= dot_s(self, o) <= i64::MAX,
        ensures
            r == dot_s(self, o),
    {
        proof {
            lemma_product_bound(self.x as int, o.x as int, 0x4000_0000_0000_0000);
            lemma_product_bound(self.y as int, o.y as int, 0x4000_0000_0000_0000);
            lemma_product_bound(self.z as int, o.z as int, 0x4000_0000_0000_0000);
        }
        let w: i128 = (self.x as i128) * (o.x as i128) + (self.y as i128) * (o.y as i128) + (
        self.z as i128) * (o.z as i128);
        let q = div_floor_i128(w, UNIT as i128);
        q as i64
    }

    /// The squared fixed-point magnitude.
    pub fn magnitude_squared(self) -> (r: i64)
        requires
            within(self, 0x4000_0000_0000_0000),
            dot_s(self, self) <= i64::MAX,
        ensures
            r == dot_s(self, self),
            r >= 0,
    {
        proof {
            lemma_dot_self_nonneg(self);
        }
        self.dot(self)
    }

    /// The unit vector along `self`, by fixed-point magnitude; asks
    /// for a squared magnitude of at least one quantum so that the
    /// division is by a positive value.
    pub fn normalize(self) -> (r: Vec3)
        requires
            within(self, 0x4000_0000_0000_0000),
            dot_s(self, self) <= i64::MAX,
            dot_s(self, self) >= 1,
        ensures
            r == unit_s(self),
            within(r, 2 * UNIT),
    {
        proof {
            lemma_normalize_bound(self);
        }
        let msq = self.magnitude_squared();
        let m = sqrt_fixed(msq);
        Vec3 { x: div_fixed(self.x, m), y: div_fixed(self.y, m), z: div_fixed(self.z, m) }
    }
}

/// The product of values bounded by `b` is bounded by `b * b`, which
/// for `b = 2^62` keeps the wide dot-product sum inside 128 bits.
proof fn lemma_product_bound(a: int, b: int, c: int)
    requires
        -c <= a <= c,
        -c <= b <= c,
        0 <= c,
    ensures
        -(c * c) <= a * b <= c * c,
{
    assert(-(c * c) <= a * b <= c * c) by (nonlinear_arith)
        requires
            -c <= a <= c,
            -c <= b <= c,
            0 <= c,
    ;
}

/// A dot product of a vector with itself is nonnegative.
pub proof fn lemma_dot_self_nonneg(v: Vec3)
    ensures
        dot_wide(v, v) >= 0,
        dot_s(v, v) >= 0,
{
    assert(v.x * v.x >= 0) by (nonlinear_arith);
    assert(v.y * v.y >= 0) by (nonlinear_arith);
    assert(v.z * v.z >= 0) by (nonlinear_arith);
    lemma_div_is_ordered(0, dot_wide(v, v), UNIT as int);
}

/// A bound on the fixed-point dot product from bounds on the
/// components.
pub proof fn lemma_dot_bound(u: Vec3, v: Vec3, bu: int, bv: int)
    requires
        within(u, bu),
        within(v, bv),
        0 <= bu,
        0 <= bv,
    ensures
        -(3 * (bu * bv)) / (UNIT as int) - 1 <= dot_s(u, v) <= (3 * (bu * bv)) / (UNIT as int),
{
    lemma_product_bound(u.x as int, v.x as int, if bu <= bv { bv } else { bu });
    assert(-(bu * bv) <= u.x * v.x <= bu * bv) by (nonlinear_arith)
        requires
            -bu <= u.x <= bu,
            -bv <= v.x <= bv,
            0 <= bu,
            0 <= bv,
    ;
    assert(-(bu * bv) <= u.y * v.y <= bu * bv) by (nonlinear_arith)
        requires
            -bu <= u.y <= bu,
            -bv <= v.y <= bv,
            0 <= bu,
            0 <= bv,
    ;
    assert(-(bu * bv) <= u.z * v.z <= bu * bv) by (nonlinear_arith)
        requires
            -bu <= u.z <= bu,
            -bv <= v.z <= bv,
            0 <= bu,
            0 <= bv,
    ;
    let w = dot_wide(u, v);
    lemma_div_is_ordered(w, 3 * (bu * bv), UNIT as int);
    lemma_div_is_ordered(-(3 * (bu * bv)), w, UNIT as int);
    crate::fixed::lemma_floor_div_neg(3 * (bu * bv), UNIT as int);
}

/// Each unit-vector component is bounded by a whisker more than one:
/// the division is by the fixed-point magnitude, which dominates
/// every single component.
pub proof fn lemma_normalize_bound(v: Vec3)
    requires
        within(v, 0x4000_0000_0000_0000),
        dot_s(v, v) >= 1,
        dot_s(v, v) <= i64::MAX,
    ensures
        within(unit_s(v), 2 * UNIT),
        fsqrt(dot_s(v, v)) >= 256,
        dot_s(v, v) >= UNIT ==> fsqrt(dot_s(v, v)) >= UNIT,
        dot_s(v, v) >= 16384 ==> fsqrt(dot_s(v, v)) >= 32768,
        dot_s(v, v) >= 16384 ==> within(unit_s(v), UNIT + 2),
        -2 * UNIT <= fdiv(v.x as int, fsqrt(dot_s(v, v))) <= 2 * UNIT,
        -2 * UNIT <= fdiv(v.y as int, fsqrt(dot_s(v, v))) <= 2 * UNIT,
        -2 * UNIT <= fdiv(v.z as int, fsqrt(dot_s(v, v))) <= 2 * UNIT,
{
    let u = UNIT as int;
    let w = dot_wide(v, v);
    let d = dot_s(v, v);
    let m = fsqrt(d);
    lemma_dot_self_nonneg(v);
    lemma_fundamental_div_mod(w, u);
    assert(d * u <= w < d * u + u) by (nonlinear_arith)
        requires
            w == u * d + (w % u),
            0 <= w % u < u,
    ;
    crate::fixed::lemma_sqrt_floor((d * u) as nat);
    assert(m == crate::fixed::sqrt_floor((d * u) as nat));
    assert(m * m <= d * u);
    assert((m + 1) * (m + 1) > d * u);
    // The magnitude is at least the root of one quantum.
    assert(m >= 256) by (nonlinear_arith)
        requires
            (m + 1) * (m + 1) > d * u,
            d >= 1,
            u == 65536,
            m >= 0,
    ;
    if d >= u {
        assert(m >= u) by (nonlinear_arith)
            requires
                (m + 1) * (m + 1) > d * u,
                d >= u,
                u == 65536,
                m >= 0,
        ;
    }
    if d >= 16384 {
        assert(m >= 32768) by (nonlinear_arith)
            requires
                (m + 1) * (m + 1) > d * u,
                d >= 16384,
                u == 65536,
                m >= 0,
        ;
        lemma_unit_component_tight(v.x as int, v.y as int, v.z as int, w, d, u, m);
        lemma_unit_component_tight(v.y as int, v.x as int, v.z as int, w, d, u, m);
        lemma_unit_component_tight(v.z as int, v.x as int, v.y as int, w, d, u, m);
        lemma_fdiv_component_tight(v.x as int, m, u);
        lemma_fdiv_component_tight(v.y as int, m, u);
        lemma_fdiv_component_tight(v.z as int, m, u);
    }
    // Each component is at most twice the magnitude.
    lemma_unit_component(v.x as int, v.y as int, v.z as int, w, d, u, m);
    lemma_unit_component(v.y as int, v.x as int, v.z as int, w, d, u, m);
    lemma_unit_component(v.z as int, v.x as int, v.y as int, w, d, u, m);
    lemma_fdiv_component_bound(v.x as int, m, u);
    lemma_fdiv_component_bound(v.y as int, m, u);
    lemma_fdiv_component_bound(v.z as int, m, u);
}

/// Normalizing a draw from inside the unit sphere with a squared
/// magnitude of at least a quarter gives a vector whose own squared
/// fixed-point magnitude lies within a few quanta of one: the result
/// is a unit vector up to the grid.
pub proof fn lemma_unit_magnitude(v: Vec3)
    requires
        within(v, UNIT as int),
        16384 <= dot_s(v, v) < UNIT,
    ensures
        UNIT - 7 <= dot_s(unit_s(v), unit_s(v)) <= UNIT + 14,
{
    let u = UNIT as int;
    let w = dot_wide(v, v);
    let d = dot_s(v, v);
    let m = fsqrt(d);
    lemma_dot_self_nonneg(v);
    lemma_fundamental_div_mod(w, u);
    assert(u * d <= w < u * d + u) by (nonlinear_arith)
        requires
            w == u * d + (w % u),
            0 <= w % u < u,
    ;
    crate::fixed::lemma_sqrt_floor((d * u) as nat);
    assert(m == crate::fixed::sqrt_floor((d * u) as nat));
    assert(m * m <= d * u);
    assert((m + 1) * (m + 1) > d * u);
    assert(m >= 32768) by (nonlinear_arith)
        requires
            (m + 1) * (m + 1) > d * u,
            d >= 16384,
            u == 65536,
            m >= 0,
    ;
    assert(m <= 65535) by (nonlinear_arith)
        requires
            m * m <= d * u,
            d < 65536,
            u == 65536,
            m >= 0,
    ;
    lemma_unit_component_tight(v.x as int, v.y as int, v.z as int, w, d, u, m);
    lemma_unit_component_tight(v.y as int, v.x as int, v.z as int, w, d, u, m);
    lemma_unit_component_tight(v.z as int, v.x as int, v.y as int, w, d, u, m);
    lemma_fdiv_component_tight(v.x as int, m, u);
    lemma_fdiv_component_tight(v.y as int, m, u);
    lemma_fdiv_component_tight(v.z as int, m, u);
    let rx = fdiv(v.x as int, m);
    let ry = fdiv(v.y as int, m);
    let rz = fdiv(v.z as int, m);
    // Decompose each scaled component into quotient and remainder.
    lemma_fundamental_div_mod((v.x as int) * u, m);
    lemma_fundamental_div_mod((v.y as int) * u, m);
    lemma_fundamental_div_mod((v.z as int) * u, m);
    let px = ((v.x as int) * u) % m;
    let py = ((v.y as int) * u) % m;
    let pz = ((v.z as int) * u) % m;
    assert((v.x as int) * u == m * rx + px);
    assert((v.y as int) * u == m * ry + py);
    assert((v.z as int) * u == m * rz + pz);
    // The wide magnitude scaled by the square of the scale splits
    // into the normalized square sum plus remainder terms.
    let s = rx * rx + ry * ry + rz * rz;
    let t = rx * px + ry * py + rz * pz;
    let p = px * px + py * py + pz * pz;
    lemma_scaled_square_split(v.x as int, u, m, rx, px);
    lemma_scaled_square_split(v.y as int, u, m, ry, py);
    lemma_scaled_square_split(v.z as int, u, m, rz, pz);
    assert(u * u * w == u * u * ((v.x as int) * (v.x as int)) + u * u * ((v.y as int) * (
    v.y as int)) + u * u * ((v.z as int) * (v.z as int))) by (nonlinear_arith)
        requires
            w == (v.x as int) * (v.x as int) + (v.y as int) * (v.y as int) + (v.z as int) * (
            v.z as int),
    ;
    assert(m * m * s == m * m * (rx * rx) + m * m * (ry * ry) + m * m * (rz * rz))
        by (nonlinear_arith)
        requires
            s == rx * rx + ry * ry + rz * rz,
    ;
    assert(m * t == m * (rx * px) + m * (ry * py) + m * (rz * pz)) by (nonlinear_arith)
        requires
            t == rx * px + ry * py + rz * pz,
    ;
    assert(u * u * w == m * m * s + 2 * (m * t) + p);
    // Bound the remainder terms.
    assert(-((u + 2) * m) <= rx * px <= (u + 2) * m) by (nonlinear_arith)
        requires
            -(u + 2) <= rx <= u + 2,
            0 <= px < m,
            0 < m,
    ;
    assert(-((u + 2) * m) <= ry * py <= (u + 2) * m) by (nonlinear_arith)
        requires
            -(u + 2) <= ry <= u + 2,
            0 <= py < m,
            0 < m,
    ;
    assert(-((u + 2) * m) <= rz * pz <= (u + 2) * m) by (nonlinear_arith)
        requires
            -(u + 2) <= rz <= u + 2,
            0 <= pz < m,
            0 < m,
    ;
    assert(0 <= px * px <= m * m) by (nonlinear_arith)
        requires
            0 <= px < m,
    ;
    assert(0 <= py * py <= m * m) by (nonlinear_arith)
        requires
            0 <= py < m,
    ;
    assert(0 <= pz * pz <= m * m) by (nonlinear_arith)
        requires
            0 <= pz < m,
    ;
    assert(-((3 * ((u + 2) * m)) * m) <= m * t <= (3 * ((u + 2) * m)) * m) by (nonlinear_arith)
        requires
            -(3 * ((u + 2) * m)) <= t <= 3 * ((u + 2) * m),
            0 < m,
    ;
    // Sandwich the normalized square sum.
    assert(m * m * s <= u * u * w + 2 * ((3 * ((u + 2) * m)) * m));
    assert(m * m * s >= u * u * w - 2 * ((3 * ((u + 2) * m)) * m) - 3 * (m * m));
    assert(u * u * w <= u * u * ((m + 1) * (m + 1) + u)) by (nonlinear_arith)
        requires
            w < d * u + u,
            d * u < (m + 1) * (m + 1),
    ;
    assert(u * u * w >= u * u * (m * m)) by (nonlinear_arith)
        requires
            w >= d * u,
            d * u >= m * m,
    ;
    assert(u * u * ((m + 1) * (m + 1) + u) + 2 * ((3 * ((u + 2) * m)) * m) <= m * m * (u * u + 14
        * u + 18)) by (nonlinear_arith)
        requires
            32768 <= m <= 65535,
            u == 65536,
    ;
    assert(u * u * (m * m) - 2 * ((3 * ((u + 2) * m)) * m) - 3 * (m * m) >= m * m * (u * u - 6
        * u - 15)) by (nonlinear_arith)
        requires
            32768 <= m <= 65535,
            u == 65536,
    ;
    assert(s <= u * u + 14 * u + 18) by (nonlinear_arith)
        requires
            m * m * s <= m * m * (u * u + 14 * u + 18),
            m >= 1,
    ;
    assert(s >= u * u - 6 * u - 15) by (nonlinear_arith)
        requires
            m * m * s >= m * m * (u * u - 6 * u - 15),
            m >= 1,
    ;
    // The normalized vector's own wide dot is that square sum.
    let r = unit_s(v);
    assert(r.x as int == rx && r.y as int == ry && r.z as int == rz);
    assert(dot_wide(r, r) == s);
    lemma_fundamental_div_mod_converse(u * (u - 7) + (u - 15), u, u - 7, u - 15);
    lemma_fundamental_div_mod_converse(u * (u + 14) + 18, u, u + 14, 18);
    assert(u * (u - 7) + (u - 15) == u * u - 6 * u - 15) by (nonlinear_arith);
    assert(u * (u + 14) + 18 == u * u + 14 * u + 18) by (nonlinear_arith);
    lemma_div_is_ordered(u * u - 6 * u - 15, s, u);
    lemma_div_is_ordered(s, u * u + 14 * u + 18, u);
}

/// The square of a scaled component, split along its division by the
/// magnitude: `(a*u)^2 == (m*r + p)^2`, expanded.
proof fn lemma_scaled_square_split(a: int, u: int, m: int, r: int, p: int)
    requires
        a * u == m * r + p,
    ensures
        u * u * (a * a) == m * m * (r * r) + 2 * (m * (r * p)) + p * p,
{
    assert((m * r + p) * (m * r + p) == m * m * (r * r) + 2 * (m * (r * p)) + p * p)
        by (nonlinear_arith);
    assert((a * u) * (a * u) == u * u * (a * a)) by (nonlinear_arith);
}

/// With a magnitude of at least half scale, each component is at
/// most `m + 1` in magnitude.
proof fn lemma_unit_component_tight(a: int, b: int, c: int, w: int, d: int, u: int, m: int)
    requires
        w == a * a + b * b + c * c,
        w < d * u + u,
        (m + 1) * (m + 1) > d * u,
        m >= 32768,
        u == 65536,
    ensures
        -(m + 1) <= a <= m + 1,
{
    assert(b * b >= 0) by (nonlinear_arith);
    assert(c * c >= 0) by (nonlinear_arith);
    assert(a * a < (m + 1) * (m + 1) + u);
    assert(-(m + 1) <= a <= m + 1) by (nonlinear_arith)
        requires
            a * a < (m + 1) * (m + 1) + u,
            m >= 32768,
            u == 65536,
    ;
}

/// Dividing a component bounded by `m + 1` by the magnitude
/// `m >= 32768` gives a value within a whisker of full scale.
proof fn lemma_fdiv_component_tight(a: int, m: int, u: int)
    requires
        -(m + 1) <= a <= m + 1,
        m >= 32768,
        u == 65536,
    ensures
        -(u + 2) <= fdiv(a, m) <= u + 2,
{
    assert(a * u <= (m + 1) * u) by (nonlinear_arith)
        requires
            a <= m + 1,
            u > 0,
    ;
    assert(a * u >= -((m + 1) * u)) by (nonlinear_arith)
        requires
            a >= -(m + 1),
            u > 0,
    ;
    assert((m + 1) * u <= (u + 2) * m + 0) by (nonlinear_arith)
        requires
            m >= 32768,
            u == 65536,
    ;
    lemma_fundamental_div_mod_converse((u + 2) * m, m, u + 2, 0);
    lemma_div_is_ordered(a * u, (u + 2) * m, m);
    lemma_div_is_ordered(-((u + 2) * m), a * u, m);
    assert(-((u + 2) * m) == (-(u + 2)) * m + 0) by (nonlinear_arith);
    lemma_fundamental_div_mod_converse(-((u + 2) * m), m, -(u + 2), 0);
}

/// A component `a` of a vector whose wide self-product is `w` is at
/// most `2 * m` in magnitude, where `m` is the fixed-point magnitude.
proof fn lemma_unit_component(a: int, b: int, c: int, w: int, d: int, u: int, m: int)
    requires
        w == a * a + b * b + c * c,
        w < d * u + u,
        (m + 1) * (m + 1) > d * u,
        m >= 256,
        u == 65536,
    ensures
        -2 * m <= a <= 2 * m,
{
    assert(b * b >= 0) by (nonlinear_arith);
    assert(c * c >= 0) by (nonlinear_arith);
    assert(a * a < (m + 1) * (m + 1) + u);
    assert(-2 * m <= a <= 2 * m) by (nonlinear_arith)
        requires
            a * a < (m + 1) * (m + 1) + u,
            m >= 256,
            u == 65536,
    ;
}

/// Dividing a component bounded by `2 * m` by the magnitude `m >= 256`
/// gives a value bounded by `2 * u`.
proof fn lemma_fdiv_component_bound(a: int, m: int, u: int)
    requires
        -2 * m <= a <= 2 * m,
        m >= 256,
        u == 65536,
    ensures
        -2 * u <= fdiv(a, m) <= 2 * u,
{
    assert(a * u <= (2 * m) * u) by (nonlinear_arith)
        requires
            a <= 2 * m,
            u > 0,
    ;
    assert(a * u >= -((2 * m) * u)) by (nonlinear_arith)
        requires
            a >= -(2 * m),
            u > 0,
    ;
    assert((2 * m) * u == (2 * u) * m + 0) by (nonlinear_arith);
    assert(-((2 * m) * u) == (-(2 * u)) * m + 0) by (nonlinear_arith);
    lemma_fundamental_div_mod_converse((2 * m) * u, m, 2 * u, 0);
    lemma_fundamental_div_mod_converse(-((2 * m) * u), m, -(2 * u), 0);
    lemma_div_is_ordered(a * u, (2 * m) * u, m);
    lemma_div_is_ordered(-((2 * m) * u), a * u, m);
}

} // verus!
