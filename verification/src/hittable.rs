//! Spheres and intersection records.
//!
//! `Sphere::hit` solves the fixed-point quadratic for a ray against a
//! sphere and returns the closest root inside the open parameter
//! range, with the oriented unit surface normal.

use vstd::prelude::*;
use crate::fixed::{
    fmul, fdiv, fsqrt, clamp_s, UNIT, mul_fixed, div_fixed, sqrt_fixed, clamp_fixed,
    lemma_fmul_bound, lemma_fdiv_bound, lemma_fdiv_ratio_bound,
};
use crate::vec3::{
    Vec3, within, sub_s, neg_s, dot_s, dot_wide, lemma_dot_bound, lemma_dot_self_nonneg,
};
use crate::ray::{Ray, ray_ok, at_s, COORD_LIMIT, T_LIMIT};
use crate::material::{Material, material_ok};

verus! {

/// Largest magnitude a hit point's component can have: a coordinate
/// plus the largest parameter times the largest direction component.
pub const POINT_LIMIT: i64 = 0x2_0000_0000_0000;

/// The record of a successful intersection: the point, the oriented
/// unit normal, the ray parameter, which face was struck, and the
/// surface's material.
#[derive(Clone, Copy, PartialEq, Eq, Structural, Debug)]
pub struct HitRecord {
    pub point: Vec3,
    pub normal: Vec3,
    pub t: i64,
    pub front_face: bool,
    pub material: Material,
}

/// A record the scattering code can work on: point and normal within
/// range, a well-formed material.
pub open spec fn hit_ok(h: HitRecord) -> bool {
    &&& within(h.point, POINT_LIMIT as int)
    &&& within(h.normal, 2 * UNIT)
    &&& material_ok(h.material)
}

/// A sphere of scene geometry.
#[derive(Clone, Copy, PartialEq, Eq, Structural, Debug)]
pub struct Sphere {
    pub center: Vec3,
    pub radius: i64,
    pub material: Material,
}

/// A well-formed sphere: center in the scene range, a positive
/// in-range radius, a well-formed material.
pub open spec fn sphere_ok(s: Sphere) -> bool {
    &&& within(s.center, COORD_LIMIT as int)
    &&& 0 < s.radius <= COORD_LIMIT
    &&& material_ok(s.material)
}

/// The outward unit normal at point `p`: the offset from the center,
/// divided by the radius. Each offset component is clamped into
/// twice the radius first, which keeps the normal in range and never
/// moves a point that truly lies on the sphere.
pub open spec fn outward_s(s: Sphere, p: Vec3) -> Vec3 {
    Vec3 {
        x: fdiv(clamp_s(p.x - s.center.x, -2 * s.radius, 2 * s.radius), s.radius as int) as i64,
        y: fdiv(clamp_s(p.y - s.center.y, -2 * s.radius, 2 * s.radius), s.radius as int) as i64,
        z: fdiv(clamp_s(p.z - s.center.z, -2 * s.radius, 2 * s.radius), s.radius as int) as i64,
    }
}

/// The record for a hit of `r` on `s` at parameter `t`: the point,
/// the outward normal flipped to oppose the incoming ray, and
/// whether the outward face was struck.
pub open spec fn record_s(s: Sphere, r: Ray, t: int) -> HitRecord {
    let p = at_s(r, t);
    let outward = outward_s(s, p);
    let ff = dot_s(r.dir, outward) < 0;
    HitRecord {
        point: p,
        normal: if ff {
            outward
        } else {
            neg_s(outward)
        },
        t: t as i64,
        front_face: ff,
        material: s.material,
    }
}

/// The quadratic coefficient `a`: the direction's squared magnitude.
pub open spec fn quad_a_s(s: Sphere, r: Ray) -> int {
    dot_s(r.dir, r.dir)
}

/// The quadratic coefficient `half_b`: the center offset against the
/// direction.
pub open spec fn quad_half_b_s(s: Sphere, r: Ray) -> int {
    dot_s(sub_s(r.origin, s.center), r.dir)
}

/// The quadratic coefficient `c`: the center offset's squared
/// magnitude less the squared radius.
pub open spec fn quad_c_s(s: Sphere, r: Ray) -> int {
    let oc = sub_s(r.origin, s.center);
    dot_s(oc, oc) - fmul(s.radius as int, s.radius as int)
}

/// The discriminant of the fixed-point hit quadratic.
pub open spec fn disc_s(s: Sphere, r: Ray) -> int {
    fmul(quad_half_b_s(s, r), quad_half_b_s(s, r)) - fmul(quad_a_s(s, r), quad_c_s(s, r))
}

/// The two roots of the hit quadratic, smaller first.
pub open spec fn roots_s(s: Sphere, r: Ray) -> (int, int) {
    let a = quad_a_s(s, r);
    let half_b = quad_half_b_s(s, r);
    let sq = fsqrt(disc_s(s, r));
    (fdiv(-half_b - sq, a), fdiv(-half_b + sq, a))
}

/// What `Sphere::hit` returns: no hit when the discriminant is
/// negative or neither root lies in the open range `(t_min, t_max)`;
/// otherwise the record at the smaller qualifying root.
pub open spec fn sphere_hit_spec(s: Sphere, r: Ray, t_min: int, t_max: int) -> Option<HitRecord> {
    if disc_s(s, r) < 0 {
        None
    } else {
        let (t1, t2) = roots_s(s, r);
        if t_min < t1 < t_max {
            Some(record_s(s, r, t1))
        } else if t_min < t2 < t_max {
            Some(record_s(s, r, t2))
        } else {
            None
        }
    }
}

/// A ray that misses the sphere outright reports no hit: when the
/// squared half-b falls short of the `a * c` product by at least one
/// quantum — on the grid, a perpendicular offset beyond the radius —
/// the discriminant is negative and the query returns nothing, for
/// every parameter range.
pub proof fn lemma_miss_no_hit(s: Sphere, r: Ray, t_min: int, t_max: int)
    requires
        quad_half_b_s(s, r) * quad_half_b_s(s, r) + UNIT <= quad_a_s(s, r) * quad_c_s(s, r),
    ensures
        sphere_hit_spec(s, r, t_min, t_max) is None,
{
    let u = UNIT as int;
    let hb = quad_half_b_s(s, r);
    let ac = quad_a_s(s, r) * quad_c_s(s, r);
    vstd::arithmetic::div_mod::lemma_div_is_ordered(hb * hb, ac - u, u);
    crate::fixed::lemma_fdiv_unit_shift(ac - u, 1);
    assert((ac - u) + 1 * u == ac);
    assert(disc_s(s, r) < 0);
}

/// A ray fired from strictly outside a sphere straight at its center
/// hits it, at a strictly positive parameter.
pub proof fn lemma_aimed_ray_hits(s: Sphere, r: Ray, t_min: int)
    requires
        r.dir == sub_s(s.center, r.origin),
        within(r.origin, COORD_LIMIT as int),
        within(s.center, COORD_LIMIT as int),
        dot_s(r.dir, r.dir) > UNIT,
        fmul(s.radius as int, s.radius as int) < dot_s(r.dir, r.dir),
        0 <= s.radius,
        0 <= t_min < UNIT,
    ensures
        sphere_hit_spec(s, r, t_min, T_LIMIT as int) is Some,
        sphere_hit_spec(s, r, t_min, T_LIMIT as int).unwrap().t > 0,
        // The record's normal is the unit vector from the center to
        // the hit point, oriented against the incoming ray.
        ({
            let h = sphere_hit_spec(s, r, t_min, T_LIMIT as int).unwrap();
            h.normal == if h.front_face {
                outward_s(s, h.point)
            } else {
                neg_s(outward_s(s, h.point))
            }
        }),
{
    let u = UNIT as int;
    let oc = sub_s(r.origin, s.center);
    let w = dot_wide(r.dir, r.dir);
    let q = dot_s(r.dir, r.dir);
    let rr = fmul(s.radius as int, s.radius as int);
    // The center offset is the negated direction, exactly.
    assert(oc.x == -r.dir.x && oc.y == -r.dir.y && oc.z == -r.dir.z);
    assert(dot_wide(oc, r.dir) == -w) by (nonlinear_arith)
        requires
            dot_wide(oc, r.dir) == (oc.x as int) * (r.dir.x as int) + (oc.y as int) * (
            r.dir.y as int) + (oc.z as int) * (r.dir.z as int),
            w == (r.dir.x as int) * (r.dir.x as int) + (r.dir.y as int) * (r.dir.y as int) + (
            r.dir.z as int) * (r.dir.z as int),
            oc.x == -r.dir.x,
            oc.y == -r.dir.y,
            oc.z == -r.dir.z,
    ;
    assert(dot_wide(oc, oc) == w) by (nonlinear_arith)
        requires
            dot_wide(oc, oc) == (oc.x as int) * (oc.x as int) + (oc.y as int) * (oc.y as int) + (
            oc.z as int) * (oc.z as int),
            w == (r.dir.x as int) * (r.dir.x as int) + (r.dir.y as int) * (r.dir.y as int) + (
            r.dir.z as int) * (r.dir.z as int),
            oc.x == -r.dir.x,
            oc.y == -r.dir.y,
            oc.z == -r.dir.z,
    ;
    // half_b is -(q + e), where e records whether the division of the
    // squared magnitude by the scale was exact.
    vstd::arithmetic::div_mod::lemma_fundamental_div_mod(w, u);
    let rem = w % u;
    let hb = quad_half_b_s(s, r);
    let e: int = if rem == 0 { 0 } else { 1 };
    if rem == 0 {
        assert(-w == (-q) * u + 0) by (nonlinear_arith)
            requires
                w == u * q + rem,
                rem == 0,
        ;
        vstd::arithmetic::div_mod::lemma_fundamental_div_mod_converse(-w, u, -q, 0);
    } else {
        assert(-w == (-q - 1) * u + (u - rem)) by (nonlinear_arith)
            requires
                w == u * q + rem,
        ;
        vstd::arithmetic::div_mod::lemma_fundamental_div_mod_converse(-w, u, -q - 1, u - rem);
    }
    assert(hb == -(q + e));
    let c = quad_c_s(s, r);
    assert(c == q - rr);
    // The squared radius is nonnegative, and at most q - 1.
    assert((s.radius as int) * (s.radius as int) >= 0) by (nonlinear_arith);
    vstd::arithmetic::div_mod::lemma_div_pos_is_pos((s.radius as int) * (s.radius as int), u);
    assert(0 <= rr <= q - 1);
    // The discriminant is nonnegative and its widened value stays
    // under the next perfect square.
    let bb = hb * hb;
    let ac = q * c;
    assert(bb == (q + e) * (q + e)) by (nonlinear_arith)
        requires
            hb == -(q + e),
            bb == hb * hb,
    ;
    assert(ac <= bb) by (nonlinear_arith)
        requires
            bb == (q + e) * (q + e),
            ac == q * c,
            c == q - rr,
            0 <= rr,
            0 <= e,
            0 < q,
    ;
    vstd::arithmetic::div_mod::lemma_div_is_ordered(ac, bb, u);
    let disc = disc_s(s, r);
    assert(disc >= 0);
    vstd::arithmetic::div_mod::lemma_fundamental_div_mod(bb, u);
    vstd::arithmetic::div_mod::lemma_fundamental_div_mod(ac, u);
    assert(disc * u == (bb / u) * u - (ac / u) * u);
    assert(disc * u <= bb - ac + u - 1);
    assert(bb - ac <= q * q + q + 1) by (nonlinear_arith)
        requires
            bb == (q + e) * (q + e),
            ac == q * c,
            c == q - rr,
            0 <= rr <= q - 1,
            0 <= e <= 1,
            u < q,
    ;
    assert(disc * u < (q + 1) * (q + 1)) by (nonlinear_arith)
        requires
            disc * u <= q * q + q + u,
            u < q,
    ;
    // So the root of the discriminant is at most q.
    crate::fixed::lemma_sqrt_floor((disc * u) as nat);
    let sq = fsqrt(disc);
    assert(sq == crate::fixed::sqrt_floor((disc * u) as nat));
    assert(sq <= q) by (nonlinear_arith)
        requires
            sq * sq <= disc * u,
            disc * u < (q + 1) * (q + 1),
            sq >= 0,
            q > 0,
    ;
    // Both roots lie in [0, three units]; the larger is at least one
    // unit, so a strictly positive root is always selected.
    let num1 = -hb - sq;
    let num2 = -hb + sq;
    assert(num1 == q + e - sq && num2 == q + e + sq);
    assert(0 <= num1 && q <= num2 <= 2 * q + 1);
    let t1 = fdiv(num1, q);
    let t2 = fdiv(num2, q);
    vstd::arithmetic::div_mod::lemma_div_pos_is_pos(num1 * u, q);
    assert(q * u == u * q + 0) by (nonlinear_arith);
    vstd::arithmetic::div_mod::lemma_fundamental_div_mod_converse(q * u, q, u, 0);
    assert(num2 * u >= q * u) by (nonlinear_arith)
        requires
            num2 >= q,
            u > 0,
    ;
    vstd::arithmetic::div_mod::lemma_div_is_ordered(q * u, num2 * u, q);
    assert(t2 >= u);
    assert(num2 * u <= q * (3 * u)) by (nonlinear_arith)
        requires
            num2 <= 2 * q + 1,
            u < q,
            u == 65536,
    ;
    assert(q * (3 * u) == (3 * u) * q + 0) by (nonlinear_arith);
    vstd::arithmetic::div_mod::lemma_fundamental_div_mod_converse(q * (3 * u), q, 3 * u, 0);
    vstd::arithmetic::div_mod::lemma_div_is_ordered(num2 * u, q * (3 * u), q);
    assert(t2 <= 3 * u);
    assert(num1 * u <= num2 * u) by (nonlinear_arith)
        requires
            num1 <= num2,
            u > 0,
    ;
    vstd::arithmetic::div_mod::lemma_div_is_ordered(num1 * u, num2 * u, q);
    assert(0 <= t1 <= t2 <= 3 * u);
    assert(3 * u < T_LIMIT);
}

impl Sphere {
    /// Build a sphere.
    pub fn new(center: Vec3, radius: i64, material: Material) -> (s: Sphere)
        ensures
            s == (Sphere { center, radius, material }),
    {
        Sphere { center, radius, material }
    }

    /// The closest intersection of `ray` with this sphere at a
    /// parameter inside the open range `(t_min, t_max)`, if any.
    pub fn hit(&self, ray: &Ray, t_min: i64, t_max: i64) -> (res: Option<HitRecord>)
        requires
            sphere_ok(*self),
            ray_ok(*ray),
            0 <= t_min,
            t_max <= T_LIMIT,
        ensures
            res == sphere_hit_spec(*self, *ray, t_min as int, t_max as int),
            match res {
                Some(h) => {
                    &&& t_min < h.t < t_max
                    &&& hit_ok(h)
                    &&& h.material == self.material
                    &&& h.point == at_s(*ray, h.t as int)
                },
                None => true,
            },
    {
        let oc = ray.origin.sub(self.center);
        proof {
            lemma_dot_bound(ray.dir, ray.dir, COORD_LIMIT as int, COORD_LIMIT as int);
            lemma_dot_bound(oc, ray.dir, 2 * COORD_LIMIT as int, COORD_LIMIT as int);
            lemma_dot_bound(oc, oc, 2 * COORD_LIMIT as int, 2 * COORD_LIMIT as int);
            lemma_dot_self_nonneg(ray.dir);
            lemma_dot_self_nonneg(oc);
            lemma_fmul_bound(self.radius as int, self.radius as int, COORD_LIMIT as int,
                COORD_LIMIT as int);
        }
        let a = ray.dir.dot(ray.dir);
        let half_b = oc.dot(ray.dir);
        let c = oc.dot(oc) - mul_fixed(self.radius, self.radius);
        proof {
            lemma_fmul_bound(half_b as int, half_b as int, 0x8_0000_0000, 0x8_0000_0000);
            lemma_fmul_bound(a as int, c as int, 0x4_0000_0000, 0x40_0000_0000);
        }
        let disc = mul_fixed(half_b, half_b) - mul_fixed(a, c);
        if disc < 0 {
            return None;
        }
        let sq = sqrt_fixed(disc);
        proof {
            lemma_fdiv_bound(-(half_b as int) - (sq as int), a as int, 0x200_0000_0000);
            lemma_fdiv_bound(-(half_b as int) + (sq as int), a as int, 0x200_0000_0000);
        }
        let t1 = div_fixed(-half_b - sq, a);
        if t_min < t1 && t1 < t_max {
            return Some(self.make_record(ray, t1));
        }
        let t2 = div_fixed(-half_b + sq, a);
        if t_min < t2 && t2 < t_max {
            return Some(self.make_record(ray, t2));
        }
        None
    }

    /// Assemble the record for a hit at parameter `t`.
    fn make_record(&self, ray: &Ray, t: i64) -> (h: HitRecord)
        requires
            sphere_ok(*self),
            ray_ok(*ray),
            0 <= t <= T_LIMIT,
        ensures
            h == record_s(*self, *ray, t as int),
            hit_ok(h),
            h.material == self.material,
            h.t == t,
            h.point == at_s(*ray, t as int),
    {
        let p = ray.at(t);
        let ox = self.normal_component(p.x, self.center.x);
        let oy = self.normal_component(p.y, self.center.y);
        let oz = self.normal_component(p.z, self.center.z);
        let outward = Vec3::new(ox, oy, oz);
        proof {
            assert(outward == outward_s(*self, p));
            lemma_dot_bound(ray.dir, outward, COORD_LIMIT as int, 2 * UNIT);
        }
        let d = ray.dir.dot(outward);
        let front_face = d < 0;
        let normal = if front_face {
            outward
        } else {
            outward.neg()
        };
        HitRecord { point: p, normal, t, front_face, material: self.material }
    }

    /// One component of the outward unit normal at a hit point.
    fn normal_component(&self, p: i64, c: i64) -> (r: i64)
        requires
            sphere_ok(*self),
            -0x4_0000_0000_0000 <= p <= 0x4_0000_0000_0000,
            -COORD_LIMIT <= c <= COORD_LIMIT,
        ensures
            r == fdiv(clamp_s(p - c, -2 * self.radius, 2 * self.radius), self.radius as int),
            -2 * UNIT <= r <= 2 * UNIT,
    {
        let off = p - c;
        let lim = 2 * self.radius;
        let cl = clamp_fixed(off, -lim, lim);
        proof {
            lemma_fdiv_ratio_bound(cl as int, self.radius as int, 2);
        }
        div_fixed(cl, self.radius)
    }
}

} // verus!
