//! Rays: parametric lines `origin + t * direction`.

use vstd::prelude::*;
use crate::fixed::{fmul, UNIT, lemma_fmul_bound};
use crate::vec3::{Vec3, within, add_s, scale_s, dot_s};

verus! {

/// Largest magnitude a scene coordinate or a workable ray component
/// may have (256 in real units).
pub const COORD_LIMIT: i64 = 0x100_0000;

/// The stand-in for an unbounded upper ray parameter (about sixteen
/// million in real units).
pub const T_LIMIT: i64 = 0x100_0000_0000;

/// A ray, origin plus direction, both in fixed-point components.
#[derive(Clone, Copy, PartialEq, Eq, Structural, Debug)]
pub struct Ray {
    pub origin: Vec3,
    pub dir: Vec3,
}

/// A workable ray: components within the coordinate range and a
/// direction of at least unit squared magnitude, so intersection
/// arithmetic stays in range and the direction can be normalized.
pub open spec fn ray_ok(r: Ray) -> bool {
    &&& within(r.origin, COORD_LIMIT as int)
    &&& within(r.dir, COORD_LIMIT as int)
    &&& dot_s(r.dir, r.dir) >= UNIT
}

/// The point along `r` at parameter `t`.
pub open spec fn at_s(r: Ray, t: int) -> Vec3 {
    add_s(r.origin, scale_s(t, r.dir))
}

impl Ray {
    /// Build a ray from its origin and direction.
    pub fn new(origin: Vec3, dir: Vec3) -> (r: Ray)
        ensures
            r == (Ray { origin, dir }),
    {
        Ray { origin, dir }
    }

    /// The point along the ray at parameter `t`.
    pub fn at(self, t: i64) -> (p: Vec3)
        requires
            within(self.origin, COORD_LIMIT as int),
            within(self.dir, COORD_LIMIT as int),
            -T_LIMIT <= t <= T_LIMIT,
        ensures
            p == at_s(self, t as int),
            within(p, 0x2_0000_0000_0000),
    {
        proof {
            lemma_fmul_bound(t as int, self.dir.x as int, T_LIMIT as int, COORD_LIMIT as int);
            lemma_fmul_bound(t as int, self.dir.y as int, T_LIMIT as int, COORD_LIMIT as int);
            lemma_fmul_bound(t as int, self.dir.z as int, T_LIMIT as int, COORD_LIMIT as int);
        }
        self.origin.add(self.dir.scale(t))
    }

    /// Whether the ray is workable (see `ray_ok`).
    pub fn in_bounds(self) -> (b: bool)
        ensures
            b == ray_ok(self),
    {
        let c = COORD_LIMIT;
        if self.origin.x < -c || self.origin.x > c || self.origin.y < -c || self.origin.y > c
            || self.origin.z < -c || self.origin.z > c {
            return false;
        }
        if self.dir.x < -c || self.dir.x > c || self.dir.y < -c || self.dir.y > c || self.dir.z
            < -c || self.dir.z > c {
            return false;
        }
        proof {
            crate::vec3::lemma_dot_bound(self.dir, self.dir, COORD_LIMIT as int, COORD_LIMIT as int);
        }
        let d = self.dir.dot(self.dir);
        d >= UNIT
    }
}

} // verus!
