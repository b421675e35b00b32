//! The camera: maps normalized image-plane coordinates to world rays
//! from a fixed eye through a fixed viewport plane.

use vstd::prelude::*;
use crate::fixed::{fmul, UNIT, lemma_fmul_bound};
use crate::vec3::{Vec3, within, add_s, sub_s, scale_s, dot_wide, dot_s};
use crate::ray::{Ray, ray_ok};
use vstd::arithmetic::div_mod::{lemma_div_is_ordered, lemma_fundamental_div_mod_converse};

verus! {

/// Largest magnitude a camera vector component may have (32 in real
/// units), so that every generated ray stays workable.
pub const CAM_LIMIT: i64 = 0x20_0000;

/// A camera: eye position and viewport geometry, fixed for a render.
#[derive(Clone, Copy, PartialEq, Eq, Structural, Debug)]
pub struct Camera {
    pub origin: Vec3,
    pub lower_left_corner: Vec3,
    pub horizontal: Vec3,
    pub vertical: Vec3,
}

/// A well-formed camera: vectors in range, the viewport plane spanned
/// across the two image axes only, and set at least one unit from the
/// eye along the depth axis, so that every ray's direction has full
/// magnitude.
pub open spec fn camera_ok(c: Camera) -> bool {
    &&& within(c.origin, CAM_LIMIT as int)
    &&& within(c.lower_left_corner, CAM_LIMIT as int)
    &&& within(c.horizontal, CAM_LIMIT as int)
    &&& within(c.vertical, CAM_LIMIT as int)
    &&& c.horizontal.z == 0
    &&& c.vertical.z == 0
    &&& c.lower_left_corner.z - c.origin.z <= -UNIT
}

/// The ray through image-plane coordinates `(u, v)`.
pub open spec fn get_ray_s(c: Camera, u: int, v: int) -> Ray {
    Ray {
        origin: c.origin,
        dir: sub_s(
            add_s(add_s(c.lower_left_corner, scale_s(u, c.horizontal)), scale_s(v, c.vertical)),
            c.origin,
        ),
    }
}

impl Camera {
    /// Build a camera from its eye position and viewport geometry.
    pub fn new(origin: Vec3, lower_left_corner: Vec3, horizontal: Vec3, vertical: Vec3) -> (c:
        Camera)
        ensures
            c == (Camera { origin, lower_left_corner, horizontal, vertical }),
    {
        Camera { origin, lower_left_corner, horizontal, vertical }
    }

    /// The ray from the eye through the viewport point at the
    /// normalized coordinates `(u, v)`; always workable.
    pub fn get_ray(&self, u: i64, v: i64) -> (r: Ray)
        requires
            camera_ok(*self),
            0 <= u <= 2 * UNIT,
            0 <= v <= 2 * UNIT,
        ensures
            r == get_ray_s(*self, u as int, v as int),
            ray_ok(r),
    {
        proof {
            assert(131072 * 2097152 == 274877906944int) by (nonlinear_arith);
            lemma_fmul_bound(u as int, self.horizontal.x as int, 2 * UNIT as int,
                CAM_LIMIT as int);
            lemma_fmul_bound(u as int, self.horizontal.y as int, 2 * UNIT as int,
                CAM_LIMIT as int);
            lemma_fmul_bound(u as int, self.horizontal.z as int, 2 * UNIT as int,
                CAM_LIMIT as int);
            lemma_fmul_bound(v as int, self.vertical.x as int, 2 * UNIT as int, CAM_LIMIT as int);
            lemma_fmul_bound(v as int, self.vertical.y as int, 2 * UNIT as int, CAM_LIMIT as int);
            lemma_fmul_bound(v as int, self.vertical.z as int, 2 * UNIT as int, CAM_LIMIT as int);
            assert(u as int * 0 == 0) by (nonlinear_arith);
            assert(v as int * 0 == 0) by (nonlinear_arith);
        }
        let dir = self.lower_left_corner.add(self.horizontal.scale(u)).add(
            self.vertical.scale(v),
        ).sub(self.origin);
        proof {
            lemma_camera_dir_full(dir);
        }
        Ray::new(self.origin, dir)
    }
}

/// A direction whose depth component is at least one unit has full
/// squared magnitude.
proof fn lemma_camera_dir_full(dir: Vec3)
    requires
        dir.z <= -UNIT || dir.z >= UNIT,
    ensures
        dot_s(dir, dir) >= UNIT,
{
    let u = UNIT as int;
    assert(dir.x * dir.x >= 0) by (nonlinear_arith);
    assert(dir.y * dir.y >= 0) by (nonlinear_arith);
    assert(dir.z * dir.z >= u * u) by (nonlinear_arith)
        requires
            dir.z <= -u || dir.z >= u,
            u == 65536,
    ;
    assert(dot_wide(dir, dir) >= u * u);
    assert(u * u == u * u + 0) by (nonlinear_arith);
    lemma_fundamental_div_mod_converse(u * u, u, u, 0);
    lemma_div_is_ordered(u * u, dot_wide(dir, dir), u);
}

} // verus!
