//! The scene aggregate: an ordered collection of spheres that is
//! itself intersectable, returning the closest valid hit among its
//! members.

use vstd::prelude::*;
use crate::fixed::UNIT;
use crate::vec3::dot_s;
use crate::ray::{Ray, ray_ok, T_LIMIT};
use crate::hittable::{HitRecord, Sphere, sphere_ok, sphere_hit_spec, hit_ok};

verus! {

/// The closest hit among the first `n` members, found as the
/// iteration finds it: each member is queried with the upper bound
/// shrunk to the closest parameter so far.
pub open spec fn closest_hit_prefix(
    objs: Seq<Sphere>,
    r: Ray,
    t_min: int,
    t_max: int,
    n: int,
) -> Option<HitRecord>
    decreases n,
{
    if n <= 0 {
        None
    } else {
        let prev = closest_hit_prefix(objs, r, t_min, t_max, n - 1);
        let cur_max = match prev {
            Some(h) => h.t as int,
            None => t_max,
        };
        match sphere_hit_spec(objs[n - 1], r, t_min, cur_max) {
            Some(h2) => Some(h2),
            None => prev,
        }
    }
}

/// The closest hit among all members.
pub open spec fn list_hit_s(objs: Seq<Sphere>, r: Ray, t_min: int, t_max: int) -> Option<
    HitRecord,
> {
    closest_hit_prefix(objs, r, t_min, t_max, objs.len() as int)
}

/// Shrinking the upper bound of the query range keeps a hit exactly
/// when its parameter still lies below the new bound: the root
/// selection is monotone in the bound.
pub proof fn lemma_hit_monotone(s: Sphere, r: Ray, t_min: int, m: int, t_max: int)
    requires
        m <= t_max,
        t_max <= T_LIMIT,
        0 <= t_min,
        dot_s(r.dir, r.dir) > 0,
    ensures
        sphere_hit_spec(s, r, t_min, m) == (match sphere_hit_spec(s, r, t_min, t_max) {
            Some(h) => if h.t < m {
                Some(h)
            } else {
                None::<HitRecord>
            },
            None => None::<HitRecord>,
        }),
{
    let d = crate::hittable::disc_s(s, r);
    if d >= 0 {
        let (t1, t2) = crate::hittable::roots_s(s, r);
        let a = dot_s(r.dir, r.dir);
        let oc = crate::vec3::sub_s(r.origin, s.center);
        let half_b = dot_s(oc, r.dir);
        let sq = crate::fixed::fsqrt(d);
        crate::fixed::lemma_fdiv_ordered(
            (-half_b - sq) * (UNIT as int),
            (-half_b + sq) * (UNIT as int),
            a,
        );
        assert(t1 <= t2);
    }
}

/// The scene aggregate.
pub struct HittableList {
    pub objects: Vec<Sphere>,
}

/// Every member is a well-formed sphere.
pub open spec fn list_ok(l: HittableList) -> bool {
    forall|i: int| 0 <= i < l.objects.len() ==> sphere_ok(#[trigger] l.objects[i])
}

impl HittableList {
    /// An empty scene.
    pub fn new() -> (l: HittableList)
        ensures
            l.objects@.len() == 0,
            list_ok(l),
    {
        HittableList { objects: Vec::new() }
    }

    /// Add a sphere to the scene.
    pub fn push(&mut self, s: Sphere)
        requires
            sphere_ok(s),
            list_ok(*old(self)),
        ensures
            final(self).objects@ == old(self).objects@.push(s),
            list_ok(*final(self)),
    {
        self.objects.push(s);
        proof {
            assert forall|i: int| 0 <= i < self.objects.len() implies sphere_ok(
                #[trigger] self.objects[i],
            ) by {
                if i < self.objects.len() - 1 {
                    assert(self.objects[i] == old(self).objects[i]);
                }
            }
        }
    }

    /// The closest intersection among all members at a parameter in
    /// the open range `(t_min, t_max)`: the minimum-parameter hit of
    /// any member over the whole range, or nothing when no member is
    /// struck.
    pub fn hit(&self, ray: &Ray, t_min: i64, t_max: i64) -> (res: Option<HitRecord>)
        requires
            list_ok(*self),
            ray_ok(*ray),
            0 <= t_min,
            t_max <= T_LIMIT,
        ensures
            res == list_hit_s(self.objects@, *ray, t_min as int, t_max as int),
            match res {
                Some(h) => {
                    &&& t_min < h.t < t_max
                    &&& hit_ok(h)
                    &&& exists|i: int|
                        0 <= i < self.objects@.len() && #[trigger] sphere_hit_spec(
                            self.objects@[i],
                            *ray,
                            t_min as int,
                            t_max as int,
                        ) == Some(h)
                    &&& forall|j: int|
                        0 <= j < self.objects@.len() ==> match #[trigger] sphere_hit_spec(
                            self.objects@[j],
                            *ray,
                            t_min as int,
                            t_max as int,
                        ) {
                            Some(hj) => h.t <= hj.t,
                            None => true,
                        }
                },
                None => forall|j: int|
                    0 <= j < self.objects@.len() ==> #[trigger] sphere_hit_spec(
                        self.objects@[j],
                        *ray,
                        t_min as int,
                        t_max as int,
                    ) == None::<HitRecord>,
            },
    {
        let ghost objs = self.objects@;
        let mut best: Option<HitRecord> = None;
        let n = self.objects.len();
        let mut i: usize = 0;
        while i < n
            invariant
                n == objs.len(),
                0 <= i <= n,
                objs == self.objects@,
                list_ok(*self),
                ray_ok(*ray),
                0 <= t_min,
                t_max <= T_LIMIT,
                best == closest_hit_prefix(objs, *ray, t_min as int, t_max as int, i as int),
                match best {
                    Some(h) => t_min < h.t < t_max && hit_ok(h),
                    None => true,
                },
            decreases n - i,
        {
            let cur_max = match best {
                Some(h) => h.t,
                None => t_max,
            };
            let r2 = self.objects[i].hit(ray, t_min, cur_max);
            proof {
                assert(sphere_hit_spec(objs[i as int], *ray, t_min as int, cur_max as int)
                    == r2);
            }
            match r2 {
                Some(h2) => {
                    proof {
                        if best is Some {
                            assert(h2.t < best.unwrap().t);
                        }
                    }
                    best = Some(h2);
                },
                None => {},
            }
            i = i + 1;
        }
        proof {
            lemma_prefix_min(objs, *ray, t_min as int, t_max as int, n as int);
        }
        best
    }
}

/// The fold over a prefix yields the minimum-parameter hit over the
/// whole un-shrunk range: what the closest member would report alone.
pub proof fn lemma_prefix_min(objs: Seq<Sphere>, r: Ray, t_min: int, t_max: int, n: int)
    requires
        0 <= n <= objs.len(),
        0 <= t_min,
        t_max <= T_LIMIT,
        dot_s(r.dir, r.dir) > 0,
    ensures
        match closest_hit_prefix(objs, r, t_min, t_max, n) {
            Some(h) => {
                &&& (exists|i: int|
                    0 <= i < n && #[trigger] sphere_hit_spec(objs[i], r, t_min, t_max) == Some(
                        h,
                    ))
                &&& (forall|j: int|
                    0 <= j < n ==> match #[trigger] sphere_hit_spec(objs[j], r, t_min, t_max) {
                        Some(hj) => h.t <= hj.t,
                        None => true,
                    })
                &&& t_min < h.t < t_max
            },
            None => forall|j: int|
                0 <= j < n ==> #[trigger] sphere_hit_spec(objs[j], r, t_min, t_max)
                    == None::<HitRecord>,
        },
    decreases n,
{
    if n > 0 {
        lemma_prefix_min(objs, r, t_min, t_max, n - 1);
        let prev = closest_hit_prefix(objs, r, t_min, t_max, n - 1);
        match prev {
            Some(hp) => {
                lemma_hit_monotone(objs[n - 1], r, t_min, hp.t as int, t_max);
            },
            None => {
                lemma_hit_monotone(objs[n - 1], r, t_min, t_max, t_max);
            },
        }
    }
}

} // verus!
