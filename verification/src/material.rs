//! Materials and their scattering rules: Lambertian (diffuse), Metal
//! (specular with fuzz) and Dielectric (refractive), together with
//! the shared helpers (reflection, refraction, random directions).

use vstd::prelude::*;
use crate::fixed::{
    fmul, fdiv, fsqrt, clamp_s, UNIT, mul_fixed, div_fixed, sqrt_fixed, clamp_fixed,
    lemma_fmul_bound, lemma_fdiv_bound,
};
use crate::vec3::{
    Vec3, within, add_s, sub_s, neg_s, dot_s, dot_wide, scale_s, unit_s, lemma_dot_bound,
    lemma_dot_self_nonneg,
};
use crate::ray::{Ray, ray_ok};
use crate::hittable::{HitRecord, hit_ok};
use crate::rng::rand_unit;

verus! {

/// The fixed-point value of pi.
pub const PI_FIXED: i64 = 205887;

/// A color with every channel inside `[0, 1]`.
pub open spec fn color_ok(c: Vec3) -> bool {
    &&& 0 <= c.x <= UNIT
    &&& 0 <= c.y <= UNIT
    &&& 0 <= c.z <= UNIT
}

/// A diffuse surface.
#[derive(Clone, Copy, PartialEq, Eq, Structural, Debug)]
pub struct Lambertian {
    pub albedo: Vec3,
}

/// A specular surface with a fuzz radius.
#[derive(Clone, Copy, PartialEq, Eq, Structural, Debug)]
pub struct Metal {
    pub albedo: Vec3,
    pub fuzz: i64,
}

/// A refractive surface with a refractive index.
#[derive(Clone, Copy, PartialEq, Eq, Structural, Debug)]
pub struct Dielectric {
    pub ir: i64,
}

/// The closed set of materials a surface can carry.
#[derive(Clone, Copy, PartialEq, Eq, Structural, Debug)]
pub enum Material {
    Lambertian(Lambertian),
    Metal(Metal),
    Dielectric(Dielectric),
}

/// A well-formed material: albedo channels inside `[0, 1]`, fuzz
/// inside `[0, 1]`, refractive index positive and within range.
pub open spec fn material_ok(m: Material) -> bool {
    match m {
        Material::Lambertian(l) => color_ok(l.albedo),
        Material::Metal(mt) => color_ok(mt.albedo) && 0 <= mt.fuzz <= UNIT,
        Material::Dielectric(d) => 1 <= d.ir <= 0x1_0000_0000,
    }
}

/// Mirror reflection of `v` about the normal `n`:
/// `v - 2 * dot(v, n) * n`.
pub open spec fn reflect_s(v: Vec3, n: Vec3) -> Vec3 {
    sub_s(v, scale_s(2 * dot_s(v, n), n))
}

/// All components below one quantum, the analogue of a vanishing
/// direction.
pub open spec fn near_zero_s(v: Vec3) -> bool {
    v.x < 1 && v.y < 1 && v.z < 1
}

/// Snell refraction of the unit direction `uv` about `n`, decomposed
/// into perpendicular and parallel parts. The incidence cosine is
/// clamped below by one; this renderer keeps that quirk of its rule
/// deliberately rather than silently correcting it.
pub open spec fn refract_s(uv: Vec3, n: Vec3, eta: int) -> Vec3 {
    let cos2 = clamp_s(dot_s(neg_s(uv), n), UNIT as int, i64::MAX as int);
    let r_perp = scale_s(eta, add_s(uv, scale_s(cos2, n)));
    let msq = dot_s(r_perp, r_perp);
    let diff = UNIT - msq;
    let par_len = fsqrt(if diff < 0 { -diff } else { diff });
    add_s(r_perp, neg_s(scale_s(par_len, n)))
}

/// Mirror reflection of `v` about the normal `n`.
pub fn reflect(v: Vec3, n: Vec3) -> (r: Vec3)
    requires
        within(v, 2 * UNIT),
        within(n, 2 * UNIT),
    ensures
        r == reflect_s(v, n),
        within(r, 0x80_0000),
{
    proof {
        lemma_dot_bound(v, n, 2 * UNIT as int, 2 * UNIT as int);
        let d = dot_s(v, n);
        assert(131072 * 131072 == 17179869184int) by (nonlinear_arith);
        lemma_fmul_bound(2 * d, n.x as int, 0x20_0000, 2 * UNIT as int);
        lemma_fmul_bound(2 * d, n.y as int, 0x20_0000, 2 * UNIT as int);
        lemma_fmul_bound(2 * d, n.z as int, 0x20_0000, 2 * UNIT as int);
    }
    let d = v.dot(n);
    v.sub(n.scale(2 * d))
}

/// Whether every component is below one quantum.
pub fn near_zero(v: Vec3) -> (b: bool)
    ensures
        b == near_zero_s(v),
{
    v.x < 1 && v.y < 1 && v.z < 1
}

/// Degrees to radians.
pub fn deg_to_rad(degrees: i64) -> (r: i64)
    requires
        -0x100_0000_0000 <= degrees <= 0x100_0000_0000,
    ensures
        r == fmul(degrees as int, PI_FIXED as int) / 180,
{
    proof {
        lemma_fmul_bound(degrees as int, PI_FIXED as int, 0x100_0000_0000, PI_FIXED as int);
    }
    let p = mul_fixed(degrees, PI_FIXED);
    crate::fixed::div_floor_i128(p as i128, 180) as i64
}

/// Snell refraction of the unit direction `uv` about `n`.
pub fn refract(uv: Vec3, n: Vec3, etai_over_etat: i64) -> (r: Vec3)
    requires
        within(uv, 2 * UNIT),
        within(n, 2 * UNIT),
        1 <= etai_over_etat <= 0x1_0000_0000,
    ensures
        r == refract_s(uv, n, etai_over_etat as int),
        within(r, 0x400_0000_0000),
{
    let eta = etai_over_etat;
    proof {
        assert(131072 * 131072 == 17179869184int) by (nonlinear_arith);
        lemma_dot_bound(neg_s(uv), n, 2 * UNIT as int, 2 * UNIT as int);
    }
    let cos2 = clamp_fixed(uv.neg().dot(n), UNIT, i64::MAX);
    proof {
        assert(1048576 * 131072 == 137438953472int) by (nonlinear_arith);
        lemma_fmul_bound(cos2 as int, n.x as int, 0x10_0000, 2 * UNIT as int);
        lemma_fmul_bound(cos2 as int, n.y as int, 0x10_0000, 2 * UNIT as int);
        lemma_fmul_bound(cos2 as int, n.z as int, 0x10_0000, 2 * UNIT as int);
    }
    let inner = uv.add(n.scale(cos2));
    proof {
        assert(4294967296 * 4194304 == 18014398509481984int) by (nonlinear_arith);
        lemma_fmul_bound(eta as int, inner.x as int, 0x1_0000_0000, 0x40_0000);
        lemma_fmul_bound(eta as int, inner.y as int, 0x1_0000_0000, 0x40_0000);
        lemma_fmul_bound(eta as int, inner.z as int, 0x1_0000_0000, 0x40_0000);
    }
    let r_perp = inner.scale(eta);
    proof {
        assert(274877906945 * 274877906945 == 75557863726464079233025int) by (nonlinear_arith);
        lemma_dot_bound(r_perp, r_perp, 0x40_0000_0001, 0x40_0000_0001);
        lemma_dot_self_nonneg(r_perp);
    }
    let msq = r_perp.dot(r_perp);
    let diff = UNIT - msq;
    let par_len = sqrt_fixed(if diff < 0 { -diff } else { diff });
    proof {
        assert(1099511627776 * 131072 == 144115188075855872int) by (nonlinear_arith);
        lemma_fmul_bound(par_len as int, n.x as int, 0x100_0000_0000, 2 * UNIT as int);
        lemma_fmul_bound(par_len as int, n.y as int, 0x100_0000_0000, 2 * UNIT as int);
        lemma_fmul_bound(par_len as int, n.z as int, 0x100_0000_0000, 2 * UNIT as int);
    }
    let r_par = n.scale(par_len).neg();
    r_perp.add(r_par)
}

/// The direction a Lambertian surface scatters into: the normal plus
/// a random unit vector, or the normal alone when the two cancel to
/// below a quantum per component.
pub open spec fn lambertian_dir_s(n: Vec3, u: Vec3) -> Vec3 {
    if near_zero_s(add_s(n, u)) {
        n
    } else {
        add_s(n, u)
    }
}

/// What a fuzz-free metal returns: the mirror reflection of the unit
/// incoming direction, kept only when it leaves the surface on the
/// normal's side.
pub open spec fn metal_mirror_s(m: Metal, ray: Ray, hit: HitRecord) -> Option<(Ray, Vec3)> {
    let refl = reflect_s(unit_s(ray.dir), hit.normal);
    if dot_s(refl, hit.normal) > 0 {
        Some((Ray { origin: hit.point, dir: refl }, m.albedo))
    } else {
        None
    }
}

/// The direction a dielectric scatters into: reflection under total
/// internal reflection, Snell refraction otherwise. Because the
/// incidence cosine is clamped below by one, the sine comes out zero
/// (or its square negative, which counts as refractable here), so
/// the reflection branch never fires; the branch stays, as the
/// stated rule of this material has both arms.
pub open spec fn dielectric_dir_s(uv: Vec3, n: Vec3, front_face: bool, ir: int) -> Vec3 {
    let ratio = if front_face {
        fdiv(UNIT as int, ir)
    } else {
        ir
    };
    let cos_theta = clamp_s(dot_s(neg_s(uv), n), UNIT as int, i64::MAX as int);
    let csq = fmul(cos_theta, cos_theta);
    let cannot_refract = csq <= UNIT && fmul(ratio, fsqrt(UNIT - csq)) > UNIT;
    if cannot_refract {
        reflect_s(uv, n)
    } else {
        refract_s(uv, n, ir)
    }
}

impl Lambertian {
    /// Build a diffuse material from its albedo.
    pub fn new(albedo: Vec3) -> (r: Lambertian)
        ensures
            r.albedo == albedo,
    {
        Lambertian { albedo }
    }

    /// Diffuse scattering: a ray from the hit point along the normal
    /// plus a random unit vector (the normal alone when the two
    /// cancel), attenuated by the albedo. Always scatters.
    pub fn scatter(&self, _ray: &Ray, hit: &HitRecord, rng: &mut rand::rngs::ThreadRng) -> (r:
        Option<(Ray, Vec3)>)
        requires
            hit_ok(*hit),
        ensures
            r.is_some(),
            r.unwrap().0.origin == hit.point,
            r.unwrap().1 == self.albedo,
            exists|p: Vec3|
                {
                    &&& within(p, UNIT as int)
                    &&& 16384 <= dot_s(p, p) < UNIT
                    &&& r.unwrap().0.dir == lambertian_dir_s(hit.normal, #[trigger] unit_s(p))
                },
    {
        let u = random_unit_vector(rng);
        let cand = hit.normal.add(u);
        let dir = if near_zero(cand) {
            hit.normal
        } else {
            cand
        };
        proof {
            let p = choose|p: Vec3|
                {
                    &&& within(p, UNIT as int)
                    &&& 16384 <= dot_s(p, p) < UNIT
                    &&& u == #[trigger] unit_s(p)
                };
            assert(dir == lambertian_dir_s(hit.normal, unit_s(p)));
        }
        Some((Ray::new(hit.point, dir), self.albedo))
    }
}

impl Metal {
    /// Build a metal from its albedo and fuzz; the fuzz is clamped
    /// into `[0, 1]`.
    pub fn new(albedo: Vec3, fuzz: i64) -> (r: Metal)
        ensures
            r.albedo == albedo,
            r.fuzz == clamp_s(fuzz as int, 0, UNIT as int),
            0 <= r.fuzz <= UNIT,
    {
        Metal { albedo, fuzz: clamp_fixed(fuzz, 0, UNIT) }
    }

    /// Specular scattering: the mirror reflection of the unit
    /// incoming direction, perturbed by fuzz times a random in-sphere
    /// point, kept only when it leaves on the normal's side;
    /// otherwise the ray is absorbed.
    pub fn scatter(&self, ray: &Ray, hit: &HitRecord, rng: &mut rand::rngs::ThreadRng) -> (r:
        Option<(Ray, Vec3)>)
        requires
            hit_ok(*hit),
            ray_ok(*ray),
            0 <= self.fuzz <= UNIT,
        ensures
            r.is_some() ==> {
                &&& r.unwrap().0.origin == hit.point
                &&& r.unwrap().1 == self.albedo
                &&& dot_s(r.unwrap().0.dir, hit.normal) > 0
            },
            self.fuzz == 0 ==> r == metal_mirror_s(*self, *ray, *hit),
            r.is_some() && self.fuzz > 0 ==> exists|p: Vec3|
                {
                    &&& within(p, UNIT as int)
                    &&& 16384 <= dot_s(p, p) < UNIT
                    &&& r.unwrap().0.dir == add_s(
                        reflect_s(unit_s(ray.dir), hit.normal),
                        #[trigger] scale_s(self.fuzz as int, p),
                    )
                },
    {
        proof {
            lemma_dot_bound(ray.dir, ray.dir, 0x100_0000, 0x100_0000);
            assert(16777216 * 16777216 == 281474976710656int) by (nonlinear_arith);
        }
        let unit_dir = ray.dir.normalize();
        let reflected = reflect(unit_dir, hit.normal);
        let ghost refl = reflected;
        let scattered_dir;
        if self.fuzz > 0 {
            let p = random_in_unit_sphere(rng);
            proof {
                lemma_fmul_bound(self.fuzz as int, p.x as int, UNIT as int, UNIT as int);
                lemma_fmul_bound(self.fuzz as int, p.y as int, UNIT as int, UNIT as int);
                lemma_fmul_bound(self.fuzz as int, p.z as int, UNIT as int, UNIT as int);
                assert(65536 * 65536 == 4294967296int) by (nonlinear_arith);
            }
            scattered_dir = reflected.add(p.scale(self.fuzz));
            proof {
                assert(scattered_dir == add_s(
                    reflect_s(unit_s(ray.dir), hit.normal),
                    scale_s(self.fuzz as int, p),
                ));
            }
        } else {
            scattered_dir = reflected;
        }
        proof {
            lemma_dot_bound(scattered_dir, hit.normal, 0x100_0000, 2 * UNIT as int);
            assert(16777216 * 131072 == 2199023255552int) by (nonlinear_arith);
        }
        let d = scattered_dir.dot(hit.normal);
        if d > 0 {
            Some((Ray::new(hit.point, scattered_dir), self.albedo))
        } else {
            None
        }
    }
}

impl Dielectric {
    /// Build a dielectric from its refractive index.
    pub fn new(ir: i64) -> (r: Dielectric)
        ensures
            r.ir == ir,
    {
        Dielectric { ir }
    }

    /// Refractive scattering: always scatters, with no tint, along
    /// the dielectric direction rule.
    pub fn scatter(&self, ray: &Ray, hit: &HitRecord) -> (r: Option<(Ray, Vec3)>)
        requires
            hit_ok(*hit),
            ray_ok(*ray),
            1 <= self.ir <= 0x1_0000_0000,
        ensures
            r == Some(
                (
                    (Ray {
                        origin: hit.point,
                        dir: dielectric_dir_s(
                            unit_s(ray.dir),
                            hit.normal,
                            hit.front_face,
                            self.ir as int,
                        ),
                    }),
                    (Vec3 { x: UNIT, y: UNIT, z: UNIT }),
                ),
            ),
    {
        let attenuation = Vec3::new(UNIT, UNIT, UNIT);
        let refraction_ratio = if hit.front_face {
            proof {
                vstd::arithmetic::div_mod::lemma_div_pos_is_pos(4294967296, self.ir as int);
                vstd::arithmetic::div_mod::lemma_div_is_ordered_by_denominator(
                    4294967296,
                    1,
                    self.ir as int,
                );
                vstd::arithmetic::div_mod::lemma_div_basics(4294967296);
            }
            div_fixed(UNIT, self.ir)
        } else {
            self.ir
        };
        proof {
            lemma_dot_bound(ray.dir, ray.dir, 0x100_0000, 0x100_0000);
            assert(16777216 * 16777216 == 281474976710656int) by (nonlinear_arith);
        }
        let unit_direction = ray.dir.normalize();
        proof {
            assert(131072 * 131072 == 17179869184int) by (nonlinear_arith);
            lemma_dot_bound(neg_s(unit_direction), hit.normal, 2 * UNIT as int, 2 * UNIT as int);
        }
        let cos_theta = clamp_fixed(unit_direction.neg().dot(hit.normal), UNIT, i64::MAX);
        proof {
            assert(1048576 * 1048576 == 1099511627776int) by (nonlinear_arith);
            lemma_fmul_bound(cos_theta as int, cos_theta as int, 0x10_0000, 0x10_0000);
        }
        let csq = mul_fixed(cos_theta, cos_theta);
        let cannot_refract;
        if csq <= UNIT {
            let sin_theta = sqrt_fixed(UNIT - csq);
            proof {
                assert(4294967296 * 1099511627776 == 4722366482869645213696int)
                    by (nonlinear_arith);
                lemma_fmul_bound(
                    refraction_ratio as int,
                    sin_theta as int,
                    0x1_0000_0000,
                    0x100_0000_0000,
                );
            }
            cannot_refract = mul_fixed(refraction_ratio, sin_theta) > UNIT;
        } else {
            cannot_refract = false;
        }
        let direction = if cannot_refract {
            reflect(unit_direction, hit.normal)
        } else {
            refract(unit_direction, hit.normal, self.ir)
        };
        Some((Ray::new(hit.point, direction), attenuation))
    }
}

impl Material {
    /// Scatter an incoming ray at a hit, by the variant's rule.
    pub fn scatter(&self, ray: &Ray, hit: &HitRecord, rng: &mut rand::rngs::ThreadRng) -> (r:
        Option<(Ray, Vec3)>)
        requires
            material_ok(*self),
            hit_ok(*hit),
            ray_ok(*ray),
        ensures
            match r {
                Some(sc) => sc.0.origin == hit.point && color_ok(sc.1),
                None => true,
            },
            match *self {
                Material::Lambertian(l) => {
                    &&& r.is_some()
                    &&& r.unwrap().1 == l.albedo
                    &&& exists|p: Vec3|
                        {
                            &&& within(p, UNIT as int)
                            &&& 16384 <= dot_s(p, p) < UNIT
                            &&& r.unwrap().0.dir == lambertian_dir_s(
                                hit.normal,
                                #[trigger] unit_s(p),
                            )
                        }
                },
                Material::Metal(m) => {
                    &&& (m.fuzz == 0 ==> r == metal_mirror_s(m, *ray, *hit))
                    &&& (r.is_some() ==> r.unwrap().1 == m.albedo && dot_s(
                        r.unwrap().0.dir,
                        hit.normal,
                    ) > 0)
                },
                Material::Dielectric(d) => r == Some(
                    (
                        (Ray {
                            origin: hit.point,
                            dir: dielectric_dir_s(
                                unit_s(ray.dir),
                                hit.normal,
                                hit.front_face,
                                d.ir as int,
                            ),
                        }),
                        (Vec3 { x: UNIT, y: UNIT, z: UNIT }),
                    ),
                ),
            },
    {
        match self {
            Material::Lambertian(l) => l.scatter(ray, hit, rng),
            Material::Metal(m) => m.scatter(ray, hit, rng),
            Material::Dielectric(d) => d.scatter(ray, hit),
        }
    }
}

/// Scaling by the fixed-point one is the identity, componentwise.
proof fn lemma_scale_one(v: Vec3)
    requires
        within(v, 0x8000_0000),
    ensures
        scale_s(UNIT as int, v) == v,
{
    let u = UNIT as int;
    assert(u * (v.x as int) == (v.x as int) * u + 0) by (nonlinear_arith);
    vstd::arithmetic::div_mod::lemma_fundamental_div_mod_converse(u * (v.x as int), u,
        v.x as int, 0);
    assert(u * (v.y as int) == (v.y as int) * u + 0) by (nonlinear_arith);
    vstd::arithmetic::div_mod::lemma_fundamental_div_mod_converse(u * (v.y as int), u,
        v.y as int, 0);
    assert(u * (v.z as int) == (v.z as int) * u + 0) by (nonlinear_arith);
    vstd::arithmetic::div_mod::lemma_fundamental_div_mod_converse(u * (v.z as int), u,
        v.z as int, 0);
}

/// The fixed-point dot product of an exactly unit normal with itself
/// is one, and against its negation minus one.
proof fn lemma_unit_normal_dots(n: Vec3)
    requires
        within(n, 2 * UNIT),
        dot_wide(n, n) == (UNIT as int) * (UNIT as int),
    ensures
        dot_s(n, n) == UNIT,
        dot_s(neg_s(n), n) == -(UNIT as int),
        neg_s(neg_s(n)) == n,
        dot_wide(neg_s(n), n) == -((UNIT as int) * (UNIT as int)),
{
    let u = UNIT as int;
    assert(u * u == u * u + 0) by (nonlinear_arith);
    vstd::arithmetic::div_mod::lemma_fundamental_div_mod_converse(u * u, u, u, 0);
    assert(dot_wide(neg_s(n), n) == -(u * u)) by (nonlinear_arith)
        requires
            dot_wide(neg_s(n), n) == (-n.x) * n.x + (-n.y) * n.y + (-n.z) * n.z,
            dot_wide(n, n) == n.x * n.x + n.y * n.y + n.z * n.z,
            dot_wide(n, n) == u * u,
    ;
    assert(-(u * u) == (-u) * u + 0) by (nonlinear_arith);
    vstd::arithmetic::div_mod::lemma_fundamental_div_mod_converse(-(u * u), u, -u, 0);
}

/// At normal incidence, a fuzz-free metal reflects the incoming unit
/// direction exactly back along the outward normal: the mirror law
/// on the grid, with no randomness.
pub proof fn lemma_metal_normal_incidence(m: Metal, ray: Ray, hit: HitRecord)
    requires
        m.fuzz == 0,
        unit_s(ray.dir) == neg_s(hit.normal),
        within(hit.normal, 2 * UNIT),
        dot_wide(hit.normal, hit.normal) == (UNIT as int) * (UNIT as int),
    ensures
        metal_mirror_s(m, ray, hit) == Some(
            ((Ray { origin: hit.point, dir: hit.normal }), m.albedo),
        ),
        hit.normal == neg_s(unit_s(ray.dir)),
{
    let u = UNIT as int;
    let n = hit.normal;
    lemma_unit_normal_dots(n);
    let d = dot_s(neg_s(n), n);
    assert(d == -u);
    // reflect(-n, n) = -n - 2*(-1)*n = n, exactly on the grid.
    assert((2 * d) * (n.x as int) == (-2 * n.x) * u + 0) by (nonlinear_arith)
        requires
            d == -u,
            u == 65536,
    ;
    vstd::arithmetic::div_mod::lemma_fundamental_div_mod_converse((2 * d) * (n.x as int), u,
        -2 * n.x, 0);
    assert((2 * d) * (n.y as int) == (-2 * n.y) * u + 0) by (nonlinear_arith)
        requires
            d == -u,
            u == 65536,
    ;
    vstd::arithmetic::div_mod::lemma_fundamental_div_mod_converse((2 * d) * (n.y as int), u,
        -2 * n.y, 0);
    assert((2 * d) * (n.z as int) == (-2 * n.z) * u + 0) by (nonlinear_arith)
        requires
            d == -u,
            u == 65536,
    ;
    vstd::arithmetic::div_mod::lemma_fundamental_div_mod_converse((2 * d) * (n.z as int), u,
        -2 * n.z, 0);
    assert(reflect_s(neg_s(n), n) == n);
    assert(dot_s(n, n) == u);
}

/// With a refractive index of one (a matching medium), the
/// dielectric rule hands the unit incoming direction back unchanged
/// at normal incidence: no bending.
pub proof fn lemma_dielectric_matching(uv: Vec3, n: Vec3, front_face: bool)
    requires
        uv == neg_s(n),
        within(n, 2 * UNIT),
        dot_wide(n, n) == (UNIT as int) * (UNIT as int),
    ensures
        dielectric_dir_s(uv, n, front_face, UNIT as int) == uv,
{
    let u = UNIT as int;
    lemma_unit_normal_dots(n);
    assert(neg_s(uv) == n);
    // The ratio is one on either face.
    assert(u * u == u * u + 0) by (nonlinear_arith);
    vstd::arithmetic::div_mod::lemma_fundamental_div_mod_converse(u * u, u, u, 0);
    assert(fdiv(u, u) == u);
    // Incidence cosine exactly one; its square exactly one; the sine
    // zero, so refraction proceeds.
    let cos = clamp_s(dot_s(neg_s(uv), n), u, i64::MAX as int);
    assert(cos == u);
    assert(fmul(cos, cos) == u);
    assert(fsqrt(0) == 0);
    let ratio = if front_face { fdiv(u, u) } else { u };
    assert(ratio * 0 == 0) by (nonlinear_arith);
    assert(fmul(ratio, fsqrt(u - fmul(cos, cos))) == 0);
    // Refraction: the perpendicular part cancels to zero and the
    // parallel part is the negated normal, which is the incoming
    // direction.
    lemma_scale_one(n);
    assert(add_s(uv, scale_s(cos, n)) == (Vec3 { x: 0i64, y: 0i64, z: 0i64 }));
    assert(scale_s(ratio, (Vec3 { x: 0i64, y: 0i64, z: 0i64 })) == (Vec3 {
        x: 0i64,
        y: 0i64,
        z: 0i64,
    })) by {
        assert(ratio * 0 == 0) by (nonlinear_arith);
    }
    let zero = Vec3 { x: 0i64, y: 0i64, z: 0i64 };
    assert(dot_s(zero, zero) == 0);
    assert(65536 * 65536 == 4294967296int) by (nonlinear_arith);
    crate::fixed::lemma_sqrt_floor_square(65536);
    assert(fsqrt(u) == u);
    assert(refract_s(uv, n, u) == add_s(zero, neg_s(scale_s(u, n))));
    assert(neg_s(scale_s(u, n)) == neg_s(n));
    assert(add_s(zero, neg_s(n)) == neg_s(n));
}

/// The mirror law: where the fixed-point grid loses nothing (an
/// exactly unit normal, and incidence products that land on the
/// grid), the reflected direction makes the same angle with the
/// normal as the reversed incoming one: `dot(reflect(v, n), n) ==
/// dot(-v, n)`. Axis-aligned mirrors satisfy the divisibility
/// hypotheses exactly.
pub proof fn lemma_reflect_incidence(v: Vec3, n: Vec3)
    requires
        within(v, 2 * UNIT),
        within(n, 2 * UNIT),
        dot_wide(n, n) == (UNIT as int) * (UNIT as int),
        dot_wide(v, n) % (UNIT as int) == 0,
        (2 * dot_s(v, n) * (n.x as int)) % (UNIT as int) == 0,
        (2 * dot_s(v, n) * (n.y as int)) % (UNIT as int) == 0,
        (2 * dot_s(v, n) * (n.z as int)) % (UNIT as int) == 0,
    ensures
        dot_s(reflect_s(v, n), n) == dot_s(neg_s(v), n),
        dot_s(reflect_s(v, n), n) == -dot_s(v, n),
{
    let u = UNIT as int;
    let w = dot_wide(v, n);
    let d = dot_s(v, n);
    vstd::arithmetic::div_mod::lemma_fundamental_div_mod(w, u);
    assert(w == u * d);
    // Each scaled-normal component divides out exactly.
    let mx = fmul(2 * d, n.x as int);
    let my = fmul(2 * d, n.y as int);
    let mz = fmul(2 * d, n.z as int);
    vstd::arithmetic::div_mod::lemma_fundamental_div_mod(2 * d * (n.x as int), u);
    vstd::arithmetic::div_mod::lemma_fundamental_div_mod(2 * d * (n.y as int), u);
    vstd::arithmetic::div_mod::lemma_fundamental_div_mod(2 * d * (n.z as int), u);
    assert(2 * d * (n.x as int) == u * mx);
    assert(2 * d * (n.y as int) == u * my);
    assert(2 * d * (n.z as int) == u * mz);
    // The components stay inside the machine range, so the spec casts
    // are exact.
    lemma_dot_bound(v, n, 2 * UNIT as int, 2 * UNIT as int);
    assert(131072 * 131072 == 17179869184int) by (nonlinear_arith);
    lemma_fmul_bound(2 * d, n.x as int, 0x20_0000, 2 * UNIT as int);
    lemma_fmul_bound(2 * d, n.y as int, 0x20_0000, 2 * UNIT as int);
    lemma_fmul_bound(2 * d, n.z as int, 0x20_0000, 2 * UNIT as int);
    assert(2097152 * 131072 == 274877906944int) by (nonlinear_arith);
    let rf = reflect_s(v, n);
    assert(rf.x == v.x - mx);
    assert(rf.y == v.y - my);
    assert(rf.z == v.z - mz);
    // The reflected wide dot against the normal drops by exactly two
    // units of the incidence dot.
    assert(u * (mx * (n.x as int) + my * (n.y as int) + mz * (n.z as int)) == 2 * d * (u * u))
        by (nonlinear_arith)
        requires
            2 * d * (n.x as int) == u * mx,
            2 * d * (n.y as int) == u * my,
            2 * d * (n.z as int) == u * mz,
            (n.x as int) * (n.x as int) + (n.y as int) * (n.y as int) + (n.z as int) * (
            n.z as int) == u * u,
            u == 65536,
    ;
    assert(mx * (n.x as int) + my * (n.y as int) + mz * (n.z as int) == 2 * d * u)
        by (nonlinear_arith)
        requires
            u * (mx * (n.x as int) + my * (n.y as int) + mz * (n.z as int)) == 2 * d * (u * u),
            u == 65536,
    ;
    assert(dot_wide(rf, n) == w - 2 * d * u) by (nonlinear_arith)
        requires
            rf.x == v.x - mx,
            rf.y == v.y - my,
            rf.z == v.z - mz,
            dot_wide(rf, n) == (rf.x as int) * (n.x as int) + (rf.y as int) * (n.y as int) + (
            rf.z as int) * (n.z as int),
            w == (v.x as int) * (n.x as int) + (v.y as int) * (n.y as int) + (v.z as int) * (
            n.z as int),
            mx * (n.x as int) + my * (n.y as int) + mz * (n.z as int) == 2 * d * u,
    ;
    assert(w - 2 * d * u == (-d) * u + 0) by (nonlinear_arith)
        requires
            w == u * d,
    ;
    vstd::arithmetic::div_mod::lemma_fundamental_div_mod_converse(w - 2 * d * u, u, -d, 0);
    assert(dot_wide(neg_s(v), n) == -w) by (nonlinear_arith)
        requires
            dot_wide(neg_s(v), n) == ((-v.x) as int) * (n.x as int) + ((-v.y) as int) * (
            n.y as int) + ((-v.z) as int) * (n.z as int),
            w == (v.x as int) * (n.x as int) + (v.y as int) * (n.y as int) + (v.z as int) * (
            n.z as int),
    ;
    assert(-w == (-d) * u + 0) by (nonlinear_arith)
        requires
            w == u * d,
    ;
    vstd::arithmetic::div_mod::lemma_fundamental_div_mod_converse(-w, u, -d, 0);
}

/// A point inside the unit sphere, by rejection sampling; draws with
/// a squared magnitude under a quarter are redrawn (normalizing a
/// shorter draw would lose too much to the grid), and a fixed
/// in-sphere point stands in if every try degenerates.
pub fn random_in_unit_sphere(rng: &mut rand::rngs::ThreadRng) -> (p: Vec3)
    ensures
        within(p, UNIT as int),
        16384 <= dot_s(p, p) < UNIT,
{
    let mut i: u32 = 0;
    while i < 64
        decreases 64 - i,
    {
        let px = 2 * rand_unit(rng) - UNIT;
        let py = 2 * rand_unit(rng) - UNIT;
        let pz = 2 * rand_unit(rng) - UNIT;
        let p = Vec3::new(px, py, pz);
        proof {
            lemma_dot_bound(p, p, UNIT as int, UNIT as int);
            lemma_dot_self_nonneg(p);
        }
        let m = p.dot(p);
        if 16384 <= m && m < UNIT {
            return p;
        }
        i = i + 1;
    }
    let p = Vec3::new(UNIT / 2, 0, 0);
    proof {
        assert(dot_s(p, p) == 16384) by (nonlinear_arith)
            requires
                p == (Vec3 { x: 32768i64, y: 0i64, z: 0i64 }),
        ;
    }
    p
}

/// A unit direction drawn by normalizing a point inside the unit
/// sphere: its own squared fixed-point magnitude is one up to a few
/// quanta.
pub fn random_unit_vector(rng: &mut rand::rngs::ThreadRng) -> (r: Vec3)
    ensures
        within(r, UNIT + 2),
        UNIT - 7 <= dot_s(r, r) <= UNIT + 14,
        exists|p: Vec3|
            {
                &&& within(p, UNIT as int)
                &&& 16384 <= dot_s(p, p) < UNIT
                &&& r == #[trigger] unit_s(p)
            },
{
    let p = random_in_unit_sphere(rng);
    let r = p.normalize();
    proof {
        crate::vec3::lemma_normalize_bound(p);
        crate::vec3::lemma_unit_magnitude(p);
        assert(r == unit_s(p));
    }
    r
}

/// The in-sphere point, flipped when it does not lie in the
/// hemisphere of the given normal.
pub open spec fn hemisphere_pick(p: Vec3, normal: Vec3) -> Vec3 {
    if dot_s(p, normal) > 0 {
        p
    } else {
        neg_s(p)
    }
}

/// A point inside the unit sphere, flipped into the hemisphere of
/// the given normal.
pub fn random_in_hemisphere(rng: &mut rand::rngs::ThreadRng, normal: Vec3) -> (r: Vec3)
    requires
        within(normal, 2 * UNIT),
    ensures
        within(r, UNIT as int),
        exists|p: Vec3|
            {
                &&& #[trigger] hemisphere_pick(p, normal) == r
                &&& within(p, UNIT as int)
                &&& 16384 <= dot_s(p, p) < UNIT
            },
{
    let p = random_in_unit_sphere(rng);
    proof {
        lemma_dot_bound(p, normal, UNIT as int, 2 * UNIT as int);
    }
    let d = p.dot(normal);
    let r = if d > 0 {
        p
    } else {
        p.neg()
    };
    proof {
        assert(hemisphere_pick(p, normal) == r);
    }
    r
}

/// A vector whose components are each drawn uniformly from
/// `[min, max)`.
pub fn random_vec3(rng: &mut rand::rngs::ThreadRng, min: i64, max: i64) -> (r: Vec3)
    requires
        -0x100_0000_0000 <= min <= max <= 0x100_0000_0000,
    ensures
        min < max ==> min <= r.x < max && min <= r.y < max && min <= r.z < max,
        min == max ==> r == (Vec3 { x: min, y: min, z: min }),
{
    let rx = rand_span(rng, min, max);
    let ry = rand_span(rng, min, max);
    let rz = rand_span(rng, min, max);
    Vec3::new(rx, ry, rz)
}

/// One coordinate drawn uniformly from `[min, max)`.
fn rand_span(rng: &mut rand::rngs::ThreadRng, min: i64, max: i64) -> (r: i64)
    requires
        -0x100_0000_0000 <= min <= max <= 0x100_0000_0000,
    ensures
        min < max ==> min <= r < max,
        min == max ==> r == min,
{
    let d = max - min;
    let u = rand_unit(rng);
    proof {
        lemma_fmul_bound(u as int, d as int, UNIT as int, 0x200_0000_0000);
        assert(0 <= u as int * d as int) by (nonlinear_arith)
            requires
                0 <= u,
                0 <= d,
        ;
        crate::fixed::lemma_fdiv_ordered(0, u as int * d as int, UNIT as int);
        if d == 0 {
            assert(u as int * 0 == 0) by (nonlinear_arith);
        }
        if d > 0 {
            assert(u as int * d as int <= 65536 * (d as int) - 1) by (nonlinear_arith)
                requires
                    0 <= u <= 65535,
                    1 <= d,
            ;
            crate::fixed::lemma_fdiv_ordered(
                u as int * d as int,
                65536 * (d as int) - 1,
                UNIT as int,
            );
            vstd::arithmetic::div_mod::lemma_fundamental_div_mod_converse(
                65536 * (d as int) - 1,
                65536,
                d as int - 1,
                65535,
            );
        }
    }
    let off = mul_fixed(u, d);
    min + off
}

} // verus!
