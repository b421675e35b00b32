use raytracing::fixed::UNIT;
use raytracing::vec3::Vec3;
use raytracing::ray::Ray;
use raytracing::hittable::{HitRecord, Sphere};
use raytracing::ray::T_LIMIT;
use raytracing::material::{
    Lambertian, Metal, Dielectric, Material, reflect, near_zero, deg_to_rad,
    random_in_unit_sphere, random_unit_vector, random_in_hemisphere, random_vec3,
};
use raytracing::rng::{new_rng, rand_unit};

fn unit() -> i64 {
    UNIT
}

fn head_on_hit(material: Material) -> (Ray, HitRecord) {
    let s = Sphere::new(Vec3::new(0, 0, -2 * unit()), unit(), material);
    let ray = Ray::new(Vec3::new(0, 0, 0), Vec3::new(0, 0, -unit()));
    let h = s.hit(&ray, 65, T_LIMIT).expect("head-on ray must hit");
    (ray, h)
}

#[test]
fn reflect_about_axis_normal_preserves_incidence() {
    let v = Vec3::new(unit(), 0, -unit());
    let n = Vec3::new(0, 0, unit());
    let r = reflect(v, n);
    assert_eq!(r, Vec3::new(unit(), 0, unit()));
    // Angle of incidence equals angle of reflection: the dot of the
    // reflected direction with the normal matches that of the
    // reversed incoming one.
    assert_eq!(r.dot(n), v.neg().dot(n));
}

#[test]
fn lambertian_always_scatters_from_hit_point() {
    let mut rng = new_rng();
    let albedo = Vec3::new(45875, 19661, 19661);
    let (ray, h) = head_on_hit(Material::Lambertian(Lambertian::new(albedo)));
    for _ in 0..32 {
        let (scattered, attenuation) =
            Lambertian::new(albedo).scatter(&ray, &h, &mut rng).expect("always Some");
        assert_eq!(scattered.origin, h.point);
        assert_eq!(attenuation, albedo);
    }
}

#[test]
fn metal_without_fuzz_is_a_pure_mirror() {
    let mut rng = new_rng();
    let albedo = Vec3::new(52429, 52429, 52429);
    let m = Metal::new(albedo, 0);
    let (ray, h) = head_on_hit(Material::Metal(m));
    // Normal incidence: the scattered direction is exactly the
    // reverse of the incoming unit direction, with no randomness.
    let (scattered, attenuation) = m.scatter(&ray, &h, &mut rng).expect("mirror reflects");
    assert_eq!(scattered.origin, h.point);
    assert_eq!(scattered.dir, Vec3::new(0, 0, unit()));
    assert_eq!(attenuation, albedo);
}

#[test]
fn metal_new_clamps_fuzz_into_unit_range() {
    let albedo = Vec3::new(52429, 52429, 52429);
    assert_eq!(Metal::new(albedo, 3 * unit()).fuzz, unit());
    assert_eq!(Metal::new(albedo, 100).fuzz, 100);
    assert_eq!(Metal::new(albedo, -5).fuzz, 0);
}

#[test]
fn dielectric_with_matching_index_leaves_direction_unchanged() {
    let d = Dielectric::new(unit());
    let (ray, h) = head_on_hit(Material::Dielectric(d));
    let (scattered, attenuation) = d.scatter(&ray, &h).expect("always Some");
    assert_eq!(scattered.origin, h.point);
    // No bending: the direction equals the incoming unit direction.
    assert_eq!(scattered.dir, Vec3::new(0, 0, -unit()));
    // Glass does not tint.
    assert_eq!(attenuation, Vec3::new(unit(), unit(), unit()));
}

#[test]
fn material_dispatch_matches_variants() {
    let mut rng = new_rng();
    let albedo = Vec3::new(45875, 19661, 19661);
    let m = Material::Lambertian(Lambertian::new(albedo));
    let (ray, h) = head_on_hit(m);
    let (scattered, attenuation) = m.scatter(&ray, &h, &mut rng).expect("diffuse always Some");
    assert_eq!(scattered.origin, h.point);
    assert_eq!(attenuation, albedo);
}

#[test]
fn near_zero_looks_at_signed_components() {
    assert!(near_zero(Vec3::new(0, 0, 0)));
    assert!(near_zero(Vec3::new(-5, -5, -5)));
    assert!(!near_zero(Vec3::new(1, 0, 0)));
    assert!(!near_zero(Vec3::new(0, unit(), 0)));
}

#[test]
fn half_turn_in_radians_is_pi() {
    assert_eq!(deg_to_rad(180 * unit()), 205887);
}

#[test]
fn random_draws_stay_in_their_ranges() {
    let mut rng = new_rng();
    for _ in 0..64 {
        let r = rand_unit(&mut rng);
        assert!(0 <= r && r < unit());
        let p = random_in_unit_sphere(&mut rng);
        let m = p.dot(p);
        assert!(16384 <= m && m < unit());
        let uv = random_unit_vector(&mut rng);
        assert!(uv.x.abs() <= unit() + 2);
        let usq = uv.dot(uv);
        assert!(unit() - 7 <= usq && usq <= unit() + 14);
        let hp = random_in_hemisphere(&mut rng, Vec3::new(0, 0, unit()));
        assert!(hp.x.abs() <= unit());
        let rv = random_vec3(&mut rng, -unit(), unit());
        assert!(-unit() <= rv.x && rv.x < unit());
        assert!(-unit() <= rv.y && rv.y < unit());
        assert!(-unit() <= rv.z && rv.z < unit());
    }
}
