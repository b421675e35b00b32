use raytracing::fixed::UNIT;
use raytracing::vec3::Vec3;
use raytracing::ray::Ray;
use raytracing::hittable::Sphere;
use raytracing::hittable_list::HittableList;
use raytracing::material::{Lambertian, Material};
use raytracing::ray::T_LIMIT;

fn unit() -> i64 {
    UNIT
}

fn gray() -> Material {
    Material::Lambertian(Lambertian::new(Vec3::new(32768, 32768, 32768)))
}

#[test]
fn aimed_ray_hits_sphere_head_on() {
    // Eye at the origin, sphere of radius one centered two units down
    // the negative z axis, direction straight at the center.
    let s = Sphere::new(Vec3::new(0, 0, -2 * unit()), unit(), gray());
    let ray = Ray::new(Vec3::new(0, 0, 0), Vec3::new(0, 0, -2 * unit()));
    let h = s.hit(&ray, 65, T_LIMIT).expect("the aimed ray must hit");
    // The near intersection is at parameter one half, point (0,0,-1).
    assert_eq!(h.t, 32768);
    assert!(h.t > 0);
    assert_eq!(h.point, Vec3::new(0, 0, -unit()));
    // The normal is the unit vector from the center to the hit point.
    assert_eq!(h.normal, Vec3::new(0, 0, unit()));
    assert!(h.front_face);
}

#[test]
fn offset_ray_misses_sphere() {
    // Perpendicular offset of four units against a radius of one.
    let s = Sphere::new(Vec3::new(0, 0, -2 * unit()), unit(), gray());
    let ray = Ray::new(Vec3::new(4 * unit(), 0, 0), Vec3::new(0, 0, -unit()));
    assert!(s.hit(&ray, 65, T_LIMIT).is_none());
}

#[test]
fn open_range_excludes_root_at_bound() {
    let s = Sphere::new(Vec3::new(0, 0, -2 * unit()), unit(), gray());
    let ray = Ray::new(Vec3::new(0, 0, 0), Vec3::new(0, 0, -2 * unit()));
    // The near root sits exactly at the bound and the far root above
    // it, so the open range admits neither.
    assert!(s.hit(&ray, 0, 32768).is_none());
}

#[test]
fn scene_returns_closest_member_hit() {
    let near = Sphere::new(Vec3::new(0, 0, -2 * unit()), unit(), gray());
    let far = Sphere::new(Vec3::new(0, 0, -4 * unit()), unit(), gray());
    let mut scene = HittableList::new();
    scene.push(far);
    scene.push(near);
    let ray = Ray::new(Vec3::new(0, 0, 0), Vec3::new(0, 0, -2 * unit()));
    let h = scene.hit(&ray, 65, T_LIMIT).expect("a member is struck");
    let alone = near.hit(&ray, 65, T_LIMIT).expect("the near sphere is struck");
    assert_eq!(h, alone);
    assert_eq!(h.t, 32768);
    // The far sphere's own hit lies farther out.
    let far_alone = far.hit(&ray, 65, T_LIMIT).expect("the far sphere is struck");
    assert!(h.t <= far_alone.t);
}

#[test]
fn scene_with_no_struck_member_returns_none() {
    let near = Sphere::new(Vec3::new(0, 0, -2 * unit()), unit(), gray());
    let mut scene = HittableList::new();
    scene.push(near);
    let ray = Ray::new(Vec3::new(4 * unit(), 0, 0), Vec3::new(0, 0, -unit()));
    assert!(scene.hit(&ray, 65, T_LIMIT).is_none());
}
