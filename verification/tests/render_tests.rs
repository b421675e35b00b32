use raytracing::fixed::UNIT;
use raytracing::vec3::Vec3;
use raytracing::ray::Ray;
use raytracing::hittable::Sphere;
use raytracing::hittable_list::HittableList;
use raytracing::material::{Lambertian, Material};
use raytracing::render::{get_background_color, ray_color, write_color, render_image};
use raytracing::camera::Camera;
use raytracing::rng::new_rng;

fn unit() -> i64 {
    UNIT
}

fn gray() -> Material {
    Material::Lambertian(Lambertian::new(Vec3::new(32768, 32768, 32768)))
}

#[test]
fn background_center_ray_is_half_gradient() {
    let ray = Ray::new(Vec3::new(0, 0, 0), Vec3::new(0, 0, -unit()));
    let c = get_background_color(&ray);
    // The unit direction has y = 0, so the blend weight is one half:
    // (1,1,1)/2 + (0.5, 0.7, 1.0)/2 on the fixed-point grid.
    assert_eq!(c, Vec3::new(49152, 55705, 65536));
}

#[test]
fn ray_color_depth_zero_is_black() {
    let mut rng = new_rng();
    let mut scene = HittableList::new();
    scene.push(Sphere::new(Vec3::new(0, 0, -2 * unit()), unit(), gray()));
    let ray = Ray::new(Vec3::new(0, 0, 0), Vec3::new(0, 0, -unit()));
    let c = ray_color(&ray, &scene, 0, &mut rng);
    assert_eq!(c, Vec3::new(0, 0, 0));
}

#[test]
fn ray_color_empty_scene_is_background() {
    let mut rng = new_rng();
    let scene = HittableList::new();
    let ray = Ray::new(Vec3::new(0, 0, 0), Vec3::new(0, 0, -unit()));
    let c = ray_color(&ray, &scene, 50, &mut rng);
    assert_eq!(c, get_background_color(&ray));
    assert_eq!(c, Vec3::new(49152, 55705, 65536));
}

#[test]
fn write_color_full_white_saturates() {
    let spp: i64 = 100;
    let c = Vec3::new(spp * unit(), spp * unit(), spp * unit());
    assert_eq!(write_color(c, spp), (255, 255, 255));
}

#[test]
fn write_color_exact_channels() {
    // One sample: full red, quarter green (whose square root is one
    // half), black blue.
    let c = Vec3::new(unit(), 16384, 0);
    assert_eq!(write_color(c, 1), (255, 128, 0));
}

#[test]
fn camera_center_ray_points_down_axis() {
    let camera = Camera::new(
        Vec3::new(0, 0, 0),
        Vec3::new(-2 * unit(), -unit(), -unit()),
        Vec3::new(4 * unit(), 0, 0),
        Vec3::new(0, 2 * unit(), 0),
    );
    let r = camera.get_ray(32768, 32768);
    assert_eq!(r.origin, Vec3::new(0, 0, 0));
    assert_eq!(r.dir, Vec3::new(0, 0, -unit()));
    let corner = camera.get_ray(0, 0);
    assert_eq!(corner.dir, Vec3::new(-2 * unit(), -unit(), -unit()));
}

#[test]
fn enclosing_dark_sphere_renders_black() {
    // The camera sits inside a large sphere with zero albedo: every
    // ray hits, every scatter is attenuated to nothing, so every
    // sample and hence the pixel is exactly black.
    let mut rng = new_rng();
    let dark = Material::Lambertian(Lambertian::new(Vec3::new(0, 0, 0)));
    let mut scene = HittableList::new();
    scene.push(Sphere::new(Vec3::new(0, 0, 0), 100 * unit(), dark));
    let camera = Camera::new(
        Vec3::new(0, 0, 0),
        Vec3::new(-2 * unit(), -unit(), -unit()),
        Vec3::new(4 * unit(), 0, 0),
        Vec3::new(0, 2 * unit(), 0),
    );
    let px = raytracing::render::render_pixel(&camera, &scene, 1, 1, 4, 4, 8, 5, &mut rng);
    assert_eq!(px, (0, 0, 0));
}

#[test]
fn empty_scene_saturates_every_blue_channel() {
    // The background gradient's blue channel is exactly one for
    // every ray, so with no objects every pixel's blue output
    // saturates, whatever the jitter drew.
    let mut rng = new_rng();
    let scene = HittableList::new();
    let camera = Camera::new(
        Vec3::new(0, 0, 0),
        Vec3::new(-2 * unit(), -unit(), -unit()),
        Vec3::new(4 * unit(), 0, 0),
        Vec3::new(0, 2 * unit(), 0),
    );
    let px = raytracing::render::render_pixel(&camera, &scene, 0, 0, 3, 3, 4, 7, &mut rng);
    assert_eq!(px.2, 255);
    let pixels = render_image(&camera, &scene, 3, 3, 2, 7, &mut rng);
    for p in pixels {
        assert_eq!(p.2, 255);
    }
}

#[test]
fn render_image_has_one_triple_per_pixel() {
    let mut rng = new_rng();
    let scene = HittableList::new();
    let camera = Camera::new(
        Vec3::new(0, 0, 0),
        Vec3::new(-2 * unit(), -unit(), -unit()),
        Vec3::new(4 * unit(), 0, 0),
        Vec3::new(0, 2 * unit(), 0),
    );
    let pixels = render_image(&camera, &scene, 4, 2, 2, 5, &mut rng);
    assert_eq!(pixels.len(), 8);
}
