//! The renderer: recursive radiance along a ray, the background
//! gradient, per-pixel stochastic sampling, and the mapping of an
//! accumulated color to output channel values.

use vstd::prelude::*;
use crate::fixed::{
    fmul, fsqrt, clamp_s, UNIT, mul_fixed, sqrt_fixed, clamp_fixed, lemma_fmul_bound,
    lemma_fdiv_ordered,
};
use crate::vec3::{Vec3, add_s, unit_s, lemma_normalize_bound, lemma_dot_bound};
use crate::ray::{Ray, ray_ok, T_LIMIT};
use crate::hittable_list::{HittableList, list_ok, list_hit_s};
use crate::material::color_ok;
use crate::camera::{Camera, camera_ok};
use vstd::arithmetic::div_mod::{lemma_div_is_ordered, lemma_fundamental_div_mod_converse,
    lemma_div_pos_is_pos};

verus! {

/// The lower ray-parameter bound used against self-intersection, one
/// thousandth in real units on the fixed-point grid.
pub const EPS_T: i64 = 65;

/// The upper clamp of an output channel before scaling, the
/// fixed-point value of 0.999.
pub const CLAMP_MAX: i64 = 65470;

/// A color with all channels zero.
pub open spec fn black() -> Vec3 {
    Vec3 { x: 0i64, y: 0i64, z: 0i64 }
}

/// The background gradient: white at the bottom of the unit
/// direction's sweep, sky blue at the top, linearly interpolated.
pub open spec fn background_s(r: Ray) -> Vec3 {
    let unit_dir = unit_s(r.dir);
    let t = fmul(32768, unit_dir.y + UNIT);
    add_s(
        scale_lerp(UNIT - t, 65536, 65536, 65536),
        scale_lerp(t, 32768, 45875, 65536),
    )
}

/// A color scaled channelwise: weight times each given channel.
pub open spec fn scale_lerp(w: int, cx: int, cy: int, cz: int) -> Vec3 {
    Vec3 { x: fmul(w, cx) as i64, y: fmul(w, cy) as i64, z: fmul(w, cz) as i64 }
}

/// One interpolated channel stays inside `[0, 1]` for weights within
/// a quantum of the nominal range.
proof fn lemma_lerp_channel(t: int, c: int)
    requires
        -1 <= t <= UNIT + 1,
        1 <= c <= UNIT,
    ensures
        0 <= (UNIT - t) + fmul(t, c) <= UNIT,
{
    let u = UNIT as int;
    if t >= 0 {
        assert(0 <= t * c <= t * u) by (nonlinear_arith)
            requires
                0 <= t,
                1 <= c <= u,
        ;
        assert(t * u == t * u + 0) by (nonlinear_arith);
        lemma_fundamental_div_mod_converse(t * u, u, t, 0);
        lemma_div_is_ordered(t * c, t * u, u);
        lemma_div_pos_is_pos(t * c, u);
        if t > u {
            // t == u + 1: the channel term recovers at least one.
            assert(t * c >= c * u + c) by (nonlinear_arith)
                requires
                    t >= u + 1,
                    c >= 1,
                    u == 65536,
            ;
            assert(c * u + c >= 1 * u + 0) by (nonlinear_arith)
                requires
                    c >= 1,
                    u == 65536,
            ;
            lemma_fundamental_div_mod_converse(1 * u, u, 1, 0);
            lemma_div_is_ordered(1 * u, t * c, u);
        }
    } else {
        // t == -1: the white term gains one, the channel term loses
        // exactly one.
        assert(t * c == -c) by (nonlinear_arith)
            requires
                t == -1,
        ;
        assert((-c) / u == -1) by {
            lemma_fundamental_div_mod_converse(-c, u, -1, u - c);
        }
    }
}

/// The background gradient has all channels inside `[0, 1]`.
pub proof fn lemma_background_ok(r: Ray)
    requires
        ray_ok(r),
    ensures
        color_ok(background_s(r)),
{
    let u = UNIT as int;
    lemma_background_t_range(r);
    let t = fmul(32768, unit_s(r.dir).y + u);
    lemma_lerp_channel(t, 32768);
    lemma_lerp_channel(t, 45875);
    lemma_lerp_channel(t, 65536);
    lemma_lerp_channel(u - t, 65536);
    lemma_white_weight(t);
}

/// The gradient's blend weight stays within a quantum of its nominal
/// range `[0, 1]`.
proof fn lemma_background_t_range(r: Ray)
    requires
        ray_ok(r),
    ensures
        -1 <= fmul(32768, unit_s(r.dir).y + (UNIT as int)) <= UNIT + 1,
{
    let u = UNIT as int;
    lemma_dot_bound(r.dir, r.dir, 0x100_0000, 0x100_0000);
    assert(16777216 * 16777216 == 281474976710656int) by (nonlinear_arith);
    lemma_normalize_bound(r.dir);
    let y = unit_s(r.dir).y as int;
    let t = fmul(32768, y + u);
    assert(-2 <= y + u <= 2 * u + 2);
    assert(32768 * (y + u) >= 32768 * -2 && 32768 * (y + u) <= 32768 * (2 * u + 2))
        by (nonlinear_arith)
        requires
            -2 <= y + u <= 2 * u + 2,
    ;
    assert((-65536) / u == -1) by {
        lemma_fundamental_div_mod_converse(-65536, u, -1, 0);
    }
    lemma_fdiv_ordered(32768 * -2, 32768 * (y + u), u);
    lemma_fdiv_ordered(32768 * (y + u), (u + 1) * u, u);
    assert((u + 1) * u == (u + 1) * u + 0) by (nonlinear_arith);
    lemma_fundamental_div_mod_converse((u + 1) * u, u, u + 1, 0);
}

/// The background gradient's blue channel is exactly one: the white
/// and sky endpoints share a full blue channel, and the two
/// interpolation weights add back to one exactly on the grid.
pub proof fn lemma_background_blue_full(r: Ray)
    requires
        ray_ok(r),
    ensures
        background_s(r).z == UNIT,
{
    let u = UNIT as int;
    lemma_background_t_range(r);
    let t = fmul(32768, unit_s(r.dir).y + u);
    lemma_white_weight(t);
}

/// The white term of the interpolation, `fmul(UNIT - t, UNIT)`, is
/// exactly `UNIT - t`.
proof fn lemma_white_weight(t: int)
    requires
        -1 <= t <= UNIT + 1,
    ensures
        fmul(UNIT - t, 65536) == UNIT - t,
        fmul(t, 65536) == t,
{
    let u = UNIT as int;
    assert((u - t) * u == u * (u - t) + 0) by (nonlinear_arith);
    lemma_fundamental_div_mod_converse((u - t) * u, u, u - t, 0);
    assert(t * u == u * t + 0) by (nonlinear_arith);
    lemma_fundamental_div_mod_converse(t * u, u, t, 0);
}

/// The background gradient for a ray that hits nothing.
pub fn get_background_color(ray: &Ray) -> (c: Vec3)
    requires
        ray_ok(*ray),
    ensures
        c == background_s(*ray),
        color_ok(c),
{
    proof {
        lemma_dot_bound(ray.dir, ray.dir, 0x100_0000, 0x100_0000);
        assert(16777216 * 16777216 == 281474976710656int) by (nonlinear_arith);
        lemma_background_ok(*ray);
    }
    let unit_dir = ray.dir.normalize();
    proof {
        lemma_fmul_bound(32768, unit_dir.y as int + UNIT as int, 32768, 0x4_0002);
        assert(32768 * 262146 == 8590000128int) by (nonlinear_arith);
        let t0 = fmul(32768, unit_dir.y as int + UNIT as int);
        lemma_fmul_bound(UNIT as int - t0, 65536, 0x2_0002, 65536);
        lemma_fmul_bound(t0, 32768, 0x2_0002, 32768);
        lemma_fmul_bound(t0, 45875, 0x2_0002, 45875);
        lemma_fmul_bound(t0, 65536, 0x2_0002, 65536);
        assert(131074 * 65536 == 8590065664int) by (nonlinear_arith);
        assert(131074 * 32768 == 4295032832int) by (nonlinear_arith);
        assert(131074 * 45875 == 6013019750int) by (nonlinear_arith);
    }
    let t = mul_fixed(32768, unit_dir.y + UNIT);
    let white = Vec3::new(mul_fixed(UNIT - t, 65536), mul_fixed(UNIT - t, 65536), mul_fixed(
        UNIT - t, 65536));
    let blue = Vec3::new(mul_fixed(t, 32768), mul_fixed(t, 45875), mul_fixed(t, 65536));
    white.add(blue)
}

/// Channelwise product of two colors.
pub fn mul_colors(a: Vec3, b: Vec3) -> (c: Vec3)
    requires
        color_ok(a),
        color_ok(b),
    ensures
        c.x == fmul(a.x as int, b.x as int),
        c.y == fmul(a.y as int, b.y as int),
        c.z == fmul(a.z as int, b.z as int),
        color_ok(c),
{
    proof {
        lemma_channel_product(a.x as int, b.x as int);
        lemma_channel_product(a.y as int, b.y as int);
        lemma_channel_product(a.z as int, b.z as int);
    }
    Vec3::new(mul_fixed(a.x, b.x), mul_fixed(a.y, b.y), mul_fixed(a.z, b.z))
}

/// The product of channels inside `[0, 1]` stays inside `[0, 1]`.
proof fn lemma_channel_product(a: int, b: int)
    requires
        0 <= a <= UNIT,
        0 <= b <= UNIT,
    ensures
        0 <= fmul(a, b) <= UNIT,
{
    let u = UNIT as int;
    assert(0 <= a * b <= u * u) by (nonlinear_arith)
        requires
            0 <= a <= u,
            0 <= b <= u,
    ;
    lemma_div_pos_is_pos(a * b, u);
    assert(u * u == u * u + 0) by (nonlinear_arith);
    lemma_fundamental_div_mod_converse(u * u, u, u, 0);
    lemma_div_is_ordered(a * b, u * u, u);
}

/// Radiance along a ray: black when the depth budget is exhausted or
/// the ray is absorbed, the attenuated radiance of the scattered ray
/// on a hit, the background gradient on a miss. A scattered ray that
/// leaves the workable volume is treated as absorbed (a fixed-point
/// range guard that no ordinary scene reaches).
pub fn ray_color(ray: &Ray, drawables: &HittableList, depth: i32, rng: &mut
    rand::rngs::ThreadRng) -> (c: Vec3)
    requires
        list_ok(*drawables),
        ray_ok(*ray),
    ensures
        color_ok(c),
        depth <= 0 ==> c == black(),
        depth > 0 && list_hit_s(drawables.objects@, *ray, EPS_T as int, T_LIMIT as int)
            is None ==> c == background_s(*ray),
    decreases depth,
{
    if depth <= 0 {
        return Vec3::zero();
    }
    match drawables.hit(ray, EPS_T, T_LIMIT) {
        Some(hit) => {
            match hit.material.scatter(ray, &hit, rng) {
                Some((scattered, attenuation)) => {
                    if scattered.in_bounds() {
                        let rec = ray_color(&scattered, drawables, depth - 1, rng);
                        mul_colors(attenuation, rec)
                    } else {
                        Vec3::zero()
                    }
                },
                None => Vec3::zero(),
            }
        },
        None => get_background_color(ray),
    }
}

/// The three output channel values for an accumulated color: each
/// channel is averaged over the samples, gamma-corrected by square
/// root, clamped to `[0, 0.999]` and scaled to `[0, 255]`.
pub open spec fn write_color_channel_s(v: int, spp: int) -> int {
    256 * clamp_s(fsqrt(v / spp), 0, CLAMP_MAX as int) / 65536
}

/// Map an accumulated pixel color to its three output channel
/// values.
pub fn write_color(color: Vec3, samples_per_pixel: i64) -> (r: (u8, u8, u8))
    requires
        1 <= samples_per_pixel,
        0 <= color.x <= samples_per_pixel * UNIT,
        0 <= color.y <= samples_per_pixel * UNIT,
        0 <= color.z <= samples_per_pixel * UNIT,
    ensures
        r.0 == write_color_channel_s(color.x as int, samples_per_pixel as int),
        r.1 == write_color_channel_s(color.y as int, samples_per_pixel as int),
        r.2 == write_color_channel_s(color.z as int, samples_per_pixel as int),
        r.0 <= 255,
        r.1 <= 255,
        r.2 <= 255,
{
    let rx = write_channel(color.x, samples_per_pixel);
    let ry = write_channel(color.y, samples_per_pixel);
    let rz = write_channel(color.z, samples_per_pixel);
    (rx, ry, rz)
}

/// One normalized image-plane coordinate: the pixel index plus a
/// jitter inside the pixel, over the image extent.
fn pixel_coord(p: i64, jitter: i64, extent: i64) -> (u: i64)
    requires
        0 <= p < extent,
        2 <= extent <= 0x10000,
        0 <= jitter < UNIT,
    ensures
        u == (p * UNIT + jitter) / (extent - 1),
        0 <= u <= 2 * UNIT,
{
    proof {
        let num = (p as int) * 65536 + jitter as int;
        let e1 = extent as int - 1;
        assert(num <= e1 * (2 * 65536)) by (nonlinear_arith)
            requires
                num == (p as int) * 65536 + jitter as int,
                p as int <= e1,
                0 <= jitter < 65536,
                e1 >= 1,
        ;
        assert(e1 * (2 * 65536) == (2 * 65536) * e1 + 0) by (nonlinear_arith);
        lemma_fundamental_div_mod_converse(e1 * (2 * 65536), e1, 2 * 65536int, 0);
        lemma_div_is_ordered(num, e1 * (2 * 65536), e1);
        lemma_div_pos_is_pos(num, e1);
    }
    (p * UNIT + jitter) / (extent - 1)
}

/// One pixel of the image: `samples_per_pixel` jittered rays through
/// the camera, their radiances accumulated and mapped to output
/// channel values.
pub fn render_pixel(
    camera: &Camera,
    objects: &HittableList,
    x: i64,
    y: i64,
    img_width: i64,
    img_height: i64,
    samples_per_pixel: i64,
    max_depth: i32,
    rng: &mut rand::rngs::ThreadRng,
) -> (r: (u8, u8, u8))
    requires
        camera_ok(*camera),
        list_ok(*objects),
        2 <= img_width <= 0x10000,
        2 <= img_height <= 0x10000,
        0 <= x < img_width,
        0 <= y < img_height,
        1 <= samples_per_pixel <= 0x10000,
    ensures
        r.0 <= 255,
        r.1 <= 255,
        r.2 <= 255,
        // The output is the mapping of an accumulated color over the
        // samples: the do-nothing outputs are ruled out up to the
        // randomness of the draws.
        exists|acc: Vec3|
            {
                &&& 0 <= acc.x <= samples_per_pixel * UNIT
                &&& 0 <= acc.y <= samples_per_pixel * UNIT
                &&& 0 <= acc.z <= samples_per_pixel * UNIT
                &&& r.0 == #[trigger] write_color_channel_s(
                    acc.x as int,
                    samples_per_pixel as int,
                )
                &&& r.1 == write_color_channel_s(acc.y as int, samples_per_pixel as int)
                &&& r.2 == write_color_channel_s(acc.z as int, samples_per_pixel as int)
            },
        // On an empty scene every sample is the background gradient,
        // whose blue channel is exactly one, so the averaged,
        // gamma-corrected pixel saturates its blue channel.
        objects.objects@.len() == 0 && max_depth >= 1 ==> r.2 == 255,
{
    let ghost empty_sky = objects.objects@.len() == 0 && max_depth >= 1;
    let mut sampled = Vec3::zero();
    let mut s: i64 = 0;
    while s < samples_per_pixel
        invariant
            0 <= s <= samples_per_pixel,
            camera_ok(*camera),
            list_ok(*objects),
            2 <= img_width <= 0x10000,
            2 <= img_height <= 0x10000,
            0 <= x < img_width,
            0 <= y < img_height,
            1 <= samples_per_pixel <= 0x10000,
            0 <= sampled.x <= s * UNIT,
            0 <= sampled.y <= s * UNIT,
            0 <= sampled.z <= s * UNIT,
            empty_sky == (objects.objects@.len() == 0 && max_depth >= 1),
            empty_sky ==> sampled.z == s * UNIT,
        decreases samples_per_pixel - s,
    {
        let ju = crate::rng::rand_unit(rng);
        let jv = crate::rng::rand_unit(rng);
        let u = pixel_coord(x, ju, img_width);
        let v = pixel_coord(y, jv, img_height);
        let r = camera.get_ray(u, v);
        let col = ray_color(&r, objects, max_depth, rng);
        proof {
            if empty_sky {
                lemma_empty_scene_misses(objects.objects@, r, EPS_T as int, T_LIMIT as int);
                lemma_background_blue_full(r);
            }
        }
        sampled = sampled.add(col);
        s = s + 1;
    }
    let out = write_color(sampled, samples_per_pixel);
    proof {
        assert(0 <= sampled.x <= samples_per_pixel * UNIT && 0 <= sampled.y
            <= samples_per_pixel * UNIT && 0 <= sampled.z <= samples_per_pixel * UNIT && out.0
            == write_color_channel_s(sampled.x as int, samples_per_pixel as int) && out.1
            == write_color_channel_s(sampled.y as int, samples_per_pixel as int) && out.2
            == write_color_channel_s(sampled.z as int, samples_per_pixel as int));
        if empty_sky {
            lemma_full_white_saturates(samples_per_pixel as int);
        }
    }
    out
}

/// The whole image, row-major from the topmost row: one channel
/// triple per pixel.
pub fn render_image(
    camera: &Camera,
    objects: &HittableList,
    img_width: i64,
    img_height: i64,
    samples_per_pixel: i64,
    max_depth: i32,
    rng: &mut rand::rngs::ThreadRng,
) -> (pixels: Vec<(u8, u8, u8)>)
    requires
        camera_ok(*camera),
        list_ok(*objects),
        2 <= img_width <= 0x10000,
        2 <= img_height <= 0x10000,
        1 <= samples_per_pixel <= 0x10000,
    ensures
        pixels.len() == img_width * img_height,
        // On an empty scene every pixel saturates its blue channel:
        // the whole image is the analytic sky gradient.
        objects.objects@.len() == 0 && max_depth >= 1 ==> forall|i: int|
            0 <= i < pixels@.len() ==> (#[trigger] pixels@[i]).2 == 255,
{
    let ghost empty_sky = objects.objects@.len() == 0 && max_depth >= 1;
    let mut pixels: Vec<(u8, u8, u8)> = Vec::new();
    let mut row: i64 = img_height;
    while row > 0
        invariant
            0 <= row <= img_height,
            camera_ok(*camera),
            list_ok(*objects),
            2 <= img_width <= 0x10000,
            2 <= img_height <= 0x10000,
            1 <= samples_per_pixel <= 0x10000,
            pixels.len() == (img_height - row) * img_width,
            empty_sky == (objects.objects@.len() == 0 && max_depth >= 1),
            empty_sky ==> forall|i: int|
                0 <= i < pixels@.len() ==> (#[trigger] pixels@[i]).2 == 255,
        decreases row,
    {
        let y = row - 1;
        let mut x: i64 = 0;
        while x < img_width
            invariant
                0 <= x <= img_width,
                0 <= y < img_height,
                row == y + 1,
                0 < row <= img_height,
                camera_ok(*camera),
                list_ok(*objects),
                2 <= img_width <= 0x10000,
                2 <= img_height <= 0x10000,
                1 <= samples_per_pixel <= 0x10000,
                pixels.len() == (img_height - row) * img_width + x,
                empty_sky == (objects.objects@.len() == 0 && max_depth >= 1),
                empty_sky ==> forall|i: int|
                    0 <= i < pixels@.len() ==> (#[trigger] pixels@[i]).2 == 255,
            decreases img_width - x,
        {
            let px = render_pixel(camera, objects, x, y, img_width, img_height,
                samples_per_pixel, max_depth, rng);
            pixels.push(px);
            x = x + 1;
        }
        proof {
            assert((img_height - (row - 1)) * img_width == (img_height - row) * img_width
                + img_width) by (nonlinear_arith);
        }
        row = row - 1;
    }
    proof {
        assert((img_height as int) * (img_width as int) == (img_width as int) * (
        img_height as int)) by (nonlinear_arith);
    }
    pixels
}

/// A scene with no members is never hit, so `ray_color` with any
/// depth budget left returns exactly the background gradient: the
/// whole image is the analytic sky.
pub proof fn lemma_empty_scene_misses(objs: Seq<crate::hittable::Sphere>, r: Ray, t_min: int,
    t_max: int)
    requires
        objs.len() == 0,
    ensures
        list_hit_s(objs, r, t_min, t_max) is None,
{
}

/// A pixel accumulated as full white over all its samples comes out
/// at the largest channel value after averaging, gamma correction
/// and clamping.
pub proof fn lemma_full_white_saturates(spp: int)
    requires
        1 <= spp <= 0x10000,
    ensures
        write_color_channel_s(spp * (UNIT as int), spp) == 255,
{
    let u = UNIT as int;
    assert(spp * u == u * spp + 0) by (nonlinear_arith);
    lemma_fundamental_div_mod_converse(spp * u, spp, u, 0);
    assert((spp * u) / spp == u);
    assert(65536 * 65536 == 4294967296int) by (nonlinear_arith);
    crate::fixed::lemma_sqrt_floor_square(65536);
    assert(fsqrt(u) == 65536);
    assert(clamp_s(65536, 0, CLAMP_MAX as int) == 65470);
    lemma_fundamental_div_mod_converse(16760320, 65536, 255, 48640);
}

/// One channel of the output mapping.
fn write_channel(v: i64, spp: i64) -> (r: u8)
    requires
        1 <= spp,
        0 <= v <= spp * UNIT,
    ensures
        r == write_color_channel_s(v as int, spp as int),
        r <= 255,
{
    proof {
        lemma_div_pos_is_pos(v as int, spp as int);
        assert((spp as int) * (UNIT as int) == (UNIT as int) * (spp as int) + 0)
            by (nonlinear_arith);
        lemma_fundamental_div_mod_converse((spp as int) * (UNIT as int), spp as int,
            UNIT as int, 0);
        lemma_div_is_ordered(v as int, (spp as int) * (UNIT as int), spp as int);
    }
    let scaled = v / spp;
    proof {
        if scaled as int > 0 {
            crate::fixed::lemma_sqrt_floor_mono((scaled as int * 65536) as nat, (65536
                * 65536) as nat);
            crate::fixed::lemma_sqrt_floor_square(65536);
        }
    }
    let root = sqrt_fixed(scaled);
    let clamped = clamp_fixed(root, 0, CLAMP_MAX);
    (256 * clamped / 65536) as u8
}

} // verus!
