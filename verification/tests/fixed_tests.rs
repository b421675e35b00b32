use raytracing::fixed::{UNIT, mul_fixed, div_fixed, sqrt_fixed, clamp_fixed, isqrt_u128};
use raytracing::vec3::Vec3;

#[test]
fn products_and_quotients_floor_to_the_grid() {
    // 1.5 * 2 == 3.
    assert_eq!(mul_fixed(98304, 2 * UNIT), 3 * UNIT);
    // (-1.5) * 0.5 == -0.75.
    assert_eq!(mul_fixed(-98304, 32768), -49152);
    // 3 / 2 == 1.5.
    assert_eq!(div_fixed(3 * UNIT, 2 * UNIT), 98304);
    // Flooring rounds toward minus infinity.
    assert_eq!(div_fixed(-1, UNIT), -1);
}

#[test]
fn square_roots_are_exact_on_squares() {
    assert_eq!(sqrt_fixed(UNIT), UNIT);
    assert_eq!(sqrt_fixed(4 * UNIT), 2 * UNIT);
    assert_eq!(sqrt_fixed(0), 0);
    // 0.25 has root 0.5.
    assert_eq!(sqrt_fixed(16384), 32768);
    assert_eq!(isqrt_u128(17), 4);
    assert_eq!(isqrt_u128(16), 4);
    assert_eq!(isqrt_u128(15), 3);
}

#[test]
fn clamping_holds_the_bounds() {
    assert_eq!(clamp_fixed(5, 0, 3), 3);
    assert_eq!(clamp_fixed(-5, 0, 3), 0);
    assert_eq!(clamp_fixed(2, 0, 3), 2);
}

#[test]
fn vector_arithmetic_is_componentwise() {
    let a = Vec3::new(UNIT, 2 * UNIT, -UNIT);
    let b = Vec3::new(UNIT, -UNIT, UNIT);
    assert_eq!(a.add(b), Vec3::new(2 * UNIT, UNIT, 0));
    assert_eq!(a.sub(b), Vec3::new(0, 3 * UNIT, -2 * UNIT));
    assert_eq!(a.neg(), Vec3::new(-UNIT, -2 * UNIT, UNIT));
    assert_eq!(a.scale(32768), Vec3::new(32768, UNIT, -32768));
    // dot((1,2,-1),(1,-1,1)) == -2.
    assert_eq!(a.dot(b), -2 * UNIT);
    assert_eq!(a.magnitude_squared(), 6 * UNIT);
}

#[test]
fn normalize_divides_by_the_magnitude() {
    let v = Vec3::new(0, 0, -3 * UNIT);
    assert_eq!(v.normalize(), Vec3::new(0, 0, -UNIT));
    let w = Vec3::new(2 * UNIT, 0, 0);
    assert_eq!(w.normalize(), Vec3::new(UNIT, 0, 0));
}
