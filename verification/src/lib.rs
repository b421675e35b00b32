//! A recursive path tracer over fixed-point arithmetic.
//!
//! Every real quantity of the renderer (coordinates, colors, ray
//! parameters) is held as a signed 64-bit integer scaled by `UNIT`:
//! the raw value `n` stands for the real number `n / UNIT`. All of
//! the rendering logic is exact integer arithmetic and is verified.

pub mod fixed;
pub mod vec3;
pub mod ray;
pub mod rng;
pub mod hittable;
pub mod hittable_list;
pub mod material;
pub mod camera;
pub mod render;
