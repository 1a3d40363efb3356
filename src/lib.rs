//! A small stochastic ray tracer on fixed-point arithmetic.
//!
//! Every scalar is an integer count of `1 / UNIT` steps, so that all geometry,
//! shading and image encoding is exact integer arithmetic with stated rounding.

pub mod arith;
pub mod vec3;
pub mod ray;
pub mod camera;
pub mod shapes;
pub mod render;
pub mod image;
pub mod ppm;
