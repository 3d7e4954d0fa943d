//! A small ray tracer: spheres lit by a directional light, rendered either with direct
//! lighting alone or by path tracing with diffuse bounces.
//!
//! All arithmetic is on fixed-point integers (`fixed::ONE` stands for 1), so that every
//! result is exact and reproducible: vectors and colors (`float3`), rays, spheres and the
//! closest-hit search (`ray`), shading (`shade`), color conversion (`color`), and camera
//! rays and pixel sampling (`render`). Randomness is supplied by the caller as plain values.
pub mod fixed;
pub mod float3;
pub mod ray;
pub mod shade;
pub mod color;
pub mod render;
