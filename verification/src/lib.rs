//! A verified ray-tracing core over fixed-point arithmetic: vectors, rays and
//! bounding boxes; spheres and a bounding-volume hierarchy with a proved
//! nearest-hit search; diffuse, metallic and refractive scattering; a
//! recursive path tracer with a bounded bounce budget; and the pixel pipeline
//! from traced samples to quantized display bytes. Randomness enters through
//! one trusted draw; channels, threads and the display surface stay outside
//! the library.
use vstd::prelude::*;

pub mod aabb;
pub mod bvh;
pub mod camera;
pub mod color;
pub mod fixed;
pub mod hittable;
pub mod hittable_list;
pub mod interval;
pub mod laws;
pub mod material;
pub mod ray;
pub mod renderer;
pub mod scenes;
pub mod sphere;
pub mod util;
pub mod vec3;

verus! {

} // verus!
