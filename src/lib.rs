//! The scene intersection and shading core of a path tracer: axis-aligned
//! boxes and their slab test, spheres, a linear list of surfaces, a
//! bounding-volume hierarchy over them, three materials, and the recursive
//! color integrator.
//!
//! Every quantity is a fixed-point integer (`scalar::ONE` stands for 1.0)
//! that saturates at `±scalar::LIMIT`, the stand-in for the infinities, so
//! that each operation has an exact meaning the contracts can state.
#![allow(non_camel_case_types)]
use vstd::prelude::*;

pub mod scalar;
pub mod utils;
pub mod vec3;
pub mod interval;
pub mod ray;
pub mod aabb;
pub mod material;
pub mod hittable;
pub mod bvh;
pub mod camera;

verus! {

} // verus!
