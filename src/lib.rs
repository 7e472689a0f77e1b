//! Exact core of a ray tracer: bounding boxes, the intersection protocol,
//! a flat collection and a bounding-volume hierarchy over it, and the
//! scattering decisions of the materials.
//!
//! Coordinates are lattice points (`i32` per axis) and ray parameters are
//! exact rationals, so every comparison made by the engine is exact.
use vstd::prelude::*;

pub mod ray;
pub mod aabb;
pub mod hittable;
pub mod rect;
pub mod bvh;
pub mod material;
pub mod scene;
