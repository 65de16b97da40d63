//! Order-level core of a Monte-Carlo path tracer: bounding boxes over
//! order keys, the bounding volume hierarchy built over them, the closest-hit
//! protocol that composite intersectables follow, Perlin lattice tables and
//! the mapping from work units to pixels.
pub mod aabb;
pub mod bvh;
pub mod closest;
pub mod list;
pub mod perlin;
pub mod pdf;
pub mod pixel;
pub mod transform;
pub mod vulkan;
mod random;
