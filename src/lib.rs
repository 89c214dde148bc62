//! The verified core of a Monte Carlo path tracer: bounding boxes, the
//! bounding volume hierarchy that accelerates ray queries, the texture and
//! path-length rules, and the order in which pixels are rendered.
pub mod aabb;
pub mod bvh;
pub mod path;
pub mod render;
pub mod texture;

pub use aabb::{Point3, AABB};
pub use bvh::{BvhError, BvhNode, Child, Hit, BVH};
