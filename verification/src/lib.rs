//! The discrete core of a progressive path tracer: how an image is cut into
//! tiles and the tiles into worker batches, how scene primitives are arranged
//! into a bounding volume hierarchy, and how that hierarchy is walked.
//!
//! Nothing here does arithmetic on real numbers. Box corners and ray
//! parameters are totally ordered 64-bit keys that are only ever compared, and
//! intersection tests are handed in by the caller.

pub mod aabb;
pub mod bvh;
pub mod hit;
pub mod key;
pub mod nearest;
pub mod render;
pub mod schedule;
pub mod utility;
