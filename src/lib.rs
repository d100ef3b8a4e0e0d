//! A ray-casting kernel for scenes in any Euclidean dimension: fixed-size
//! vectors, scene containers lifted into a working dimension, and the
//! adaptive multi-resolution sampler that fills an RGBA8 pixel buffer.

pub mod ndvec;
pub mod raster;
pub mod sampler;
pub mod scene;

pub use ndvec::{FixedVector, NdVec};
pub use scene::{DimensionalWorld, World};
