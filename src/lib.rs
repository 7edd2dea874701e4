//! A software rasterizer core: pixel storage, the depth ordering of stored
//! depth samples, and the integer side of triangle scan conversion (culling,
//! bounding boxes, the depth test and write-back).
//!
//! Colour and depth images share one representation, a grid of 32-bit
//! words; a depth word is the bit pattern of a single-precision sample.
//! The stages that compute in floating point (vertex and fragment shading,
//! barycentric coverage, interpolation) reach the scan loop as closures.
pub mod convert;
pub mod depth;
pub mod image;
pub mod pipeline;

pub use crate::image::Image;
pub use crate::pipeline::{CullFace, Facing, Pipeline, PipelineOptions, PixelRect, Primitive};
