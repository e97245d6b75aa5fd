//! Conversion of decoded planar YUV 4:2:0 frames into interleaved RGB8 buffers.
//!
//! Two converters are provided: a pixel-by-pixel scalar reference
//! (`write_rgb8_scalar`) and a lane-batched implementation
//! (`write_rgb8_f32x8`) that processes eight pixels at a time, the way a
//! SIMD kernel walks a row.  Both are specified against the same
//! mathematical model of the BT.601 transform, evaluated in
//! single-precision fused-multiply-add arithmetic; the model is written
//! over exact scaled integers, so the two postconditions pin every output
//! byte and prove the converters byte-identical.

pub mod convert;
pub mod props;
pub mod rounding;
pub mod transform;

pub use convert::{write_rgb8_f32x8, write_rgb8_f32x8_row, write_rgb8_scalar};
