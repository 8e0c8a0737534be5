//! A verified real-time image-filtering core: Gaussian kernel construction,
//! boundary-aware 2D convolution, a pixel-format bridge, and the bounded
//! FIFO frame pipeline that moves frames from a producer to a consumer.
//!
//! All real-valued quantities (kernel weights, filtered intensities) are held
//! in fixed-point form: an integer numerator over the common denominator
//! [`SCALE`], so every arithmetic step has an exact integer contract.

use vstd::prelude::*;

mod arith;
pub mod convolve;
pub mod frame;
pub mod kernel;
pub mod pipeline;

verus! {

/// Fixed-point denominator: the weight `SCALE` stands for the real number 1.0.
pub const SCALE: u64 = 1_000_000;

/// Errors raised by the pipeline core. All of them are configuration or
/// programming errors surfaced before (or at the first step of) streaming,
/// never per-frame runtime failures.
#[derive(Clone, Copy, Debug, PartialEq, Eq, Structural)]
pub enum PipelineError {
    /// A raw frame did not carry exactly the expected three channels.
    FrameFormat,
    /// The raw kernel weights summed to zero, so no normalization exists.
    DegenerateKernel,
    /// A buffer length did not match the dimensions it was paired with.
    DimensionMismatch,
}

} // verus!
