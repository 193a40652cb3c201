//! The ways in which a quantisation can fail.

use vstd::prelude::*;

verus! {

/// A failure of the quantisation pipeline. None is retried; each reaches the
/// caller as it is.
#[derive(Clone, Copy, Debug, PartialEq, Eq, Structural)]
pub enum KmeansError {
    /// No compatible compute accelerator was found.
    DeviceUnavailable,
    /// An accelerator was found, but no logical device or queue could be made.
    DeviceInitFailure,
    /// The number of clusters is zero or exceeds the number of pixels.
    InvalidK,
    /// The buffer read back from the device could not be mapped, or is not a
    /// whole padded image.
    ReadbackFailure,
    /// A kernel failed to build on the accelerator.
    ShaderCompileFailure,
}

} // verus!
