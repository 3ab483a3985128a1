//! The closed set of failures the engine reports. Every validation error
//! is detected before any state is mutated.

use vstd::prelude::*;

verus! {

#[derive(Clone, Copy, PartialEq, Eq, Structural, Debug)]
pub enum Error {
    /// A pixel buffer's length does not equal width times height.
    DimensionMismatch,
    /// An image exceeds the 64x64 / 4096-pixel ceiling.
    SizeLimitExceeded,
    /// An optimizer or ditherer name outside the recognized closed set.
    UnknownStrategy,
    /// Defensive marker for states the library's invariants rule out, such
    /// as a hue outside [0, 360) reaching sector reconstruction; never
    /// produced by the verified operations.
    InvariantViolation,
}

} // verus!
