//! The error reported when an angle value lies outside the accepted range.
//!
//! Angle values themselves are measured in radians and confined to the range
//! `[0, 2*pi)`; they are carried by the floating-point layer around this
//! crate, which validates them and reports this error type.

use vstd::prelude::*;

verus! {

/// The reason why an angle value could not be accepted
#[derive(Debug, PartialEq, Eq, Structural, Clone, Copy)]
pub enum RadiansError {
    /// The given value was not in the range `[0, 2*pi)`
    OutOfRange,
}

} // verus!
