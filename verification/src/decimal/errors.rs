//! Error codes for the recoverable conditions of [`crate::decimal::Decimal`].

use vstd::prelude::*;

verus! {

/// The recoverable failures: parse rejections, scale mismatches, and
/// precision-range exhaustion.  Fatal conditions (overflow, division by
/// zero) are excluded by the operations' preconditions instead.
#[derive(Clone, Copy, PartialEq, Eq, Structural, Debug)]
pub enum ErrorCode {
    /// Unable to parse input.
    ParseError,
    /// Unable to parse empty input.
    ParseErrorEmpty,
    /// Unable to parse non base 10 input.
    ParseErrorBase10,
    /// Scale is different.
    DifferentScale,
    /// Exceeds allowable range for value.
    ExceedsRange,
    /// Exceeds allowable range for precision.
    ExceedsPrecisionRange,
    /// Signed decimals not supported for this function.
    SignedDecimalsNotSupported,
}

} // verus!
