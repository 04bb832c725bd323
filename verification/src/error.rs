//! The ways a scan can fail. Every failure is final: the scanner stays where
//! the failed attempt began, so the same failure meets every later attempt.

use vstd::prelude::*;

verus! {

/// Why a byte has no lexical reading where it stands.
#[derive(Debug, Clone, Copy, PartialEq, Eq, Structural)]
pub enum Cause {
    /// A byte that begins no token and is not blank.
    UnexpectedByte(u8),
    /// A carriage return followed by a byte that is not a line feed.
    MalformedLineEnd,
    /// A minus sign that no digit follows.
    DanglingMinus,
}

/// A fatal condition met while scanning.
#[derive(Debug, Clone, Copy, PartialEq, Eq, Structural)]
pub enum ScanError {
    /// A byte with no valid reading in the place where it stands.
    InvalidInput(Cause),
    /// A numeral whose value does not fit in a signed 32-bit integer.
    NumericOverflow,
}

} // verus!
