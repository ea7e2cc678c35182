//! The failure values of the kernel boundary.

use vstd::prelude::*;

verus! {

/// Why a kernel refused to produce a result.
///
/// Shape violations cover ragged rows, empty input where nonempty is
/// required, a rectangular matrix where a square one is required, and
/// mismatched operand dimensions. Overflow reports that an exact intermediate
/// fraction had no reduced representative in the machine range; it has no
/// analogue in approximate arithmetic, where precision is lost silently
/// instead. Numeric conditions such as a zero pivot are deliberately not
/// errors: they propagate as undefined (zero-denominator) entries of the
/// result.
#[derive(Clone, Copy, Debug, PartialEq, Eq, Structural)]
pub enum MatError {
    ShapeViolation,
    Overflow,
}

impl MatError {
    /// A short human-readable description of the failure.
    pub fn message(&self) -> (r: &'static str)
        ensures
            self is ShapeViolation ==> r@ == "malformed parameter"@,
            self is Overflow ==> r@ == "exact arithmetic overflow"@,
    {
        match self {
            MatError::ShapeViolation => "malformed parameter",
            MatError::Overflow => "exact arithmetic overflow",
        }
    }
}

} // verus!
