//! Error taxonomy of the commitment engine and the protocol layer.
//! Construction-time errors fail fast; verification failures are ordinary
//! boolean outcomes and never abort.

use vstd::prelude::*;

verus! {

/// Why a commitment, opening or interpolation request was refused.
#[derive(Clone, Copy, Debug, PartialEq, Eq, Structural)]
pub enum SolvencyError {
    /// The polynomial's degree exceeds the SRS degree bound.
    DegreeExceeded,
    /// Domain and value sequences have different lengths.
    DimensionMismatch,
    /// A claimed evaluation is inconsistent with the polynomial: the
    /// quotient division left a nonzero remainder.
    NonVanishingRemainder,
    /// A point set that must be duplicate-free holds a repeated point.
    InvalidPointSet,
    /// A pairing check returned false.
    VerificationFailure,
}

} // verus!
