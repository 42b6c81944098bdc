//! Typed failures of the conversion layer.

use vstd::prelude::*;

verus! {

/// A conversion failure; no partial results accompany one.
#[derive(Clone, Copy, Debug, PartialEq, Eq, Structural)]
pub enum Error {
    /// A big-integer coefficient is not a valid residue for the ring's
    /// modulus.
    OutOfRangeConversion,
    /// The plaintext modulus is zero when computing the scheme parameter.
    ZeroModulus,
    /// A documented caller contract does not hold: a malformed buffer shape,
    /// a discarded chunk word that is not zero, a coefficient word outside
    /// its modulus, a ring too small for the data, or a quotient wider than
    /// the target limb count.
    PreconditionViolation,
}

} // verus!
