//! The ways in which an operation of this library can fail.
use vstd::prelude::*;

verus! {

/// Why an operation was refused.
#[derive(Clone, Copy, Debug, PartialEq, Eq, Structural)]
pub enum Error {
    /// A modular inverse was asked of a value that shares a divisor with the modulus.
    NotInvertible,
    /// A polynomial was divided by the zero polynomial.
    DivisionByZero,
    /// Interpolation nodes are not pairwise distinct.
    DuplicateDomain,
    /// A root of unity was asked for an order that the field does not offer.
    UnsupportedOrder,
    /// An object was pulled from a transcript whose cursor stands at the end.
    TranscriptExhausted,
    /// A transcript object is not of the expected kind or is badly encoded.
    MalformedProof,
    /// More distinct indices were asked for than can be sampled.
    InsufficientEntropy,
}

} // verus!
