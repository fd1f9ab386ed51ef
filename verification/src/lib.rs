//! Cryptographic core of a STARK-style proof system: prime-field arithmetic,
//! polynomials, Merkle commitments, a Fiat-Shamir transcript and the FRI
//! low-degree test.
//!
//! * [`field`]: the integers modulo a prime of up to 64 bits, by default
//!   `2^64 - 2^32 + 1`, which is proved prime; inverses by the extended
//!   Euclidean algorithm; roots of unity of the default field.
//! * [`poly`]: univariate polynomials with division, interpolation and
//!   the colinearity test, and multivariate polynomials.
//! * [`merkle`]: binary Merkle trees over byte strings.
//! * [`proof_object`] and [`proof_stream`]: the objects of a transcript,
//!   their canonical encoding, and the transcript with the challenges
//!   that are derived from it.
//! * [`fri`]: the prover and the verifier of the FRI protocol, with the
//!   proof that the verifier accepts what the prover writes for the
//!   values of a polynomial of low degree.
//!
//! Every function is verified against its contract. The two hash
//! functions are computed by the `blake2` and `sha3` crates; [`hash`]
//! gives their digests a name and holds the only functions whose
//! contracts are trusted.
pub mod bytes;
pub mod error;
pub mod field;
pub mod fri;
pub mod hash;
pub mod merkle;
pub mod poly;
pub mod proof_object;
pub mod proof_stream;
