//! The two hash functions of the protocol. Their digests are computed by the
//! `blake2` and `sha3` crates; here each digest has a name, and the functions
//! that call the crates are trusted to return the named value.
use vstd::prelude::*;

use blake2::Blake2b512;
use sha3::{Digest, Sha3_256};

verus! {

/// The BLAKE2b-512 digest of a byte string.
pub uninterp spec fn blake2b512(data: Seq<u8>) -> Seq<u8>;

/// The SHA3-256 digest of a byte string.
pub uninterp spec fn sha3_256(data: Seq<u8>) -> Seq<u8>;

/// Calls `Blake2b512::digest` of the `blake2` crate. Trusted: the result is
/// the BLAKE2b-512 digest of `data`, which is 64 bytes long.
#[verifier::external_body]
pub(crate) fn blake2b512_digest(data: &[u8]) -> (out: Vec<u8>)
    ensures
        out@ == blake2b512(data@),
        out@.len() == 64,
{
    Blake2b512::digest(data).to_vec()
}

/// Calls `Sha3_256::digest` of the `sha3` crate. Trusted: the result is the
/// SHA3-256 digest of `data`, which is 32 bytes long.
#[verifier::external_body]
pub(crate) fn sha3_256_digest(data: &[u8]) -> (out: Vec<u8>)
    ensures
        out@ == sha3_256(data@),
        out@.len() == 32,
{
    Sha3_256::digest(data).to_vec()
}

} // verus!
