//! The message digest the plain-message entry point uses.

use vstd::prelude::*;
use sha2::Digest;

verus! {

/// The SHA-256 digest of a byte string.
pub uninterp spec fn sha256_of(msg: Seq<u8>) -> Seq<u8>;

/// Relies on `sha2::Sha256` (the FIPS 180-4 hash): the digest is a function
/// of the input bytes alone and is 32 bytes long.
#[verifier::external_body]
pub(crate) fn sha256(msg: &Vec<u8>) -> (r: Vec<u8>)
    ensures
        r@ == sha256_of(msg@),
        r@.len() == 32,
{
    sha2::Sha256::digest(msg.as_slice()).to_vec()
}

} // verus!
