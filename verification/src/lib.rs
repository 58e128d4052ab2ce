//! Verification of classical DSA signatures over a prime-order subgroup.
//!
//! A [`VerifyingKey`](verifying_key::VerifyingKey) pairs shared domain
//! parameters `(p, q, g)` with a public value `y`; the engine decides whether
//! a signature `(r, s)` is valid for a message digest, and the codec maps a
//! key to and from the standard DER public-key container.

use vstd::prelude::*;

pub mod arith;
pub mod bigint;
pub mod codec;
pub mod components;
pub mod hash;
pub mod sig;
pub mod verifying_key;

verus! {

/// Failure classes for key construction and container decoding.
///
/// A signature that does not verify is not an error: the engine reports it
/// as a plain `false`.
#[derive(Clone, Copy, Debug, PartialEq, Eq, Structural)]
pub enum Error {
    /// A candidate public value failed the lower-bound or subgroup check,
    /// or domain parameters failed structural validation.
    InvalidKey,
    /// The binary key container could not be decoded, or decoded to an
    /// unusable key.
    MalformedContainer,
}

} // verus!
