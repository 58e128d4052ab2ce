//! Modular big-integer arithmetic, supplied by the `crypto_bigint` crate.
//!
//! The engine consumes arbitrary-precision arithmetic as a capability: each
//! operation here takes and returns big-endian byte numerals and carries the
//! mathematical contract that its callers are verified against. Byte lengths
//! are capped so that bit counts fit the machine words the capability uses.

use vstd::prelude::*;
use vstd::arithmetic::power::pow;
use crate::bigint::{be_val, normalized};
use crypto_bigint::{BoxedUint, NonZero, Odd};
use crypto_bigint::modular::{BoxedMontyForm, BoxedMontyParams};

verus! {

/// Largest numeral length, in bytes, the arithmetic capability is asked to
/// handle: eight times this many bits must fit in 32 bits.
pub const MAX_NUMERAL_LEN: usize = 0x0FFF_FFFF;

/// A numeral short enough for the arithmetic capability.
pub open spec fn fits(s: Seq<u8>) -> bool {
    s.len() <= MAX_NUMERAL_LEN
}

/// `base^exp mod modulus`.
///
/// Relies on `crypto_bigint::modular::BoxedMontyForm::{new, pow, retrieve}`:
/// Montgomery exponentiation for an odd modulus, with the operand reduced on
/// entry and the result retrieved reduced.
#[verifier::external_body]
pub(crate) fn mod_pow(base: &Vec<u8>, exp: &Vec<u8>, modulus: &Vec<u8>) -> (r: Vec<u8>)
    requires
        fits(base@),
        fits(exp@),
        fits(modulus@),
        be_val(modulus@) % 2 == 1,
        be_val(modulus@) >= 3,
    ensures
        normalized(r@),
        be_val(r@) < be_val(modulus@),
        be_val(r@) == pow(be_val(base@) as int, be_val(exp@)) % (be_val(modulus@) as int),
{
    let prec = 8 * modulus.len().max(base.len()).max(1) as u32;
    let m = Odd::new(BoxedUint::from_be_slice_truncated(modulus, prec)).unwrap();
    let params = BoxedMontyParams::new(m);
    let b = BoxedUint::from_be_slice_truncated(base, prec);
    let e = BoxedUint::from_be_slice_vartime(exp);
    let v = BoxedMontyForm::new(b, &params).pow(&e).retrieve();
    v.to_be_bytes_trimmed_vartime().into_vec()
}

/// The multiplicative inverse of `a` modulo an odd `modulus`, or `None`
/// when no inverse exists.
///
/// Relies on `crypto_bigint::BoxedUint::invert_odd_mod`: the inverse reduced
/// modulo the modulus when `a` is invertible, `None` otherwise.
#[verifier::external_body]
pub(crate) fn inv_mod(a: &Vec<u8>, modulus: &Vec<u8>) -> (r: Option<Vec<u8>>)
    requires
        fits(a@),
        fits(modulus@),
        be_val(modulus@) % 2 == 1,
        be_val(modulus@) >= 3,
    ensures
        match r {
            Some(w) => {
                &&& normalized(w@)
                &&& be_val(w@) < be_val(modulus@)
                &&& (be_val(a@) * be_val(w@)) % be_val(modulus@) == 1
            },
            None => forall|w: nat|
                w < be_val(modulus@) ==> #[trigger] ((be_val(a@) * w) % be_val(modulus@)) != 1,
        },
{
    let prec = 8 * modulus.len().max(a.len()).max(1) as u32;
    let m = Odd::new(BoxedUint::from_be_slice_truncated(modulus, prec)).unwrap();
    let x = BoxedUint::from_be_slice_truncated(a, prec);
    let w: Option<BoxedUint> = x.invert_odd_mod(&m).into_option();
    w.map(|v| v.to_be_bytes_trimmed_vartime().into_vec())
}

/// `(a * b) mod modulus`.
///
/// Relies on `crypto_bigint::BoxedUint::mul_mod`: the full product reduced
/// by a nonzero modulus.
#[verifier::external_body]
pub(crate) fn mul_mod(a: &Vec<u8>, b: &Vec<u8>, modulus: &Vec<u8>) -> (r: Vec<u8>)
    requires
        fits(a@),
        fits(b@),
        fits(modulus@),
        be_val(modulus@) >= 1,
    ensures
        normalized(r@),
        be_val(r@) < be_val(modulus@),
        be_val(r@) == (be_val(a@) * be_val(b@)) % be_val(modulus@),
{
    let prec = 8 * a.len().max(b.len()).max(1) as u32;
    let x = BoxedUint::from_be_slice_truncated(a, prec);
    let y = BoxedUint::from_be_slice_truncated(b, prec);
    let m = NonZero::new(BoxedUint::from_be_slice_vartime(modulus)).unwrap();
    x.mul_mod(&y, &m).to_be_bytes_trimmed_vartime().into_vec()
}

/// `a mod modulus`.
///
/// Relies on `crypto_bigint::BoxedUint::rem_vartime`: the remainder of
/// division by a nonzero modulus.
#[verifier::external_body]
pub(crate) fn rem(a: &Vec<u8>, modulus: &Vec<u8>) -> (r: Vec<u8>)
    requires
        fits(a@),
        fits(modulus@),
        be_val(modulus@) >= 1,
    ensures
        normalized(r@),
        be_val(r@) < be_val(modulus@),
        be_val(r@) == be_val(a@) % be_val(modulus@),
{
    let x = BoxedUint::from_be_slice_vartime(a);
    let m = NonZero::new(BoxedUint::from_be_slice_vartime(modulus)).unwrap();
    x.rem_vartime(&m).to_be_bytes_trimmed_vartime().into_vec()
}

} // verus!
