//! The signature value: an immutable pair of positive integers.

use vstd::prelude::*;
use crate::Error;
use crate::bigint::{be_val, canon, normalized, trim, ge_byte};

verus! {

/// A DSA signature `(r, s)`. Both components are positive; whether they lie
/// below the subgroup order is checked during verification, not here, since
/// an attacker-supplied signature must be checked rather than trusted.
#[derive(Debug, PartialEq)]
pub struct Signature {
    pub(crate) r: Vec<u8>,
    pub(crate) s: Vec<u8>,
}

impl Signature {
    /// The first component.
    pub open(crate) spec fn r_bytes(&self) -> Seq<u8> {
        self.r@
    }

    /// The second component.
    pub open(crate) spec fn s_bytes(&self) -> Seq<u8> {
        self.s@
    }

    pub open spec fn r_val(&self) -> nat {
        be_val(self.r_bytes())
    }

    pub open spec fn s_val(&self) -> nat {
        be_val(self.s_bytes())
    }

    /// Every reachable value holds canonical, positive numerals.
    #[verifier::type_invariant]
    pub(crate) open spec fn wf(&self) -> bool {
        &&& normalized(self.r@)
        &&& normalized(self.s@)
        &&& self.r_val() >= 1
        &&& self.s_val() >= 1
    }

    /// Assemble a signature from its two components.
    ///
    /// Succeeds exactly when both are positive: a zero component can never
    /// satisfy the verification equations, so it is rejected outright.
    pub fn from_components(r: Vec<u8>, s: Vec<u8>) -> (res: Result<Signature, Error>)
        ensures
            match res {
                Ok(sg) => {
                    &&& be_val(r@) >= 1
                    &&& be_val(s@) >= 1
                    &&& sg.r_bytes() == canon(r@)
                    &&& sg.s_bytes() == canon(s@)
                },
                Err(e) => {
                    &&& e == Error::InvalidKey
                    &&& !(be_val(r@) >= 1 && be_val(s@) >= 1)
                },
            },
    {
        let rt = trim(&r);
        let st = trim(&s);
        if ge_byte(&rt, 1) && ge_byte(&st, 1) {
            Ok(Signature { r: rt, s: st })
        } else {
            Err(Error::InvalidKey)
        }
    }

    /// The component `r`.
    pub fn r(&self) -> (res: &Vec<u8>)
        ensures
            res@ == self.r_bytes(),
    {
        &self.r
    }

    /// The component `s`.
    pub fn s(&self) -> (res: &Vec<u8>)
        ensures
            res@ == self.s_bytes(),
    {
        &self.s
    }
}

impl Clone for Signature {
    /// A clone carries the same two numerals.
    fn clone(&self) -> (res: Self)
        ensures
            res.r_bytes() == self.r_bytes(),
            res.s_bytes() == self.s_bytes(),
    {
        proof {
            use_type_invariant(self);
        }
        Signature { r: self.r.clone(), s: self.s.clone() }
    }
}

} // verus!
