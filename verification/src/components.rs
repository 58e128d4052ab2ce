//! Shared DSA domain parameters.

use vstd::prelude::*;
use crate::Error;
use crate::arith::fits;
use crate::bigint::{be_val, canon, normalized, trim, be_lt, ge_byte, is_odd};

verus! {

/// Structural validity of a candidate parameter triple, over the denoted
/// values: `p` and `q` odd and at least 3, and `1 < g < p`. Oddness is what
/// the modular-arithmetic capability demands of its moduli; primality is the
/// caller's responsibility and is not re-derived here.
pub open spec fn params_ok(p: nat, q: nat, g: nat) -> bool {
    &&& p % 2 == 1
    &&& p >= 3
    &&& q % 2 == 1
    &&& q >= 3
    &&& 1 < g < p
}

/// A candidate triple the constructor accepts: structurally valid, with
/// canonical numerals the arithmetic capability can carry (`g` is shorter
/// than `p` whenever `g < p`, so only `p` and `q` need their own cap).
pub open spec fn constructible(p: Seq<u8>, q: Seq<u8>, g: Seq<u8>) -> bool {
    &&& params_ok(be_val(p), be_val(q), be_val(g))
    &&& fits(canon(p))
    &&& fits(canon(q))
}

/// The immutable domain-parameter triple `(p, q, g)` shared by all keys of
/// a parameter set, held as canonical big-endian numerals.
#[derive(Debug, PartialEq)]
pub struct Components {
    pub(crate) p: Vec<u8>,
    pub(crate) q: Vec<u8>,
    pub(crate) g: Vec<u8>,
}

impl Components {
    /// The prime modulus.
    pub open(crate) spec fn p_bytes(&self) -> Seq<u8> {
        self.p@
    }

    /// The subgroup order.
    pub open(crate) spec fn q_bytes(&self) -> Seq<u8> {
        self.q@
    }

    /// The subgroup generator.
    pub open(crate) spec fn g_bytes(&self) -> Seq<u8> {
        self.g@
    }

    pub open spec fn p_val(&self) -> nat {
        be_val(self.p_bytes())
    }

    pub open spec fn q_val(&self) -> nat {
        be_val(self.q_bytes())
    }

    pub open spec fn g_val(&self) -> nat {
        be_val(self.g_bytes())
    }

    /// Every reachable value holds canonical, capability-sized numerals
    /// forming a structurally valid triple.
    #[verifier::type_invariant]
    pub(crate) open spec fn wf(&self) -> bool {
        &&& normalized(self.p@)
        &&& normalized(self.q@)
        &&& normalized(self.g@)
        &&& fits(self.p@)
        &&& fits(self.q@)
        &&& fits(self.g@)
        &&& params_ok(self.p_val(), self.q_val(), self.g_val())
    }

    /// Validate and assemble a parameter triple.
    ///
    /// Succeeds exactly on structurally valid triples whose canonical
    /// numerals the arithmetic capability can carry.
    pub fn from_components(p: Vec<u8>, q: Vec<u8>, g: Vec<u8>) -> (r: Result<Components, Error>)
        ensures
            match r {
                Ok(c) => {
                    &&& constructible(p@, q@, g@)
                    &&& c.p_bytes() == canon(p@)
                    &&& c.q_bytes() == canon(q@)
                    &&& c.g_bytes() == canon(g@)
                },
                Err(e) => {
                    &&& e == Error::InvalidKey
                    &&& !constructible(p@, q@, g@)
                },
            },
    {
        let pt = trim(&p);
        let qt = trim(&q);
        let gt = trim(&g);
        if pt.len() > crate::arith::MAX_NUMERAL_LEN {
            return Err(Error::InvalidKey);
        }
        let ok = is_odd(&pt) && ge_byte(&pt, 3) && is_odd(&qt) && ge_byte(&qt, 3)
            && ge_byte(&gt, 2) && be_lt(&gt, &pt);
        if ok {
            proof {
                crate::bigint::lemma_lt_len_le(gt@, pt@);
            }
            if qt.len() > crate::arith::MAX_NUMERAL_LEN {
                return Err(Error::InvalidKey);
            }
            Ok(Components { p: pt, q: qt, g: gt })
        } else {
            Err(Error::InvalidKey)
        }
    }

    /// The prime modulus `p`.
    pub fn p(&self) -> (r: &Vec<u8>)
        ensures
            r@ == self.p_bytes(),
    {
        &self.p
    }

    /// The subgroup order `q`.
    pub fn q(&self) -> (r: &Vec<u8>)
        ensures
            r@ == self.q_bytes(),
    {
        &self.q
    }

    /// The subgroup generator `g`.
    pub fn g(&self) -> (r: &Vec<u8>)
        ensures
            r@ == self.g_bytes(),
    {
        &self.g
    }
}

impl Clone for Components {
    /// A clone carries the same three numerals.
    fn clone(&self) -> (r: Self)
        ensures
            r.p_bytes() == self.p_bytes(),
            r.q_bytes() == self.q_bytes(),
            r.g_bytes() == self.g_bytes(),
    {
        proof {
            use_type_invariant(self);
        }
        Components { p: self.p.clone(), q: self.q.clone(), g: self.g.clone() }
    }
}

} // verus!
