//! The DSA public key and the verification engine.

use vstd::prelude::*;
use vstd::arithmetic::power::pow;
use vstd::arithmetic::div_mod::{lemma_small_mod, lemma_mul_mod_noop_left, lemma_mul_mod_noop_right};
use vstd::arithmetic::mul::{lemma_mul_is_associative, lemma_mul_is_commutative};
use crate::Error;
use crate::arith::{fits, inv_mod, mod_pow, mul_mod, rem};
use crate::bigint::{be_val, bit_len, canon, normalized, trim, be_eq, be_lt, bit_len_div8, ge_byte, lemma_lt_len_le};
use crate::components::Components;
use crate::hash::{sha256, sha256_of};
use crate::sig::Signature;

verus! {

/// `w` is the multiplicative inverse of `s` modulo `q`.
pub open spec fn is_inverse(s: nat, w: nat, q: nat) -> bool {
    w < q && (s * w) % q == 1
}

/// `s` has a multiplicative inverse modulo `q`.
pub open spec fn inverse_exists(s: nat, q: nat) -> bool {
    exists|w: nat| is_inverse(s, w, q)
}

/// The multiplicative inverse of `s` modulo `q`, where one exists.
pub open spec fn inv_mod_spec(s: nat, q: nat) -> nat {
    choose|w: nat| is_inverse(s, w, q)
}

/// Inverses modulo `q` are unique, so [`inv_mod_spec`] names a single value.
pub proof fn lemma_inverse_unique(s: nat, q: nat, w1: nat, w2: nat)
    requires
        q >= 2,
        is_inverse(s, w1, q),
        is_inverse(s, w2, q),
    ensures
        w1 == w2,
{
    let qi = q as int;
    let si = s as int;
    let a = w1 as int;
    let b = w2 as int;
    lemma_small_mod(w1, q);
    lemma_small_mod(w2, q);
    assert((si * a) % qi == 1);
    assert((si * b) % qi == 1);
    lemma_mul_mod_noop_right(a, si * b, qi);
    assert((a * ((si * b) % qi)) % qi == (a * (si * b)) % qi);
    assert(a * 1 == a);
    assert(a % qi == a);
    lemma_mul_is_associative(a, si, b);
    assert((a * (si * b)) == (a * si) * b);
    lemma_mul_mod_noop_left(a * si, b, qi);
    assert(((a * si) * b) % qi == (((a * si) % qi) * b) % qi);
    lemma_mul_is_commutative(a, si);
    assert((a * si) % qi == 1);
    assert((1 * b) % qi == b % qi);
    assert(a == b);
}

/// How many leading digest bytes take part: `min(bitlen(q)/8, |digest|)`.
///
/// Truncating the digest to whole bytes, rather than to the exact bit length
/// of `q`, is the established interoperable behaviour and is preserved here.
pub open spec fn trunc_count(qb: Seq<u8>, digest: Seq<u8>) -> nat {
    let n = bit_len(qb) / 8;
    if n < digest.len() {
        n
    } else {
        digest.len()
    }
}

/// The leftmost truncated digest bytes read as a big-endian integer.
pub open spec fn z_of(qb: Seq<u8>, digest: Seq<u8>) -> nat {
    be_val(digest.take(trunc_count(qb, digest) as int))
}

/// The candidate value the DSA equations produce:
/// `v = ((g^u1 mod p) * (y^u2 mod p) mod p) mod q` with
/// `u1 = z*w mod q` and `u2 = r*w mod q`.
pub open spec fn dsa_v(p: nat, g: nat, y: nat, q: nat, z: nat, r: nat, w: nat) -> int {
    let u1 = (z * w) % q;
    let u2 = (r * w) % q;
    ((pow(g as int, u1) % (p as int)) * (pow(y as int, u2) % (p as int)) % (p as int)) % (q as int)
}

/// The three-valued outcome of the core engine on a digest:
/// `Some(false)` on the range fast-reject, `None` when `s` has no inverse
/// modulo `q`, and otherwise whether `v == r`.
pub open spec fn prehashed_outcome(
    p: nat,
    qb: Seq<u8>,
    g: nat,
    y: nat,
    digest: Seq<u8>,
    r: nat,
    s: nat,
) -> Option<bool> {
    let q = be_val(qb);
    if r >= q || s >= q {
        Some(false)
    } else if !inverse_exists(s, q) {
        None
    } else {
        Some(dsa_v(p, g, y, q, z_of(qb, digest), r, inv_mod_spec(s, q)) == r)
    }
}

/// A signature is valid exactly when the engine decides `Some(true)`.
pub open spec fn verify_ok(
    p: nat,
    qb: Seq<u8>,
    g: nat,
    y: nat,
    digest: Seq<u8>,
    r: nat,
    s: nat,
) -> bool {
    prehashed_outcome(p, qb, g, y, digest, r, s) == Some(true)
}

/// A candidate public value the constructor accepts: at least 2 and a
/// member of the order-`q` subgroup.
pub open spec fn key_values_ok(p: nat, q: nat, y: nat) -> bool {
    &&& y >= 2
    &&& pow(y as int, q) % (p as int) == 1
}

/// [`key_values_ok`] over a parameter triple.
pub open spec fn key_ok(c: Components, y: nat) -> bool {
    key_values_ok(c.p_val(), c.q_val(), y)
}

/// A DSA public key: shared domain parameters plus the public value `y`,
/// validated at construction.
#[derive(Debug, PartialEq)]
pub struct VerifyingKey {
    pub(crate) components: Components,
    pub(crate) y: Vec<u8>,
}

impl VerifyingKey {
    /// The domain parameters this key references.
    pub open(crate) spec fn params(&self) -> Components {
        self.components
    }

    /// The public value, as a canonical numeral.
    pub open(crate) spec fn y_bytes(&self) -> Seq<u8> {
        self.y@
    }

    pub open spec fn y_val(&self) -> nat {
        be_val(self.y_bytes())
    }

    /// Every reachable key passed construction: `y` is canonical, at least
    /// 2, capability-sized, and lies in the order-`q` subgroup.
    #[verifier::type_invariant]
    pub(crate) open spec fn wf(&self) -> bool {
        &&& self.components.wf()
        &&& normalized(self.y@)
        &&& fits(self.y@)
        &&& key_ok(self.components, be_val(self.y@))
    }

    /// Construct a public key from the common components and the public
    /// value, enforcing the lower bound `y >= 2` and the subgroup-membership
    /// check `y^q mod p == 1`. Either failure yields `InvalidKey` and no key.
    pub fn from_components(components: Components, y: Vec<u8>) -> (res: Result<VerifyingKey, Error>)
        ensures
            match res {
                Ok(k) => {
                    &&& key_ok(components, be_val(y@))
                    &&& fits(canon(y@))
                    &&& k.params() == components
                    &&& k.y_bytes() == canon(y@)
                },
                Err(e) => {
                    &&& e == Error::InvalidKey
                    &&& !(key_ok(components, be_val(y@)) && fits(canon(y@)))
                },
            },
    {
        proof {
            use_type_invariant(&components);
        }
        let yt = trim(&y);
        if yt.len() > crate::arith::MAX_NUMERAL_LEN {
            return Err(Error::InvalidKey);
        }
        if !ge_byte(&yt, 2) {
            return Err(Error::InvalidKey);
        }
        let pr = mod_pow(&yt, &components.q, &components.p);
        let one: Vec<u8> = vec![1u8];
        proof {
            assert(one@.drop_last() =~= Seq::<u8>::empty());
            assert(be_val(Seq::<u8>::empty()) == 0);
            assert(be_val(one@) == 1);
        }
        if be_eq(&pr, &one) {
            Ok(VerifyingKey { components, y: yt })
        } else {
            Err(Error::InvalidKey)
        }
    }

    /// DSA common components.
    pub fn components(&self) -> (r: &Components)
        ensures
            *r == self.params(),
    {
        &self.components
    }

    /// DSA public component.
    pub fn y(&self) -> (r: &Vec<u8>)
        ensures
            r@ == self.y_bytes(),
    {
        &self.y
    }

    /// The core engine: decide a signature against a precomputed digest.
    ///
    /// Follows the classical DSA verification equations, with the required
    /// fast rejection of out-of-range components and of an `s` without an
    /// inverse modulo `q`.
    pub fn verify_prehashed(&self, digest: &Vec<u8>, signature: &Signature) -> (res: Option<bool>)
        ensures
            res == prehashed_outcome(
                self.params().p_val(),
                self.params().q_bytes(),
                self.params().g_val(),
                self.y_val(),
                digest@,
                signature.r_val(),
                signature.s_val(),
            ),
    {
        proof {
            use_type_invariant(self);
            use_type_invariant(signature);
        }
        let c = &self.components;
        let ghost qv = be_val(c.q@);
        let ghost sv = be_val(signature.s@);
        let ghost rv = be_val(signature.r@);
        if !be_lt(&signature.r, &c.q) || !be_lt(&signature.s, &c.q) {
            return Some(false);
        }
        proof {
            lemma_lt_len_le(signature.s@, c.q@);
            lemma_lt_len_le(signature.r@, c.q@);
        }
        let w = match inv_mod(&signature.s, &c.q) {
            None => {
                proof {
                    assert(!inverse_exists(sv, qv)) by {
                        if inverse_exists(sv, qv) {
                            let w0 = choose|w0: nat| is_inverse(sv, w0, qv);
                            assert((sv * w0) % qv != 1);
                        }
                    };
                }
                return None;
            },
            Some(w) => w,
        };
        proof {
            lemma_lt_len_le(w@, c.q@);
            assert(is_inverse(sv, be_val(w@), qv));
        }
        let n = bit_len_div8(&c.q);
        let z_len = if n < digest.len() { n } else { digest.len() };
        let mut z: Vec<u8> = Vec::new();
        let mut i: usize = 0;
        while i < z_len
            invariant
                0 <= i <= z_len <= digest@.len(),
                z@ =~= digest@.take(i as int),
            decreases z_len - i,
        {
            z.push(digest[i]);
            proof {
                assert(z@ =~= digest@.take(i + 1));
            }
            i = i + 1;
        }
        let u1 = mul_mod(&z, &w, &c.q);
        let u2 = mul_mod(&signature.r, &w, &c.q);
        proof {
            lemma_lt_len_le(u1@, c.q@);
            lemma_lt_len_le(u2@, c.q@);
        }
        let t1 = mod_pow(&c.g, &u1, &c.p);
        let t2 = mod_pow(&self.y, &u2, &c.p);
        proof {
            lemma_lt_len_le(t1@, c.p@);
            lemma_lt_len_le(t2@, c.p@);
        }
        let t3 = mul_mod(&t1, &t2, &c.p);
        proof {
            lemma_lt_len_le(t3@, c.p@);
        }
        let v = rem(&t3, &c.q);
        let eq = be_eq(&v, &signature.r);
        proof {
            let wv = be_val(w@);
            lemma_inverse_unique(sv, qv, wv, inv_mod_spec(sv, qv));
            assert(z@ == digest@.take(trunc_count(c.q@, digest@) as int));
            assert(be_val(v@) == dsa_v(
                be_val(c.p@), be_val(c.g@), be_val(self.y@), qv, z_of(c.q@, digest@), rv, wv,
            ));
        }
        Some(eq)
    }

    /// Decide a signature against a precomputed digest, as a boolean:
    /// every malformed input surfaces as invalid, never as a crash.
    pub fn verify_prehash(&self, digest: &Vec<u8>, signature: &Signature) -> (ok: bool)
        ensures
            ok == verify_ok(
                self.params().p_val(),
                self.params().q_bytes(),
                self.params().g_val(),
                self.y_val(),
                digest@,
                signature.r_val(),
                signature.s_val(),
            ),
    {
        match self.verify_prehashed(digest, signature) {
            Some(true) => true,
            _ => false,
        }
    }

    /// Decide a signature against a raw message, digesting it with SHA-256
    /// first. Equal digests decide exactly as [`Self::verify_prehash`] does.
    pub fn verify(&self, msg: &Vec<u8>, signature: &Signature) -> (ok: bool)
        ensures
            ok == verify_ok(
                self.params().p_val(),
                self.params().q_bytes(),
                self.params().g_val(),
                self.y_val(),
                sha256_of(msg@),
                signature.r_val(),
                signature.s_val(),
            ),
    {
        let digest = sha256(msg);
        self.verify_prehash(&digest, signature)
    }
}

/// Verification is a pure function of key, digest and signature: two runs
/// on identical inputs decide identically.
pub proof fn lemma_verify_deterministic(
    p: nat,
    qb: Seq<u8>,
    g: nat,
    y: nat,
    digest: Seq<u8>,
    r: nat,
    s: nat,
    o1: Option<bool>,
    o2: Option<bool>,
)
    requires
        o1 == prehashed_outcome(p, qb, g, y, digest, r, s),
        o2 == prehashed_outcome(p, qb, g, y, digest, r, s),
    ensures
        o1 == o2,
{
}

/// A signature component at or above the subgroup order is rejected
/// outright, before any arithmetic.
pub proof fn lemma_range_reject(p: nat, qb: Seq<u8>, g: nat, y: nat, digest: Seq<u8>, r: nat, s: nat)
    requires
        r >= be_val(qb) || s >= be_val(qb),
    ensures
        prehashed_outcome(p, qb, g, y, digest, r, s) == Some(false),
{
}

/// Only the leading `bitlen(q)/8` digest bytes take part: digests that
/// agree there, however they differ beyond, decide identically.
pub proof fn lemma_digest_truncation(
    p: nat,
    qb: Seq<u8>,
    g: nat,
    y: nat,
    d1: Seq<u8>,
    d2: Seq<u8>,
    r: nat,
    s: nat,
)
    requires
        bit_len(qb) / 8 <= d1.len(),
        bit_len(qb) / 8 <= d2.len(),
        d1.take((bit_len(qb) / 8) as int) == d2.take((bit_len(qb) / 8) as int),
    ensures
        prehashed_outcome(p, qb, g, y, d1, r, s) == prehashed_outcome(p, qb, g, y, d2, r, s),
{
    assert(trunc_count(qb, d1) == trunc_count(qb, d2));
    assert(z_of(qb, d1) == z_of(qb, d2));
}

} // verus!
