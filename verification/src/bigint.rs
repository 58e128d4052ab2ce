//! Big-endian byte numerals.
//!
//! Large unsigned integers are carried as big-endian byte strings. A
//! canonical ("normalized") numeral has no leading zero byte; zero is the
//! empty string. The spec function [`be_val`] gives the denoted value, and
//! the executable helpers here compare and normalize numerals.

use vstd::prelude::*;
use vstd::arithmetic::power::{
    pow, lemma_pow0, lemma_pow1, lemma_pow_adds, lemma_pow_positive, lemma_pow_increases,
};
use vstd::arithmetic::div_mod::lemma_fundamental_div_mod_converse;

verus! {

/// The natural number denoted by a big-endian byte string.
pub open spec fn be_val(s: Seq<u8>) -> nat
    decreases s.len(),
{
    if s.len() == 0 {
        0
    } else {
        be_val(s.drop_last()) * 256 + s.last() as nat
    }
}

/// A canonical numeral: no leading zero byte (zero is the empty string).
pub open spec fn normalized(s: Seq<u8>) -> bool {
    s.len() == 0 || s[0] != 0
}

/// Appending byte strings composes their values positionally.
pub proof fn lemma_be_val_append(a: Seq<u8>, b: Seq<u8>)
    ensures
        be_val(a + b) == be_val(a) * pow(256, b.len()) + be_val(b),
    decreases b.len(),
{
    if b.len() == 0 {
        assert(a + b =~= a);
        lemma_pow0(256);
    } else {
        let b0 = b.drop_last();
        lemma_be_val_append(a, b0);
        assert((a + b).drop_last() =~= a + b0);
        assert((a + b).last() == b.last());
        lemma_pow_adds(256, b0.len(), 1);
        lemma_pow1(256);
        assert(pow(256, b.len()) == pow(256, b0.len()) * 256);
        assert((be_val(a) * pow(256, b0.len()) + be_val(b0)) * 256
            == be_val(a) * (pow(256, b0.len()) * 256) + be_val(b0) * 256) by (nonlinear_arith);
    }
}

/// Every byte string of length `n` denotes a value below `256^n`.
pub proof fn lemma_be_val_bound(s: Seq<u8>)
    ensures
        be_val(s) < pow(256, s.len()),
    decreases s.len(),
{
    lemma_pow_positive(256, s.len());
    if s.len() == 0 {
        lemma_pow0(256);
    } else {
        let s0 = s.drop_last();
        lemma_be_val_bound(s0);
        lemma_pow_adds(256, s0.len(), 1);
        lemma_pow1(256);
        assert(be_val(s0) * 256 + 255 < pow(256, s0.len()) * 256) by (nonlinear_arith)
            requires be_val(s0) < pow(256, s0.len()),
        ;
    }
}

/// A canonical, nonempty numeral reaches the weight of its leading byte.
pub proof fn lemma_be_val_lower(s: Seq<u8>)
    requires
        s.len() > 0,
        s[0] != 0,
    ensures
        be_val(s) >= pow(256, (s.len() - 1) as nat),
{
    let head = seq![s[0]];
    let tail = s.skip(1);
    assert(s =~= head + tail);
    lemma_be_val_append(head, tail);
    assert(head.drop_last() =~= Seq::<u8>::empty());
    assert(be_val(Seq::<u8>::empty()) == 0);
    assert(be_val(head) == s[0]);
    lemma_pow_positive(256, tail.len());
    assert(be_val(head) * pow(256, tail.len()) >= pow(256, tail.len())) by (nonlinear_arith)
        requires be_val(head) >= 1, pow(256, tail.len()) >= 1,
    ;
}

/// The parity of a numeral is the parity of its last byte.
pub proof fn lemma_be_val_parity(s: Seq<u8>)
    requires
        s.len() > 0,
    ensures
        be_val(s) % 2 == s.last() % 2,
{
    let f = be_val(s.drop_last());
    assert(be_val(s) == f * 256 + s.last());
    assert((f * 256 + s.last()) % 2 == s.last() % 2) by (nonlinear_arith);
}

/// Of two equal-length strings agreeing up to position `i` and ordered
/// there, the first denotes the smaller value.
proof fn lemma_be_val_lex(a: Seq<u8>, b: Seq<u8>, i: int)
    requires
        a.len() == b.len(),
        0 <= i < a.len(),
        a.take(i) == b.take(i),
        a[i] < b[i],
    ensures
        be_val(a) < be_val(b),
{
    let n = a.len() as int;
    let k = (n - i - 1) as nat;
    let pa = a.take(i + 1);
    let pb = b.take(i + 1);
    assert(a =~= pa + a.skip(i + 1));
    assert(b =~= pb + b.skip(i + 1));
    lemma_be_val_append(pa, a.skip(i + 1));
    lemma_be_val_append(pb, b.skip(i + 1));
    assert(a.skip(i + 1).len() == k);
    assert(b.skip(i + 1).len() == k);
    lemma_be_val_bound(a.skip(i + 1));
    assert(pa.drop_last() =~= a.take(i));
    assert(pb.drop_last() =~= b.take(i));
    let t = be_val(a.take(i));
    assert(be_val(pa) == t * 256 + a[i]);
    assert(be_val(pb) == t * 256 + b[i]);
    lemma_pow_positive(256, k);
    assert(be_val(pa) * pow(256, k) + be_val(a.skip(i + 1)) < be_val(pb) * pow(256, k))
        by (nonlinear_arith)
        requires
            be_val(a.skip(i + 1)) < pow(256, k),
            be_val(pb) >= be_val(pa) + 1,
            pow(256, k) >= 1,
    ;
    lemma_be_val_bound(b.skip(i + 1));
}

/// The canonical form of a numeral: its leading zero bytes removed.
pub open spec fn canon(s: Seq<u8>) -> Seq<u8>
    decreases s.len(),
{
    if s.len() > 0 && s[0] == 0 {
        canon(s.skip(1))
    } else {
        s
    }
}

/// Canonicalizing preserves the value and never lengthens the numeral.
pub proof fn lemma_canon(s: Seq<u8>)
    ensures
        normalized(canon(s)),
        be_val(canon(s)) == be_val(s),
        canon(s).len() <= s.len(),
    decreases s.len(),
{
    if s.len() > 0 && s[0] == 0 {
        lemma_canon(s.skip(1));
        assert(s =~= seq![s[0]] + s.skip(1));
        lemma_be_val_append(seq![s[0]], s.skip(1));
        assert(seq![s[0]].drop_last() =~= Seq::<u8>::empty());
        assert(be_val(Seq::<u8>::empty()) == 0);
        assert(be_val(seq![s[0]]) == 0);
        lemma_pow_positive(256, s.skip(1).len());
    }
}

/// A prefix of zeros places the canonical form at its end.
proof fn lemma_canon_skip(s: Seq<u8>, i: int)
    requires
        0 <= i <= s.len(),
        forall|j: int| 0 <= j < i ==> s[j] == 0,
        i < s.len() ==> s[i] != 0,
    ensures
        canon(s) == s.skip(i),
    decreases i,
{
    if i == 0 {
        assert(s.skip(0) =~= s);
    } else {
        lemma_canon_skip(s.skip(1), i - 1);
        assert(s.skip(1).skip(i - 1) =~= s.skip(i));
    }
}

/// A smaller canonical numeral is never longer.
pub proof fn lemma_lt_len_le(a: Seq<u8>, b: Seq<u8>)
    requires
        normalized(a),
        normalized(b),
        be_val(a) < be_val(b),
    ensures
        a.len() <= b.len(),
{
    if a.len() > b.len() {
        lemma_be_val_lower(a);
        lemma_be_val_bound(b);
        lemma_pow_increases(256, b.len(), (a.len() - 1) as nat);
    }
}

/// Strip leading zero bytes, keeping the denoted value.
pub fn trim(v: &Vec<u8>) -> (r: Vec<u8>)
    ensures
        r@ == canon(v@),
        normalized(r@),
        be_val(r@) == be_val(v@),
        r@.len() <= v@.len(),
{
    proof {
        lemma_canon(v@);
    }
    let mut i: usize = 0;
    while i < v.len() && v[i] == 0
        invariant
            0 <= i <= v@.len(),
            forall|j: int| 0 <= j < i ==> v@[j] == 0,
        decreases v@.len() - i,
    {
        i = i + 1;
    }
    let mut r: Vec<u8> = Vec::new();
    let mut j: usize = i;
    while j < v.len()
        invariant
            i <= j <= v@.len(),
            r@ =~= v@.subrange(i as int, j as int),
        decreases v@.len() - j,
    {
        r.push(v[j]);
        proof {
            assert(r@ =~= v@.subrange(i as int, j + 1));
        }
        j = j + 1;
    }
    proof {
        assert(r@ =~= v@.skip(i as int));
        lemma_canon_skip(v@, i as int);
    }
    r
}

/// Decide `be_val(a) < be_val(b)` for canonical numerals.
pub fn be_lt(a: &Vec<u8>, b: &Vec<u8>) -> (r: bool)
    requires
        normalized(a@),
        normalized(b@),
    ensures
        r == (be_val(a@) < be_val(b@)),
{
    if a.len() != b.len() {
        proof {
            if a@.len() < b@.len() {
                lemma_be_val_bound(a@);
                lemma_be_val_lower(b@);
                lemma_pow_increases(256, a@.len(), (b@.len() - 1) as nat);
            } else {
                lemma_be_val_bound(b@);
                lemma_be_val_lower(a@);
                lemma_pow_increases(256, b@.len(), (a@.len() - 1) as nat);
            }
        }
        return a.len() < b.len();
    }
    let mut i: usize = 0;
    while i < a.len()
        invariant
            a@.len() == b@.len(),
            0 <= i <= a@.len(),
            a@.take(i as int) == b@.take(i as int),
        decreases a@.len() - i,
    {
        if a[i] < b[i] {
            proof {
                lemma_be_val_lex(a@, b@, i as int);
            }
            return true;
        }
        if a[i] > b[i] {
            proof {
                lemma_be_val_lex(b@, a@, i as int);
            }
            return false;
        }
        proof {
            assert(a@.take(i + 1) =~= a@.take(i as int).push(a@[i as int]));
            assert(b@.take(i + 1) =~= b@.take(i as int).push(b@[i as int]));
        }
        i = i + 1;
    }
    proof {
        assert(a@ =~= a@.take(a@.len() as int));
        assert(b@ =~= b@.take(b@.len() as int));
    }
    false
}

/// Decide `be_val(a) == be_val(b)` for canonical numerals.
pub fn be_eq(a: &Vec<u8>, b: &Vec<u8>) -> (r: bool)
    requires
        normalized(a@),
        normalized(b@),
    ensures
        r == (be_val(a@) == be_val(b@)),
{
    !be_lt(a, b) && !be_lt(b, a)
}

/// Decide `be_val(v) >= k` for a canonical numeral and a one-byte bound.
pub fn ge_byte(v: &Vec<u8>, k: u8) -> (r: bool)
    requires
        normalized(v@),
    ensures
        r == (be_val(v@) >= k),
{
    if v.len() >= 2 {
        proof {
            lemma_be_val_lower(v@);
            lemma_pow_increases(256, 1, (v@.len() - 1) as nat);
            lemma_pow1(256);
        }
        true
    } else if v.len() == 1 {
        proof {
            assert(v@.drop_last() =~= Seq::<u8>::empty());
            assert(be_val(Seq::<u8>::empty()) == 0);
        }
        v[0] >= k
    } else {
        k == 0
    }
}

/// Decide whether a canonical numeral is odd.
pub fn is_odd(v: &Vec<u8>) -> (r: bool)
    ensures
        r == (be_val(v@) % 2 == 1),
{
    if v.len() == 0 {
        false
    } else {
        proof {
            lemma_be_val_parity(v@);
        }
        v[v.len() - 1] % 2 == 1
    }
}

/// Bits needed for a byte: the position of its highest set bit.
pub open spec fn byte_bits(b: u8) -> nat {
    if b >= 128 { 8 } else if b >= 64 { 7 } else if b >= 32 { 6 } else if b >= 16 { 5 }
    else if b >= 8 { 4 } else if b >= 4 { 3 } else if b >= 2 { 2 } else if b >= 1 { 1 }
    else { 0 }
}

/// Bit length of a canonical numeral.
pub open spec fn bit_len(s: Seq<u8>) -> nat {
    if s.len() == 0 {
        0
    } else {
        (s.len() - 1) as nat * 8 + byte_bits(s[0])
    }
}

/// `bit_len(v) / 8`, the whole-byte count the digest truncation rule uses.
pub fn bit_len_div8(v: &Vec<u8>) -> (r: usize)
    requires
        normalized(v@),
    ensures
        r == bit_len(v@) / 8,
        r <= v@.len(),
{
    if v.len() == 0 {
        return 0;
    }
    let extra: usize = if v[0] >= 128 { 1 } else { 0 };
    let ghost bb = byte_bits(v@[0]);
    let ghost rem = (bb - 8 * extra) as nat;
    proof {
        lemma_fundamental_div_mod_converse(
            bit_len(v@) as int,
            8,
            (v@.len() - 1 + extra) as int,
            rem as int,
        );
    }
    v.len() - 1 + extra
}

} // verus!
