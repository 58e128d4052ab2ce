//! The standardized binary public-key container.
//!
//! A verifying key is carried as a DER-encoded structure: an outer sequence
//! holding an algorithm identifier (the DSA object identifier plus a nested
//! sequence of the three parameter integers) and a bit string wrapping the
//! DER integer `y`. The byte layout is fixed here as a grammar: spec
//! functions give the one canonical encoding of a key and the strict parse
//! of a candidate container, and the executable codec is verified against
//! them. [`lemma_container_round_trip`] shows that parsing undoes encoding,
//! and [`lemma_container_canonical`] the converse: the parser accepts
//! nothing but the canonical encoding of what it returns.

use vstd::prelude::*;
use vstd::arithmetic::power::{
    pow, lemma_pow0, lemma_pow1, lemma_pow_adds, lemma_pow_increases,
    lemma_pow_strictly_increases_converse,
};
use vstd::arithmetic::div_mod::lemma_fundamental_div_mod;
use crate::Error;
use crate::arith::fits;
use crate::bigint::{be_val, canon, normalized};
use crate::components::{constructible, Components};
use crate::verifying_key::{key_values_ok, VerifyingKey};

verus! {

/// The powers of 256 the length forms reach.
proof fn lemma_pow256_small()
    ensures
        pow(256, 0) == 1,
        pow(256, 1) == 256,
        pow(256, 2) == 0x1_0000,
        pow(256, 3) == 0x100_0000,
        pow(256, 4) == 0x1_0000_0000,
{
    lemma_pow0(256);
    lemma_pow1(256);
    lemma_pow_adds(256, 1, 1);
    lemma_pow_adds(256, 2, 1);
    lemma_pow_adds(256, 3, 1);
}

/// The digits of `n` in base 256, most significant first, no leading zero.
pub open spec fn nat_be(n: nat) -> Seq<u8>
    decreases n,
{
    if n == 0 {
        Seq::empty()
    } else {
        nat_be(n / 256).push((n % 256) as u8)
    }
}

/// The base-256 digits denote their number and are canonical.
pub proof fn lemma_nat_be(n: nat)
    ensures
        be_val(nat_be(n)) == n,
        normalized(nat_be(n)),
        (n == 0) == (nat_be(n).len() == 0),
    decreases n,
{
    if n > 0 {
        lemma_nat_be(n / 256);
        let d = nat_be(n / 256);
        assert(nat_be(n) == d.push((n % 256) as u8));
        assert(nat_be(n).drop_last() =~= d);
        assert(nat_be(n).last() == (n % 256) as u8);
        lemma_fundamental_div_mod(n as int, 256);
        if d.len() > 0 {
            assert(nat_be(n)[0] == d[0]);
        }
    }
}

/// A number below `256^k` needs at most `k` digits.
pub proof fn lemma_nat_be_len(n: nat, k: nat)
    requires
        n < pow(256, k),
    ensures
        nat_be(n).len() <= k,
    decreases k,
{
    lemma_pow0(256);
    if n > 0 {
        assert(k >= 1);
        lemma_pow_adds(256, (k - 1) as nat, 1);
        lemma_pow1(256);
        assert(pow(256, k) == pow(256, (k - 1) as nat) * 256);
        lemma_fundamental_div_mod(n as int, 256);
        assert(n / 256 < pow(256, (k - 1) as nat)) by (nonlinear_arith)
            requires
                n < pow(256, (k - 1) as nat) * 256,
                n / 256 * 256 + n % 256 == n,
                0 <= n % 256 < 256,
        ;
        lemma_nat_be_len(n / 256, (k - 1) as nat);
    }
}

/// The DER length field for a content of `n` bytes: short form below 128,
/// else a count byte followed by the digits of `n`.
pub open spec fn enc_len(n: nat) -> Seq<u8> {
    if n < 128 {
        seq![n as u8]
    } else {
        seq![(0x80 + nat_be(n).len()) as u8] + nat_be(n)
    }
}

/// A tag byte, the length field, and the content.
pub open spec fn enc_tlv(tag: u8, c: Seq<u8>) -> Seq<u8> {
    seq![tag] + enc_len(c.len()) + c
}

/// The content of a DER unsigned integer for a canonical numeral: a zero
/// byte for zero, and a zero byte prefix wherever the leading digit would
/// read as a sign bit.
pub open spec fn uint_content(v: Seq<u8>) -> Seq<u8> {
    if v.len() == 0 {
        seq![0u8]
    } else if v[0] >= 0x80 {
        seq![0u8] + v
    } else {
        v
    }
}

/// A DER unsigned integer.
pub open spec fn enc_uint(v: Seq<u8>) -> Seq<u8> {
    enc_tlv(0x02, uint_content(v))
}

/// The DER object identifier of DSA, with its tag and length.
pub open spec fn dsa_oid() -> Seq<u8> {
    seq![0x06u8, 0x07u8, 0x2Au8, 0x86u8, 0x48u8, 0xCEu8, 0x38u8, 0x04u8, 0x01u8]
}

/// The parameters sequence: the integers `p`, `q`, `g`.
pub open spec fn params_der(p: Seq<u8>, q: Seq<u8>, g: Seq<u8>) -> Seq<u8> {
    enc_tlv(0x30, enc_uint(p) + enc_uint(q) + enc_uint(g))
}

/// The algorithm identifier: the DSA object identifier and the parameters.
pub open spec fn algid_der(p: Seq<u8>, q: Seq<u8>, g: Seq<u8>) -> Seq<u8> {
    enc_tlv(0x30, dsa_oid() + params_der(p, q, g))
}

/// The whole container: algorithm identifier, then the integer `y` wrapped
/// in a bit string with zero unused bits.
pub open spec fn spki_der(p: Seq<u8>, q: Seq<u8>, g: Seq<u8>, y: Seq<u8>) -> Seq<u8> {
    enc_tlv(0x30, algid_der(p, q, g) + enc_tlv(0x03, seq![0u8] + enc_uint(y)))
}

/// Parse a DER length field: the length and the bytes consumed. Rejects the
/// indefinite form, a non-minimal long form, and count bytes beyond four
/// (no real container reaches such a length).
pub open spec fn parse_len(s: Seq<u8>) -> Option<(nat, nat)> {
    if s.len() == 0 {
        None
    } else if s[0] < 0x80 {
        Some((s[0] as nat, 1))
    } else {
        let k = (s[0] - 0x80) as nat;
        if k == 0 || k > 4 || s.len() < 1 + k {
            None
        } else if s[1] == 0 {
            None
        } else if k == 1 && s[1] < 0x80 {
            None
        } else {
            Some((be_val(s.subrange(1, 1 + k as int)), (1 + k) as nat))
        }
    }
}

/// Parse one tagged value: its content and the remainder of the input.
pub open spec fn parse_tlv(tag: u8, s: Seq<u8>) -> Option<(Seq<u8>, Seq<u8>)> {
    if s.len() == 0 || s[0] != tag {
        None
    } else {
        match parse_len(s.skip(1)) {
            Option::None => None,
            Option::Some((l, c)) => {
                if s.len() < 1 + c + l {
                    None
                } else {
                    Some((s.subrange(1 + c as int, (1 + c + l) as int), s.skip((1 + c + l) as int)))
                }
            },
        }
    }
}

/// A well-formed unsigned-integer content: nonempty, non-negative, minimal.
pub open spec fn uint_content_ok(c: Seq<u8>) -> bool {
    &&& c.len() >= 1
    &&& c[0] < 0x80
    &&& (c.len() >= 2 ==> !(c[0] == 0 && c[1] < 0x80))
}

/// The canonical numeral a well-formed integer content denotes.
pub open spec fn uint_value_of(c: Seq<u8>) -> Seq<u8> {
    if c.len() == 1 && c[0] == 0 {
        Seq::empty()
    } else if c.len() >= 1 && c[0] == 0 {
        c.skip(1)
    } else {
        c
    }
}

/// Parse a DER unsigned integer: its canonical numeral and the remainder.
pub open spec fn parse_uint(s: Seq<u8>) -> Option<(Seq<u8>, Seq<u8>)> {
    match parse_tlv(0x02, s) {
        Option::None => None,
        Option::Some((c, rest)) => {
            if uint_content_ok(c) {
                Some((uint_value_of(c), rest))
            } else {
                None
            }
        },
    }
}

/// Strict parse of the whole container: the canonical numerals
/// `(p, q, g, y)`, or nothing. The algorithm identifier must carry the DSA
/// object identifier exactly; nothing may trail any structure.
pub open spec fn parse_spki(s: Seq<u8>) -> Option<(Seq<u8>, Seq<u8>, Seq<u8>, Seq<u8>)> {
    match parse_tlv(0x30, s) {
        Option::None => None,
        Option::Some((body, outer_rest)) => {
            if outer_rest.len() != 0 {
                None
            } else {
                match parse_tlv(0x30, body) {
                    Option::None => None,
                    Option::Some((alg, after_alg)) => {
                        if alg.len() < 9 || alg.take(9) != dsa_oid() {
                            None
                        } else {
                            match parse_tlv(0x30, alg.skip(9)) {
                                Option::None => None,
                                Option::Some((params, params_rest)) => {
                                    if params_rest.len() != 0 {
                                        None
                                    } else {
                                        parse_spki_tail(params, after_alg)
                                    }
                                },
                            }
                        }
                    },
                }
            }
        },
    }
}

/// The tail of the container parse: the three parameter integers, then the
/// bit-string-wrapped integer `y`.
pub open spec fn parse_spki_tail(params: Seq<u8>, after_alg: Seq<u8>) -> Option<(Seq<u8>, Seq<u8>, Seq<u8>, Seq<u8>)> {
    match parse_uint(params) {
        Option::None => None,
        Option::Some((p, r1)) => match parse_uint(r1) {
            Option::None => None,
            Option::Some((q, r2)) => match parse_uint(r2) {
                Option::None => None,
                Option::Some((g, r3)) => {
                    if r3.len() != 0 {
                        None
                    } else {
                        match parse_tlv(0x03, after_alg) {
                            Option::None => None,
                            Option::Some((bs, bs_rest)) => {
                                if bs_rest.len() != 0 || bs.len() == 0 || bs[0] != 0 {
                                    None
                                } else {
                                    match parse_uint(bs.skip(1)) {
                                        Option::None => None,
                                        Option::Some((y, y_rest)) => {
                                            if y_rest.len() != 0 {
                                                None
                                            } else {
                                                Some((p, q, g, y))
                                            }
                                        },
                                    }
                                }
                            },
                        }
                    }
                },
            },
        },
    }
}

/// The base-256 digits of the value of a canonical numeral are the numeral:
/// [`be_val`] is injective on canonical numerals.
pub proof fn lemma_nat_be_of_val(d: Seq<u8>)
    requires
        normalized(d),
    ensures
        nat_be(be_val(d)) == d,
    decreases d.len(),
{
    if d.len() == 0 {
        assert(nat_be(0) =~= Seq::<u8>::empty());
    } else {
        let front = d.drop_last();
        let n = be_val(d);
        if d.len() >= 2 {
            assert(front[0] == d[0]);
            crate::bigint::lemma_be_val_lower(front);
            lemma_pow_increases(256, 0, (front.len() - 1) as nat);
            lemma_pow0(256);
        } else {
            assert(front =~= Seq::<u8>::empty());
            assert(be_val(front) == 0);
        }
        vstd::arithmetic::div_mod::lemma_fundamental_div_mod_converse(
            n as int, 256, be_val(front) as int, d.last() as int);
        lemma_nat_be_of_val(front);
        assert(n >= 1);
        assert(nat_be(n) =~= d);
    }
}

/// A length field takes one to five bytes.
pub proof fn lemma_enc_len_len(n: nat)
    requires
        n < 0x1_0000_0000,
    ensures
        1 <= enc_len(n).len() <= 5,
{
    if n >= 128 {
        assert(pow(256, 4) == 0x1_0000_0000) by {
            lemma_pow0(256);
            lemma_pow1(256);
            lemma_pow_adds(256, 1, 1);
            lemma_pow_adds(256, 2, 1);
            lemma_pow_adds(256, 3, 1);
        };
        lemma_nat_be_len(n, 4);
    }
}

/// A DER integer takes at most seven bytes beyond its numeral.
pub proof fn lemma_enc_uint_len(v: Seq<u8>)
    requires
        v.len() < 0xFFFF_FFFF,
    ensures
        enc_uint(v).len() <= v.len() + 7,
{
    lemma_enc_len_len(uint_content(v).len());
}

/// Parsing undoes the length encoding, whatever follows it.
pub proof fn lemma_parse_enc_len(n: nat, rest: Seq<u8>)
    requires
        n < 0x1_0000_0000,
    ensures
        parse_len(enc_len(n) + rest) == Some((n, enc_len(n).len())),
{
    let s = enc_len(n) + rest;
    if n < 128 {
        assert(s[0] == n as u8);
    } else {
        lemma_nat_be(n);
        assert(pow(256, 4) == 0x1_0000_0000) by {
            lemma_pow0(256);
            lemma_pow1(256);
            lemma_pow_adds(256, 1, 1);
            lemma_pow_adds(256, 2, 1);
            lemma_pow_adds(256, 3, 1);
        };
        lemma_nat_be_len(n, 4);
        let d = nat_be(n);
        let k = d.len();
        assert(1 <= k <= 4);
        assert(s[0] == (0x80 + k) as u8);
        assert(s.len() >= 1 + k);
        assert(s[1] == d[0]);
        assert(d[0] != 0);
        if k == 1 {
            assert(d.drop_last() =~= Seq::<u8>::empty());
            assert(be_val(Seq::<u8>::empty()) == 0);
            assert(be_val(d) == d[0]);
            assert(d[0] >= 0x80);
        }
        assert(s.subrange(1, 1 + k as int) =~= d);
    }
}

/// Parsing undoes one tagged value, whatever follows it.
pub proof fn lemma_parse_enc_tlv(tag: u8, c: Seq<u8>, rest: Seq<u8>)
    requires
        c.len() < 0x1_0000_0000,
    ensures
        parse_tlv(tag, enc_tlv(tag, c) + rest) == Some((c, rest)),
{
    let e = enc_len(c.len());
    let s = enc_tlv(tag, c) + rest;
    assert(s[0] == tag);
    assert(s.skip(1) =~= e + (c + rest));
    lemma_parse_enc_len(c.len(), c + rest);
    let ec = e.len();
    assert(parse_len(s.skip(1)) == Some((c.len(), ec)));
    assert(s.len() == 1 + ec + c.len() + rest.len());
    assert(s.subrange(1 + ec as int, (1 + ec + c.len()) as int) =~= c);
    assert(s.skip((1 + ec + c.len()) as int) =~= rest);
}

/// Parsing undoes the integer encoding of a canonical numeral.
pub proof fn lemma_parse_enc_uint(v: Seq<u8>, rest: Seq<u8>)
    requires
        normalized(v),
        v.len() < 0xFFFF_FFFF,
    ensures
        parse_uint(enc_uint(v) + rest) == Some((v, rest)),
{
    let c = uint_content(v);
    lemma_parse_enc_tlv(0x02, c, rest);
    if v.len() == 0 {
        assert(uint_content_ok(c));
        assert(uint_value_of(c) =~= v);
    } else if v[0] >= 0x80 {
        assert(c == seq![0u8] + v);
        assert(c[0] == 0);
        assert(c[1] == v[0]);
        assert(uint_content_ok(c));
        assert(uint_value_of(c) =~= v);
    } else {
        assert(c == v);
        assert(uint_content_ok(c));
        assert(uint_value_of(c) =~= v);
    }
}

/// Round trip of the whole container: the strict parse of the canonical
/// encoding of any four capability-sized canonical numerals gives back
/// exactly those numerals.
#[verifier::rlimit(100)]
pub proof fn lemma_container_round_trip(p: Seq<u8>, q: Seq<u8>, g: Seq<u8>, y: Seq<u8>)
    requires
        normalized(p),
        normalized(q),
        normalized(g),
        normalized(y),
        p.len() <= 0x0FFF_FFFF,
        q.len() <= 0x0FFF_FFFF,
        g.len() <= 0x0FFF_FFFF,
        y.len() <= 0x0FFF_FFFF,
    ensures
        parse_spki(spki_der(p, q, g, y)) == Some((p, q, g, y)),
{
    let pc = enc_uint(p) + enc_uint(q) + enc_uint(g);
    let pd = params_der(p, q, g);
    let alg = dsa_oid() + pd;
    let bsc = seq![0u8] + enc_uint(y);
    let bs = enc_tlv(0x03, bsc);
    let body = algid_der(p, q, g) + bs;
    let s = spki_der(p, q, g, y);

    lemma_enc_uint_len(p);
    lemma_enc_uint_len(q);
    lemma_enc_uint_len(g);
    lemma_enc_uint_len(y);
    lemma_enc_len_len(pc.len());
    lemma_enc_len_len(alg.len());
    lemma_enc_len_len(bsc.len());
    assert(body.len() < 0x1_0000_0000);

    assert(s == enc_tlv(0x30, body) + Seq::<u8>::empty()) by {
        assert(enc_tlv(0x30, body) + Seq::<u8>::empty() =~= enc_tlv(0x30, body));
    };
    lemma_parse_enc_tlv(0x30, body, Seq::<u8>::empty());
    assert(parse_tlv(0x30, s) == Some((body, Seq::<u8>::empty())));

    lemma_parse_enc_tlv(0x30, alg, bs);
    assert(body == enc_tlv(0x30, alg) + bs);
    assert(parse_tlv(0x30, body) == Some((alg, bs)));

    assert(alg.take(9) =~= dsa_oid());
    assert(alg.skip(9) =~= pd);

    assert(pd == enc_tlv(0x30, pc) + Seq::<u8>::empty()) by {
        assert(enc_tlv(0x30, pc) + Seq::<u8>::empty() =~= enc_tlv(0x30, pc));
    };
    lemma_parse_enc_tlv(0x30, pc, Seq::<u8>::empty());
    assert(parse_tlv(0x30, pd) == Some((pc, Seq::<u8>::empty())));

    assert(pc =~= enc_uint(p) + (enc_uint(q) + enc_uint(g)));
    lemma_parse_enc_uint(p, enc_uint(q) + enc_uint(g));
    assert(parse_uint(pc) == Some((p, enc_uint(q) + enc_uint(g))));
    lemma_parse_enc_uint(q, enc_uint(g));
    assert(enc_uint(g) == enc_uint(g) + Seq::<u8>::empty()) by {
        assert(enc_uint(g) + Seq::<u8>::empty() =~= enc_uint(g));
    };
    lemma_parse_enc_uint(g, Seq::<u8>::empty());
    assert(parse_uint(enc_uint(g)) == Some((g, Seq::<u8>::empty())));

    assert(bs == enc_tlv(0x03, bsc) + Seq::<u8>::empty()) by {
        assert(enc_tlv(0x03, bsc) + Seq::<u8>::empty() =~= enc_tlv(0x03, bsc));
    };
    lemma_parse_enc_tlv(0x03, bsc, Seq::<u8>::empty());
    assert(parse_tlv(0x03, bs) == Some((bsc, Seq::<u8>::empty())));
    assert(bsc[0] == 0);
    assert(bsc.skip(1) =~= enc_uint(y));
    assert(enc_uint(y) == enc_uint(y) + Seq::<u8>::empty()) by {
        assert(enc_uint(y) + Seq::<u8>::empty() =~= enc_uint(y));
    };
    lemma_parse_enc_uint(y, Seq::<u8>::empty());
    assert(parse_uint(enc_uint(y)) == Some((y, Seq::<u8>::empty())));
    assert(parse_spki_tail(pc, bs) == Some((p, q, g, y)));
}

/// A length field parses only from its own encoding: acceptance pins the
/// consumed bytes down to [`enc_len`] of the length read.
pub proof fn lemma_parse_len_canonical(s: Seq<u8>, l: nat, c: nat)
    requires
        parse_len(s) == Some((l, c)),
    ensures
        1 <= c <= s.len(),
        s.take(c as int) == enc_len(l),
{
    if s[0] < 0x80 {
        assert(s.take(1) =~= seq![s[0]]);
    } else {
        let k = (s[0] - 0x80) as nat;
        let d = s.subrange(1, 1 + k as int);
        assert(d[0] == s[1]);
        lemma_nat_be_of_val(d);
        if k == 1 {
            assert(d.drop_last() =~= Seq::<u8>::empty());
            assert(be_val(Seq::<u8>::empty()) == 0);
            assert(be_val(d) == s[1]);
        } else {
            crate::bigint::lemma_be_val_lower(d);
            lemma_pow_increases(256, 1, (k - 1) as nat);
            lemma_pow1(256);
        }
        assert(l >= 128);
        assert(enc_len(l) == seq![(0x80 + k) as u8] + d);
        assert(s.take((1 + k) as int) =~= seq![s[0]] + d);
    }
}

/// A tagged value parses only from its own encoding.
pub proof fn lemma_parse_tlv_canonical(tag: u8, s: Seq<u8>, content: Seq<u8>, rest: Seq<u8>)
    requires
        parse_tlv(tag, s) == Some((content, rest)),
    ensures
        s == enc_tlv(tag, content) + rest,
{
    let t = s.skip(1);
    match parse_len(t) {
        Option::Some((l, c)) => {
            lemma_parse_len_canonical(t, l, c);
            assert(content =~= t.subrange(c as int, (c + l) as int));
            assert(rest =~= t.skip((c + l) as int));
            assert(t =~= t.take(c as int) + content + rest);
            assert(s =~= seq![tag] + t);
            assert(s =~= (seq![tag] + enc_len(content.len()) + content) + rest);
        },
        Option::None => {
            assert(false);
        },
    }
}

/// A DER unsigned integer parses only from the canonical encoding of the
/// numeral it returns.
pub proof fn lemma_parse_uint_canonical(s: Seq<u8>, v: Seq<u8>, rest: Seq<u8>)
    requires
        parse_uint(s) == Some((v, rest)),
    ensures
        s == enc_uint(v) + rest,
        normalized(v),
{
    match parse_tlv(0x02, s) {
        Option::Some((c, r)) => {
            lemma_parse_tlv_canonical(0x02, s, c, r);
            if c.len() == 1 && c[0] == 0 {
                assert(uint_content(v) =~= c);
            } else if c[0] == 0 {
                assert(v == c.skip(1));
                assert(v[0] == c[1]);
                assert(uint_content(v) =~= c);
            } else {
                assert(uint_content(v) =~= c);
            }
        },
        Option::None => {
            assert(false);
        },
    }
}

/// Reassemble the container from the equations the parse steps pin down:
/// pure concatenation algebra, no parsing involved.
proof fn lemma_container_assembly(
    s: Seq<u8>,
    body: Seq<u8>,
    alg: Seq<u8>,
    after_alg: Seq<u8>,
    params: Seq<u8>,
    bs: Seq<u8>,
    r1: Seq<u8>,
    r2: Seq<u8>,
    p: Seq<u8>,
    q: Seq<u8>,
    g: Seq<u8>,
    y: Seq<u8>,
)
    requires
        s == enc_tlv(0x30, body) + Seq::<u8>::empty(),
        body == enc_tlv(0x30, alg) + after_alg,
        alg.len() >= 9,
        alg.take(9) == dsa_oid(),
        alg.skip(9) == enc_tlv(0x30, params) + Seq::<u8>::empty(),
        params == enc_uint(p) + r1,
        r1 == enc_uint(q) + r2,
        r2 == enc_uint(g) + Seq::<u8>::empty(),
        after_alg == enc_tlv(0x03, bs) + Seq::<u8>::empty(),
        bs.len() >= 1,
        bs[0] == 0,
        bs.skip(1) == enc_uint(y) + Seq::<u8>::empty(),
    ensures
        s == spki_der(p, q, g, y),
{
    assert(r2 =~= enc_uint(g));
    assert(params =~= enc_uint(p) + enc_uint(q) + enc_uint(g));
    assert(alg.skip(9) =~= params_der(p, q, g));
    assert(alg =~= alg.take(9) + alg.skip(9));
    assert(alg =~= dsa_oid() + params_der(p, q, g));
    assert(bs.skip(1) =~= enc_uint(y));
    assert(bs =~= seq![bs[0]] + bs.skip(1));
    assert(bs =~= seq![0u8] + enc_uint(y));
    assert(after_alg =~= enc_tlv(0x03, seq![0u8] + enc_uint(y)));
    assert(body =~= algid_der(p, q, g) + enc_tlv(0x03, seq![0u8] + enc_uint(y)));
    assert(s =~= spki_der(p, q, g, y));
}

/// A container parses only from the canonical encoding of the four numerals
/// it returns: what the decoder accepts is exactly [`spki_der`] of the
/// decoded key, so no second byte string decodes to the same key, and
/// nothing without the DSA algorithm identifier decodes at all.
#[verifier::rlimit(100)]
#[verifier::spinoff_prover]
pub proof fn lemma_container_canonical(s: Seq<u8>, p: Seq<u8>, q: Seq<u8>, g: Seq<u8>, y: Seq<u8>)
    requires
        parse_spki(s) == Some((p, q, g, y)),
    ensures
        s == spki_der(p, q, g, y),
        normalized(p),
        normalized(q),
        normalized(g),
        normalized(y),
{
    match parse_tlv(0x30, s) {
        Option::Some((body, outer_rest)) => {
            lemma_parse_tlv_canonical(0x30, s, body, outer_rest);
            assert(outer_rest =~= Seq::<u8>::empty());
            match parse_tlv(0x30, body) {
                Option::Some((alg, after_alg)) => {
                    lemma_parse_tlv_canonical(0x30, body, alg, after_alg);
                    match parse_tlv(0x30, alg.skip(9)) {
                        Option::Some((params, params_rest)) => {
                            lemma_parse_tlv_canonical(0x30, alg.skip(9), params, params_rest);
                            assert(params_rest =~= Seq::<u8>::empty());
                            lemma_container_canonical_tail(
                                s, body, alg, after_alg, params, p, q, g, y);
                        },
                        Option::None => {
                            assert(false);
                        },
                    }
                },
                Option::None => {
                    assert(false);
                },
            }
        },
        Option::None => {
            assert(false);
        },
    }
}

/// The integer half of the canonicality argument: walk the parameter
/// integers and the bit-string-wrapped `y`, then reassemble.
#[verifier::rlimit(100)]
#[verifier::spinoff_prover]
proof fn lemma_container_canonical_tail(
    s: Seq<u8>,
    body: Seq<u8>,
    alg: Seq<u8>,
    after_alg: Seq<u8>,
    params: Seq<u8>,
    p: Seq<u8>,
    q: Seq<u8>,
    g: Seq<u8>,
    y: Seq<u8>,
)
    requires
        parse_spki_tail(params, after_alg) == Some((p, q, g, y)),
        s == enc_tlv(0x30, body) + Seq::<u8>::empty(),
        body == enc_tlv(0x30, alg) + after_alg,
        alg.len() >= 9,
        alg.take(9) == dsa_oid(),
        alg.skip(9) == enc_tlv(0x30, params) + Seq::<u8>::empty(),
    ensures
        s == spki_der(p, q, g, y),
        normalized(p),
        normalized(q),
        normalized(g),
        normalized(y),
{
    match parse_uint(params) {
        Option::Some((p0, r1)) => {
            lemma_parse_uint_canonical(params, p0, r1);
            match parse_uint(r1) {
                Option::Some((q0, r2)) => {
                    lemma_parse_uint_canonical(r1, q0, r2);
                    match parse_uint(r2) {
                        Option::Some((g0, r3)) => {
                            lemma_parse_uint_canonical(r2, g0, r3);
                            assert(r3 =~= Seq::<u8>::empty());
                            match parse_tlv(0x03, after_alg) {
                                Option::Some((bs, bs_rest)) => {
                                    lemma_parse_tlv_canonical(0x03, after_alg, bs, bs_rest);
                                    assert(bs_rest =~= Seq::<u8>::empty());
                                    match parse_uint(bs.skip(1)) {
                                        Option::Some((y0, y_rest)) => {
                                            lemma_parse_uint_canonical(bs.skip(1), y0, y_rest);
                                            assert(y_rest =~= Seq::<u8>::empty());
                                            lemma_container_assembly(
                                                s, body, alg, after_alg, params, bs, r1, r2,
                                                p, q, g, y);
                                        },
                                        Option::None => {
                                            assert(false);
                                        },
                                    }
                                },
                                Option::None => {
                                    assert(false);
                                },
                            }
                        },
                        Option::None => {
                            assert(false);
                        },
                    }
                },
                Option::None => {
                    assert(false);
                },
            }
        },
        Option::None => {
            assert(false);
        },
    }
}

/// Decoding undoes encoding: the container of any key the constructors
/// accept parses back to exactly its numerals, and those numerals pass
/// acceptance again, so decoding the encoded key returns an equal key.
pub proof fn lemma_key_round_trip(p: Seq<u8>, q: Seq<u8>, g: Seq<u8>, y: Seq<u8>)
    requires
        normalized(p),
        normalized(q),
        normalized(g),
        normalized(y),
        constructible(p, q, g),
        fits(y),
        key_values_ok(be_val(p), be_val(q), be_val(y)),
    ensures
        parse_spki(spki_der(p, q, g, y)) == Some((p, q, g, y)),
        accepted((p, q, g, y)),
{
    assert(canon(p) == p);
    assert(canon(q) == q);
    assert(canon(g) == g);
    assert(canon(y) == y);
    crate::bigint::lemma_lt_len_le(g, p);
    lemma_container_round_trip(p, q, g, y);
}

/// A container whose algorithm identifier is not DSA's never parses: once
/// the outer and inner sequences are read, anything but the DSA object
/// identifier at the head of the algorithm identifier ends the parse with
/// nothing, so decoding reports a malformed container, never a key.
pub proof fn lemma_wrong_oid_rejected(s: Seq<u8>, body: Seq<u8>, alg: Seq<u8>, after_alg: Seq<u8>)
    requires
        parse_tlv(0x30, s) == Some((body, Seq::<u8>::empty())),
        parse_tlv(0x30, body) == Some((alg, after_alg)),
        alg.len() < 9 || alg.take(9) != dsa_oid(),
    ensures
        parse_spki(s) == Option::<(Seq<u8>, Seq<u8>, Seq<u8>, Seq<u8>)>::None,
{
}

/// Append a copy of `b`.
fn push_bytes(out: &mut Vec<u8>, b: &Vec<u8>)
    ensures
        final(out)@ == old(out)@ + b@,
{
    let mut i: usize = 0;
    while i < b.len()
        invariant
            0 <= i <= b@.len(),
            out@ =~= old(out)@ + b@.take(i as int),
        decreases b@.len() - i,
    {
        out.push(b[i]);
        proof {
            assert(out@ =~= old(out)@ + b@.take(i + 1));
        }
        i = i + 1;
    }
    proof {
        assert(b@.take(b@.len() as int) =~= b@);
    }
}

/// Append the base-256 digits of `n`.
fn push_nat_be(out: &mut Vec<u8>, n: usize)
    ensures
        final(out)@ == old(out)@ + nat_be(n as nat),
    decreases n,
{
    if n > 0 {
        proof {
            assert(n / 256 < n) by (nonlinear_arith)
                requires n >= 1,
            ;
        }
        push_nat_be(out, n / 256);
        out.push((n % 256) as u8);
        proof {
            assert(out@ =~= old(out)@ + nat_be(n as nat));
        }
    } else {
        proof {
            assert(out@ =~= old(out)@ + nat_be(0));
        }
    }
}

/// Append the DER length field for a content of `n` bytes.
fn push_len(out: &mut Vec<u8>, n: usize)
    requires
        n < 0x1_0000_0000,
    ensures
        final(out)@ == old(out)@ + enc_len(n as nat),
{
    if n < 0x80 {
        out.push(n as u8);
        proof {
            assert(out@ =~= old(out)@ + enc_len(n as nat));
        }
    } else {
        let k: u8 = if n < 0x100 { 1 } else if n < 0x1_0000 { 2 } else if n < 0x100_0000 { 3 } else { 4 };
        proof {
            lemma_pow256_small();
            lemma_nat_be(n as nat);
            lemma_nat_be_len(n as nat, k as nat);
            crate::bigint::lemma_be_val_bound(nat_be(n as nat));
            lemma_pow_strictly_increases_converse(256, (k - 1) as nat, nat_be(n as nat).len());
            assert(nat_be(n as nat).len() == k);
        }
        out.push(0x80u8 + k);
        push_nat_be(out, n);
        proof {
            assert(out@ =~= old(out)@ + enc_len(n as nat));
        }
    }
}

/// Append one tagged value.
fn push_tlv(out: &mut Vec<u8>, tag: u8, c: &Vec<u8>)
    requires
        c@.len() < 0x1_0000_0000,
    ensures
        final(out)@ == old(out)@ + enc_tlv(tag, c@),
{
    out.push(tag);
    push_len(out, c.len());
    push_bytes(out, c);
    proof {
        assert(out@ =~= old(out)@ + enc_tlv(tag, c@));
    }
}

/// Append a DER unsigned integer for a canonical numeral.
fn push_uint(out: &mut Vec<u8>, v: &Vec<u8>)
    requires
        normalized(v@),
        v@.len() < 0xFFFF_FFFE,
    ensures
        final(out)@ == old(out)@ + enc_uint(v@),
{
    let mut c: Vec<u8> = Vec::new();
    if v.len() == 0 {
        c.push(0u8);
    } else if v[0] >= 0x80 {
        c.push(0u8);
        push_bytes(&mut c, v);
    } else {
        push_bytes(&mut c, v);
    }
    proof {
        assert(c@ =~= uint_content(v@));
    }
    push_tlv(out, 0x02, &c);
}

impl VerifyingKey {
    /// Encode this key as the standardized DER public-key container.
    pub fn to_public_key_der(&self) -> (r: Vec<u8>)
        ensures
            r@ == spki_der(
                self.params().p_bytes(),
                self.params().q_bytes(),
                self.params().g_bytes(),
                self.y_bytes(),
            ),
    {
        proof {
            use_type_invariant(self);
            crate::bigint::lemma_canon(self.components.p@);
            lemma_enc_uint_len(self.components.p@);
            lemma_enc_uint_len(self.components.q@);
            lemma_enc_uint_len(self.components.g@);
            lemma_enc_uint_len(self.y@);
        }
        let mut params: Vec<u8> = Vec::new();
        push_uint(&mut params, &self.components.p);
        push_uint(&mut params, &self.components.q);
        push_uint(&mut params, &self.components.g);
        proof {
            assert(params@ =~= enc_uint(self.components.p@) + enc_uint(self.components.q@)
                + enc_uint(self.components.g@));
            lemma_enc_len_len(params@.len());
        }
        let mut alg: Vec<u8> = Vec::new();
        alg.push(0x06u8);
        alg.push(0x07u8);
        alg.push(0x2Au8);
        alg.push(0x86u8);
        alg.push(0x48u8);
        alg.push(0xCEu8);
        alg.push(0x38u8);
        alg.push(0x04u8);
        alg.push(0x01u8);
        proof {
            assert(alg@ =~= dsa_oid());
        }
        push_tlv(&mut alg, 0x30, &params);
        proof {
            assert(alg@ =~= dsa_oid() + params_der(
                self.components.p@, self.components.q@, self.components.g@));
            lemma_enc_len_len(alg@.len());
        }
        let mut bitstr: Vec<u8> = Vec::new();
        bitstr.push(0u8);
        push_uint(&mut bitstr, &self.y);
        proof {
            assert(bitstr@ =~= seq![0u8] + enc_uint(self.y@));
            lemma_enc_len_len(bitstr@.len());
        }
        let mut body: Vec<u8> = Vec::new();
        push_tlv(&mut body, 0x30, &alg);
        push_tlv(&mut body, 0x03, &bitstr);
        proof {
            assert(body@ =~= algid_der(self.components.p@, self.components.q@, self.components.g@)
                + enc_tlv(0x03, seq![0u8] + enc_uint(self.y@)));
        }
        let mut out: Vec<u8> = Vec::new();
        push_tlv(&mut out, 0x30, &body);
        proof {
            assert(out@ =~= spki_der(self.components.p@, self.components.q@,
                self.components.g@, self.y@));
        }
        out
    }
}


/// A copy of `buf[a..b]`.
fn copy_range(buf: &Vec<u8>, a: usize, b: usize) -> (r: Vec<u8>)
    requires
        a <= b <= buf@.len(),
    ensures
        r@ == buf@.subrange(a as int, b as int),
{
    let mut r: Vec<u8> = Vec::new();
    let mut i: usize = a;
    while i < b
        invariant
            a <= i <= b <= buf@.len(),
            r@ =~= buf@.subrange(a as int, i as int),
        decreases b - i,
    {
        r.push(buf[i]);
        proof {
            assert(r@ =~= buf@.subrange(a as int, i + 1));
        }
        i = i + 1;
    }
    r
}

/// Read a DER length field from the front of `buf`.
fn read_len(buf: &Vec<u8>) -> (res: Result<(u64, usize), Error>)
    ensures
        match res {
            Ok((l, c)) => {
                &&& parse_len(buf@) == Some((l as nat, c as nat))
                &&& 1 <= c <= buf@.len()
            },
            Err(e) => {
                &&& e == Error::MalformedContainer
                &&& parse_len(buf@) == Option::<(nat, nat)>::None
            },
        },
{
    if buf.len() == 0 {
        return Err(Error::MalformedContainer);
    }
    let b0 = buf[0];
    if b0 < 0x80 {
        return Ok((b0 as u64, 1));
    }
    let k: usize = (b0 - 0x80) as usize;
    if k == 0 || k > 4 || buf.len() < 1 + k {
        return Err(Error::MalformedContainer);
    }
    if buf[1] == 0 {
        return Err(Error::MalformedContainer);
    }
    if k == 1 && buf[1] < 0x80 {
        return Err(Error::MalformedContainer);
    }
    let mut acc: u64 = 0;
    let mut i: usize = 0;
    proof {
        lemma_pow0(256);
        assert(buf@.subrange(1, 1) =~= Seq::<u8>::empty());
        assert(be_val(Seq::<u8>::empty()) == 0);
    }
    while i < k
        invariant
            0 <= i <= k <= 4,
            buf@.len() >= 1 + k,
            acc == be_val(buf@.subrange(1, 1 + i as int)),
            acc < pow(256, i as nat),
        decreases k - i,
    {
        proof {
            lemma_pow256_small();
            lemma_pow_increases(256, i as nat, 3);
            assert(buf@.subrange(1, 1 + (i + 1)).drop_last() =~= buf@.subrange(1, 1 + i as int));
            assert(buf@.subrange(1, 1 + (i + 1)).last() == buf@[1 + i]);
            lemma_pow_adds(256, i as nat, 1);
            lemma_pow1(256);
            assert(acc * 256 + 256 <= pow(256, i as nat) * 256) by (nonlinear_arith)
                requires acc < pow(256, i as nat),
            ;
        }
        acc = acc * 256 + (buf[1 + i] as u64);
        i = i + 1;
    }
    proof {
        lemma_pow256_small();
    }
    Ok((acc, 1 + k))
}

/// Read one tagged value from the front of `buf`: its content and the rest.
fn read_tlv(buf: &Vec<u8>, tag: u8) -> (res: Result<(Vec<u8>, Vec<u8>), Error>)
    ensures
        match res {
            Ok((c, rest)) => parse_tlv(tag, buf@) == Some((c@, rest@)),
            Err(e) => {
                &&& e == Error::MalformedContainer
                &&& parse_tlv(tag, buf@) == Option::<(Seq<u8>, Seq<u8>)>::None
            },
        },
{
    if buf.len() == 0 || buf[0] != tag {
        return Err(Error::MalformedContainer);
    }
    let tail = copy_range(buf, 1, buf.len());
    proof {
        assert(tail@ =~= buf@.skip(1));
    }
    let (l, c) = match read_len(&tail) {
        Ok(lc) => lc,
        Err(e) => {
            return Err(e);
        },
    };
    let avail = buf.len() - 1 - c;
    if l > avail as u64 {
        return Err(Error::MalformedContainer);
    }
    let lus = l as usize;
    let start = 1 + c;
    let content = copy_range(buf, start, start + lus);
    let rest = copy_range(buf, start + lus, buf.len());
    Ok((content, rest))
}

/// Read a DER unsigned integer from the front of `buf`: its canonical
/// numeral and the rest.
fn read_uint(buf: &Vec<u8>) -> (res: Result<(Vec<u8>, Vec<u8>), Error>)
    ensures
        match res {
            Ok((v, rest)) => {
                &&& parse_uint(buf@) == Some((v@, rest@))
                &&& normalized(v@)
            },
            Err(e) => {
                &&& e == Error::MalformedContainer
                &&& parse_uint(buf@) == Option::<(Seq<u8>, Seq<u8>)>::None
            },
        },
{
    let (c, rest) = match read_tlv(buf, 0x02) {
        Ok(cr) => cr,
        Err(e) => {
            return Err(e);
        },
    };
    if c.len() == 0 || c[0] >= 0x80 {
        return Err(Error::MalformedContainer);
    }
    if c.len() >= 2 && c[0] == 0 && c[1] < 0x80 {
        return Err(Error::MalformedContainer);
    }
    if c.len() == 1 && c[0] == 0 {
        let v: Vec<u8> = Vec::new();
        proof {
            assert(v@ =~= uint_value_of(c@));
        }
        return Ok((v, rest));
    }
    if c[0] == 0 {
        let v = copy_range(&c, 1, c.len());
        proof {
            assert(v@ =~= uint_value_of(c@));
        }
        return Ok((v, rest));
    }
    proof {
        assert(c@ =~= uint_value_of(c@));
    }
    Ok((c, rest))
}

/// What decoding accepts once the container parses: a structurally valid
/// parameter triple and a public value that passes key construction. A
/// failure of either is reported as the same malformed-container error as a
/// parse failure, so a remote caller cannot tell bad encoding from a bad
/// algebraic key.
pub open spec fn accepted(t: (Seq<u8>, Seq<u8>, Seq<u8>, Seq<u8>)) -> bool {
    &&& constructible(t.0, t.1, t.2)
    &&& fits(canon(t.3))
    &&& key_values_ok(be_val(t.0), be_val(t.1), be_val(t.3))
}

impl VerifyingKey {
    /// Decode the standardized DER public-key container: check the DSA
    /// algorithm identifier, read `(p, q, g)` and `y`, and run key
    /// construction on the decoded values.
    #[verifier::loop_isolation(false)]
    pub fn from_public_key_der(der: &Vec<u8>) -> (res: Result<VerifyingKey, Error>)
        ensures
            match res {
                Ok(k) => match parse_spki(der@) {
                    Option::Some(t) => {
                        &&& accepted(t)
                        &&& k.params().p_bytes() == t.0
                        &&& k.params().q_bytes() == t.1
                        &&& k.params().g_bytes() == t.2
                        &&& k.y_bytes() == t.3
                    },
                    Option::None => false,
                },
                Err(e) => {
                    &&& e == Error::MalformedContainer
                    &&& match parse_spki(der@) {
                        Option::Some(t) => !accepted(t),
                        Option::None => true,
                    }
                },
            },
    {
        let (body, outer_rest) = match read_tlv(der, 0x30) {
            Ok(x) => x,
            Err(e) => {
                return Err(e);
            },
        };
        if outer_rest.len() != 0 {
            return Err(Error::MalformedContainer);
        }
        let (alg, after_alg) = match read_tlv(&body, 0x30) {
            Ok(x) => x,
            Err(e) => {
                return Err(e);
            },
        };
        if alg.len() < 9 {
            return Err(Error::MalformedContainer);
        }
        let oid: Vec<u8> = vec![0x06u8, 0x07u8, 0x2Au8, 0x86u8, 0x48u8, 0xCEu8, 0x38u8, 0x04u8, 0x01u8];
        proof {
            assert(oid@ =~= dsa_oid());
        }
        let mut i: usize = 0;
        while i < 9
            invariant
                0 <= i <= 9,
                alg@.len() >= 9,
                oid@ == dsa_oid(),
                forall|j: int| 0 <= j < i ==> alg@[j] == oid@[j],
            decreases 9 - i,
        {
            if alg[i] != oid[i] {
                proof {
                    assert(alg@.take(9)[i as int] != dsa_oid()[i as int]);
                    assert(alg@.take(9) != dsa_oid());
                    assert(parse_tlv(0x30, der@) == Some((body@, outer_rest@)));
                    assert(parse_tlv(0x30, body@) == Some((alg@, after_alg@)));
                    assert(parse_spki(der@) == Option::<(Seq<u8>, Seq<u8>, Seq<u8>, Seq<u8>)>::None);
                }
                return Err(Error::MalformedContainer);
            }
            i = i + 1;
        }
        proof {
            assert(alg@.take(9) =~= dsa_oid());
        }
        let params_seq = copy_range(&alg, 9, alg.len());
        proof {
            assert(params_seq@ =~= alg@.skip(9));
        }
        let (params, params_rest) = match read_tlv(&params_seq, 0x30) {
            Ok(x) => x,
            Err(e) => {
                return Err(e);
            },
        };
        if params_rest.len() != 0 {
            return Err(Error::MalformedContainer);
        }
        let ghost tail_spec = parse_spki_tail(params@, after_alg@);
        proof {
            assert(parse_spki(der@) == tail_spec);
        }
        let (p, r1) = match read_uint(&params) {
            Ok(x) => x,
            Err(e) => {
                return Err(e);
            },
        };
        let (q, r2) = match read_uint(&r1) {
            Ok(x) => x,
            Err(e) => {
                return Err(e);
            },
        };
        let (g, r3) = match read_uint(&r2) {
            Ok(x) => x,
            Err(e) => {
                return Err(e);
            },
        };
        if r3.len() != 0 {
            return Err(Error::MalformedContainer);
        }
        let (bs, bs_rest) = match read_tlv(&after_alg, 0x03) {
            Ok(x) => x,
            Err(e) => {
                return Err(e);
            },
        };
        if bs_rest.len() != 0 || bs.len() == 0 || bs[0] != 0 {
            return Err(Error::MalformedContainer);
        }
        let y_seq = copy_range(&bs, 1, bs.len());
        proof {
            assert(y_seq@ =~= bs@.skip(1));
        }
        let (y, y_rest) = match read_uint(&y_seq) {
            Ok(x) => x,
            Err(e) => {
                return Err(e);
            },
        };
        if y_rest.len() != 0 {
            return Err(Error::MalformedContainer);
        }
        proof {
            assert(tail_spec == Some((p@, q@, g@, y@)));
        }
        let components = match Components::from_components(p, q, g) {
            Ok(c) => c,
            Err(_) => {
                return Err(Error::MalformedContainer);
            },
        };
        match VerifyingKey::from_components(components, y) {
            Ok(k) => Ok(k),
            Err(_) => Err(Error::MalformedContainer),
        }
    }
}

} // verus!
