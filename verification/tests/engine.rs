use dsa::components::Components;
use dsa::sig::Signature;
use dsa::verifying_key::VerifyingKey;

const P_HEX: &str = "9008e6bcde2e97794f4c074db846767a8f67a8dba9475670e22369c99b6db7302ae3ea239483ad91311b2021fce64a025f9d7f55b026bbd7a20bca36d9eb61eda799f030421ebf0807fcf1701a9e79c94f0db49d062a999f673ada0ab89f2b8b39530eaff2601dbd7da2ab46bd4513656a5745eb2c66f4e593fdb3df752a26bb";
const Q_HEX: &str = "c9d9fe245a1eec7a3e6e4f9c699c4616f4548df1";
const G_HEX: &str = "3f8fb9e13423d171063966fa4d56f3d8aa0e90a7affd7eb89f87e0a4b5665fc05105965931de9c9b72b5ca8c6252dae4d2b29170536a0755c06abe066fc22c06ab2b30d3093f7da7ae71baa1b80804fb74f9f95d9925b77b5e5bc3c603742445441b0feb2abf6f7a895133e63274bcd9aa3aed6fff0346c84ee8fc7e4e96574e";
const Y_HEX: &str = "829dd5bde6bc91435c0c56c15959f594533f07abf16b04ca5b739fe4944f125bfe4feecfe7cb971c7394c560c78ab265111a881a036b55048c37dc044259c8efb3c50fae1e95246a5459fcbf4fe60fc6bd9df4b1eadea81b9799c52e2866f898005f3c5ca9db5cbf31137db28599bdd03e4e699199b3ed7fffbddf667df28b7a";
const R_HEX: &str = "4b0d0fb2e8b2793c96a65802dffcbf89b0c31631";
const S_HEX: &str = "838616d79cc717e32c8f1e7ddc5b647f3dfbdd5d";
const MSG: &[u8] = b"sample";
const DIGEST_HEX: &str = "af2bdbe1aa9b6ec1e2ade1d694f41fc71a831d0268e9891562113d8a62add1bf";

fn h(s: &str) -> Vec<u8> {
    let b = s.as_bytes();
    let nib = |c: u8| -> u8 {
        match c {
            b'0'..=b'9' => c - b'0',
            b'a'..=b'f' => c - b'a' + 10,
            b'A'..=b'F' => c - b'A' + 10,
            _ => panic!("bad hex"),
        }
    };
    assert!(b.len() % 2 == 0);
    let mut out = Vec::new();
    for pair in b.chunks(2) {
        out.push(nib(pair[0]) * 16 + nib(pair[1]));
    }
    out
}

fn key() -> VerifyingKey {
    let c = Components::from_components(h(P_HEX), h(Q_HEX), h(G_HEX)).expect("valid parameters");
    VerifyingKey::from_components(c, h(Y_HEX)).expect("y is in the subgroup")
}

fn sig() -> Signature {
    Signature::from_components(h(R_HEX), h(S_HEX)).expect("positive components")
}

#[test]
fn known_vector_verifies() {
    assert!(key().verify(&MSG.to_vec(), &sig()));
}

#[test]
fn known_vector_verifies_prehashed() {
    let k = key();
    assert!(k.verify_prehash(&h(DIGEST_HEX), &sig()));
    assert_eq!(k.verify_prehashed(&h(DIGEST_HEX), &sig()), Some(true));
}

#[test]
fn wrong_message_is_invalid() {
    assert!(!key().verify(&b"samplf".to_vec(), &sig()));
    assert!(!key().verify(&b"".to_vec(), &sig()));
}

#[test]
fn mutated_generator_is_invalid() {
    let mut g = h(G_HEX);
    let last = g.len() - 1;
    g[last] += 1;
    let c = Components::from_components(h(P_HEX), h(Q_HEX), g).expect("still in range");
    match VerifyingKey::from_components(c, h(Y_HEX)) {
        Ok(k) => assert!(!k.verify(&MSG.to_vec(), &sig())),
        Err(_) => {}
    }
}

#[test]
fn mutated_modulus_rejects_key() {
    // p + 2 stays odd; y cannot lie in an order-q subgroup of the new group.
    let mut p = h(P_HEX);
    let last = p.len() - 1;
    p[last] += 2;
    let c = Components::from_components(p, h(Q_HEX), h(G_HEX)).expect("structurally fine");
    assert!(VerifyingKey::from_components(c, h(Y_HEX)).is_err());
}

#[test]
fn mutated_order_rejects_key() {
    let mut q = h(Q_HEX);
    let last = q.len() - 1;
    q[last] += 2;
    let c = Components::from_components(h(P_HEX), q, h(G_HEX)).expect("structurally fine");
    assert!(VerifyingKey::from_components(c, h(Y_HEX)).is_err());
}

#[test]
fn mutated_r_or_s_is_invalid() {
    let mut r = h(R_HEX);
    let last = r.len() - 1;
    r[last] += 1;
    let s1 = Signature::from_components(r, h(S_HEX)).unwrap();
    assert!(!key().verify(&MSG.to_vec(), &s1));

    let mut s = h(S_HEX);
    let last = s.len() - 1;
    s[last] += 1;
    let s2 = Signature::from_components(h(R_HEX), s).unwrap();
    assert!(!key().verify(&MSG.to_vec(), &s2));
}

#[test]
fn tampering_any_byte_of_r_or_s_is_invalid() {
    let k = key();
    let msg = MSG.to_vec();
    let r = h(R_HEX);
    let s = h(S_HEX);
    for i in 0..r.len() {
        let mut rr = r.clone();
        rr[i] ^= 0xff;
        let tampered = Signature::from_components(rr, s.clone()).unwrap();
        assert!(!k.verify(&msg, &tampered));
    }
    for i in 0..s.len() {
        let mut ss = s.clone();
        ss[i] ^= 0xff;
        let tampered = Signature::from_components(r.clone(), ss).unwrap();
        assert!(!k.verify(&msg, &tampered));
    }
}

#[test]
fn out_of_range_components_are_deterministically_invalid() {
    let k = key();
    // r >= q and s >= q are rejected before any arithmetic.
    let big = Signature::from_components(h(Q_HEX), h(S_HEX)).unwrap();
    assert_eq!(k.verify_prehashed(&h(DIGEST_HEX), &big), Some(false));
    let big2 = Signature::from_components(h(R_HEX), h(P_HEX)).unwrap();
    assert_eq!(k.verify_prehashed(&h(DIGEST_HEX), &big2), Some(false));
    // Zero components cannot even be represented as a signature.
    assert!(Signature::from_components(vec![0], h(S_HEX)).is_err());
    assert!(Signature::from_components(h(R_HEX), vec![0]).is_err());
}

#[test]
fn verify_is_idempotent() {
    let k = key();
    let msg = MSG.to_vec();
    let first = k.verify(&msg, &sig());
    let second = k.verify(&msg, &sig());
    assert_eq!(first, second);
    assert!(first);
    let bad = k.verify(&b"other".to_vec(), &sig());
    let bad_again = k.verify(&b"other".to_vec(), &sig());
    assert_eq!(bad, bad_again);
}

#[test]
fn digest_is_truncated_to_whole_bytes_of_q() {
    // bitlen(q) = 160, so only the leading 20 digest bytes take part.
    let k = key();
    let d = h(DIGEST_HEX);
    let mut altered = d.clone();
    for i in 20..altered.len() {
        altered[i] = 0;
    }
    assert!(k.verify_prehash(&d, &sig()));
    assert!(k.verify_prehash(&altered, &sig()));
    // A change inside the leading 20 bytes must matter.
    let mut leading = d.clone();
    leading[0] ^= 1;
    assert!(!k.verify_prehash(&leading, &sig()));
}

#[test]
fn short_digest_is_used_whole() {
    // A digest shorter than 20 bytes reads as-is; a foreign digest is invalid.
    let k = key();
    assert_eq!(k.verify_prehashed(&vec![1, 2, 3], &sig()), Some(false));
}
