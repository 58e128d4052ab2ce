use dsa::components::Components;
use dsa::verifying_key::VerifyingKey;
use dsa::Error;

const P_HEX: &str = "9008e6bcde2e97794f4c074db846767a8f67a8dba9475670e22369c99b6db7302ae3ea239483ad91311b2021fce64a025f9d7f55b026bbd7a20bca36d9eb61eda799f030421ebf0807fcf1701a9e79c94f0db49d062a999f673ada0ab89f2b8b39530eaff2601dbd7da2ab46bd4513656a5745eb2c66f4e593fdb3df752a26bb";
const Q_HEX: &str = "c9d9fe245a1eec7a3e6e4f9c699c4616f4548df1";
const G_HEX: &str = "3f8fb9e13423d171063966fa4d56f3d8aa0e90a7affd7eb89f87e0a4b5665fc05105965931de9c9b72b5ca8c6252dae4d2b29170536a0755c06abe066fc22c06ab2b30d3093f7da7ae71baa1b80804fb74f9f95d9925b77b5e5bc3c603742445441b0feb2abf6f7a895133e63274bcd9aa3aed6fff0346c84ee8fc7e4e96574e";
const Y_HEX: &str = "829dd5bde6bc91435c0c56c15959f594533f07abf16b04ca5b739fe4944f125bfe4feecfe7cb971c7394c560c78ab265111a881a036b55048c37dc044259c8efb3c50fae1e95246a5459fcbf4fe60fc6bd9df4b1eadea81b9799c52e2866f898005f3c5ca9db5cbf31137db28599bdd03e4e699199b3ed7fffbddf667df28b7a";

fn h(s: &str) -> Vec<u8> {
    let b = s.as_bytes();
    let nib = |c: u8| -> u8 {
        match c {
            b'0'..=b'9' => c - b'0',
            b'a'..=b'f' => c - b'a' + 10,
            b'A'..=b'F' => c - b'A' + 10,
            _ => panic!("bad hex"),
        }
    };
    assert!(b.len() % 2 == 0);
    let mut out = Vec::new();
    for pair in b.chunks(2) {
        out.push(nib(pair[0]) * 16 + nib(pair[1]));
    }
    out
}

fn key() -> VerifyingKey {
    let c = Components::from_components(h(P_HEX), h(Q_HEX), h(G_HEX)).expect("valid parameters");
    VerifyingKey::from_components(c, h(Y_HEX)).expect("y is in the subgroup")
}

/// The position of the DSA object identifier bytes inside the container.
fn oid_position(der: &[u8]) -> usize {
    let pat = [0x06u8, 0x07, 0x2a, 0x86, 0x48, 0xce, 0x38, 0x04, 0x01];
    for i in 0..der.len() - pat.len() + 1 {
        if der[i..i + pat.len()] == pat {
            return i;
        }
    }
    panic!("object identifier not found");
}

#[test]
fn encode_then_decode_preserves_every_field() {
    let k = key();
    let der = k.to_public_key_der();
    let back = VerifyingKey::from_public_key_der(&der).expect("the canonical container decodes");
    assert_eq!(back.components().p().clone(), h(P_HEX));
    assert_eq!(back.components().q().clone(), h(Q_HEX));
    assert_eq!(back.components().g().clone(), h(G_HEX));
    assert_eq!(back.y().clone(), h(Y_HEX));
    // And re-encoding yields the same bytes: the encoding is canonical.
    assert_eq!(back.to_public_key_der(), der);
}

#[test]
fn container_structure_is_as_laid_out() {
    let der = k_der();
    // Outer SEQUENCE with a two-byte length (the container is 300-600 bytes).
    assert_eq!(der[0], 0x30);
    assert_eq!(der[1], 0x82);
    // The algorithm identifier starts right after, holding the OID first.
    let pos = oid_position(&der);
    assert!(pos < 10);
}

fn k_der() -> Vec<u8> {
    key().to_public_key_der()
}

#[test]
fn wrong_algorithm_identifier_is_malformed() {
    let mut der = k_der();
    let pos = oid_position(&der);
    // Turn the object identifier into some other algorithm's.
    der[pos + 8] = 0x02;
    assert_eq!(VerifyingKey::from_public_key_der(&der).unwrap_err(), Error::MalformedContainer);
}

#[test]
fn truncated_container_is_malformed() {
    let der = k_der();
    for cut in [0usize, 1, 2, 5, der.len() / 2, der.len() - 1] {
        let shorter = der[..cut].to_vec();
        assert_eq!(
            VerifyingKey::from_public_key_der(&shorter).unwrap_err(),
            Error::MalformedContainer
        );
    }
}

#[test]
fn trailing_bytes_are_malformed() {
    let mut der = k_der();
    der.push(0);
    assert_eq!(VerifyingKey::from_public_key_der(&der).unwrap_err(), Error::MalformedContainer);
}

#[test]
fn wrong_outer_tag_is_malformed() {
    let mut der = k_der();
    der[0] = 0x31;
    assert_eq!(VerifyingKey::from_public_key_der(&der).unwrap_err(), Error::MalformedContainer);
}

#[test]
fn bit_string_with_unused_bits_is_malformed() {
    let mut der = k_der();
    // The bit string's first content byte (unused-bit count) must be zero;
    // it sits directly before the DER integer y near the end.
    let y_content = h(Y_HEX);
    // y has its top bit set, so it is encoded with one leading zero byte.
    let y_der_len = y_content.len() + 1;
    // ... preceded by tag 0x02 and a two-byte length, inside the bit string.
    let unused_pos = der.len() - y_der_len - 3 - 1;
    assert_eq!(der[unused_pos], 0x00);
    der[unused_pos] = 0x01;
    assert_eq!(VerifyingKey::from_public_key_der(&der).unwrap_err(), Error::MalformedContainer);
}

#[test]
fn decoded_key_must_still_pass_validation() {
    // A structurally perfect container around an invalid y: the decode must
    // collapse the algebraic failure into the same malformed-container error.
    let c = Components::from_components(h(P_HEX), h(Q_HEX), h(G_HEX)).unwrap();
    let good = VerifyingKey::from_components(c, h(Y_HEX)).unwrap();
    let der = good.to_public_key_der();
    // Flip a low byte of y inside the container: y leaves the subgroup.
    let mut bad = der.clone();
    let last = bad.len() - 1;
    bad[last] ^= 1;
    assert_eq!(VerifyingKey::from_public_key_der(&bad).unwrap_err(), Error::MalformedContainer);
}

#[test]
fn non_minimal_integer_is_malformed() {
    // Hand-built container fragment check: a legal container re-encoded with
    // an extra zero byte in front of q's content must be rejected. Splice it.
    let der = k_der();
    let q = h(Q_HEX);
    // q's content is 21 bytes (leading zero since the top bit is set),
    // preceded by tag 0x02 and length 0x15.
    let mut pat = vec![0x02u8, 0x15, 0x00];
    pat.extend_from_slice(&q);
    let pos = find(&der, &pat);
    // Widen to a non-minimal encoding: 0x02 0x16 0x00 0x00 q...
    let mut bad = Vec::new();
    bad.extend_from_slice(&der[..pos]);
    bad.extend_from_slice(&[0x02, 0x16, 0x00, 0x00]);
    bad.extend_from_slice(&q);
    bad.extend_from_slice(&der[pos + pat.len()..]);
    // Outer lengths no longer match the content, and the integer itself is
    // non-minimal: decoding must fail either way.
    assert!(VerifyingKey::from_public_key_der(&bad).is_err());
}

fn find(hay: &[u8], needle: &[u8]) -> usize {
    for i in 0..hay.len() - needle.len() + 1 {
        if &hay[i..i + needle.len()] == needle {
            return i;
        }
    }
    panic!("pattern not found");
}

#[test]
fn empty_container_is_malformed() {
    assert_eq!(
        VerifyingKey::from_public_key_der(&Vec::new()).unwrap_err(),
        Error::MalformedContainer
    );
}
