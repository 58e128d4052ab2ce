use dsa::components::Components;
use dsa::sig::Signature;
use dsa::verifying_key::VerifyingKey;
use dsa::Error;

const P_HEX: &str = "9008e6bcde2e97794f4c074db846767a8f67a8dba9475670e22369c99b6db7302ae3ea239483ad91311b2021fce64a025f9d7f55b026bbd7a20bca36d9eb61eda799f030421ebf0807fcf1701a9e79c94f0db49d062a999f673ada0ab89f2b8b39530eaff2601dbd7da2ab46bd4513656a5745eb2c66f4e593fdb3df752a26bb";
const Q_HEX: &str = "c9d9fe245a1eec7a3e6e4f9c699c4616f4548df1";
const G_HEX: &str = "3f8fb9e13423d171063966fa4d56f3d8aa0e90a7affd7eb89f87e0a4b5665fc05105965931de9c9b72b5ca8c6252dae4d2b29170536a0755c06abe066fc22c06ab2b30d3093f7da7ae71baa1b80804fb74f9f95d9925b77b5e5bc3c603742445441b0feb2abf6f7a895133e63274bcd9aa3aed6fff0346c84ee8fc7e4e96574e";
const Y_HEX: &str = "829dd5bde6bc91435c0c56c15959f594533f07abf16b04ca5b739fe4944f125bfe4feecfe7cb971c7394c560c78ab265111a881a036b55048c37dc044259c8efb3c50fae1e95246a5459fcbf4fe60fc6bd9df4b1eadea81b9799c52e2866f898005f3c5ca9db5cbf31137db28599bdd03e4e699199b3ed7fffbddf667df28b7a";

fn h(s: &str) -> Vec<u8> {
    let b = s.as_bytes();
    let nib = |c: u8| -> u8 {
        match c {
            b'0'..=b'9' => c - b'0',
            b'a'..=b'f' => c - b'a' + 10,
            b'A'..=b'F' => c - b'A' + 10,
            _ => panic!("bad hex"),
        }
    };
    assert!(b.len() % 2 == 0);
    let mut out = Vec::new();
    for pair in b.chunks(2) {
        out.push(nib(pair[0]) * 16 + nib(pair[1]));
    }
    out
}

fn params() -> Components {
    Components::from_components(h(P_HEX), h(Q_HEX), h(G_HEX)).expect("valid parameters")
}

#[test]
fn construct_valid_key_round_trips_y() {
    let key = VerifyingKey::from_components(params(), h(Y_HEX)).expect("y is in the subgroup");
    assert_eq!(key.y().clone(), h(Y_HEX));
    assert_eq!(key.components().p().clone(), h(P_HEX));
    assert_eq!(key.components().q().clone(), h(Q_HEX));
    assert_eq!(key.components().g().clone(), h(G_HEX));
}

#[test]
fn construct_accepts_y_with_leading_zeros() {
    let mut y = vec![0u8, 0u8];
    y.extend_from_slice(&h(Y_HEX));
    let key = VerifyingKey::from_components(params(), y).expect("leading zeros are trimmed");
    assert_eq!(key.y().clone(), h(Y_HEX));
}

#[test]
fn construct_rejects_y_outside_subgroup() {
    // p - 1 has order 2, never order q (q is odd), so it must be rejected.
    let mut pm1 = h(P_HEX);
    let last = pm1.len() - 1;
    pm1[last] -= 1;
    let res = VerifyingKey::from_components(params(), pm1);
    assert_eq!(res.unwrap_err(), Error::InvalidKey);
}

#[test]
fn construct_rejects_y_plus_one() {
    let mut y = h(Y_HEX);
    let last = y.len() - 1;
    y[last] += 1;
    assert_eq!(VerifyingKey::from_components(params(), y).unwrap_err(), Error::InvalidKey);
}

#[test]
fn construct_rejects_small_y() {
    assert_eq!(VerifyingKey::from_components(params(), vec![]).unwrap_err(), Error::InvalidKey);
    assert_eq!(VerifyingKey::from_components(params(), vec![0]).unwrap_err(), Error::InvalidKey);
    assert_eq!(VerifyingKey::from_components(params(), vec![1]).unwrap_err(), Error::InvalidKey);
}

#[test]
fn components_reject_even_modulus() {
    let mut p = h(P_HEX);
    let last = p.len() - 1;
    p[last] &= 0xfe;
    assert_eq!(
        Components::from_components(p, h(Q_HEX), h(G_HEX)).unwrap_err(),
        Error::InvalidKey
    );
}

#[test]
fn components_reject_even_order() {
    let mut q = h(Q_HEX);
    let last = q.len() - 1;
    q[last] &= 0xfe;
    assert_eq!(
        Components::from_components(h(P_HEX), q, h(G_HEX)).unwrap_err(),
        Error::InvalidKey
    );
}

#[test]
fn components_reject_generator_out_of_range() {
    assert_eq!(
        Components::from_components(h(P_HEX), h(Q_HEX), vec![1]).unwrap_err(),
        Error::InvalidKey
    );
    assert_eq!(
        Components::from_components(h(P_HEX), h(Q_HEX), h(P_HEX)).unwrap_err(),
        Error::InvalidKey
    );
}

#[test]
fn components_trim_leading_zeros() {
    let mut p = vec![0u8];
    p.extend_from_slice(&h(P_HEX));
    let c = Components::from_components(p, h(Q_HEX), h(G_HEX)).expect("still valid");
    assert_eq!(c.p().clone(), h(P_HEX));
}

#[test]
fn signature_rejects_zero_components() {
    assert!(Signature::from_components(vec![0, 0], h(Q_HEX)).is_err());
    assert!(Signature::from_components(h(Q_HEX), vec![]).is_err());
    let sig = Signature::from_components(vec![0, 5], vec![7]).expect("positive components");
    assert_eq!(sig.r().clone(), vec![5]);
    assert_eq!(sig.s().clone(), vec![7]);
}
