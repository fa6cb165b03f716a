//! Field-law and arithmetic tests for the GF(2^8) backend.

use rlnc::field::Field;
use rlnc::galois::GF256;

fn gf(p: u8) -> GF256 {
    GF256::new(p)
}

#[test]
fn test_primitive_element_order() {
    let primitive = GF256::primitive_element();
    let mut current = primitive;

    for _ in 1..255 {
        current = GF256::mul(current, primitive);
    }

    assert_eq!(current, GF256::one());

    // and no smaller power of the primitive element reaches one
    let mut current = primitive;
    for _ in 1..255 {
        assert_ne!(current, GF256::one());
        current = GF256::mul(current, primitive);
    }
}

#[test]
fn test_addition_is_xor() {
    assert_eq!(gf(0x53).add(gf(0xca)), gf(0x99));
    assert_eq!(gf(0x53).add(GF256::zero()), gf(0x53));
    assert_eq!(gf(0x53).add(gf(0x53)), GF256::zero());
    assert_eq!(gf(0x53).sub(gf(0xca)), gf(0x53).add(gf(0xca)));
    assert_eq!(gf(0x53).neg(), gf(0x53));
}

#[test]
fn test_multiplication_exact_values() {
    // x * x^7 wraps around the field polynomial: x^8 = x^4 + x^3 + x^2 + 1
    assert_eq!(GF256::mul(gf(2), gf(128)), gf(0x1d));
    assert_eq!(GF256::mul(gf(3), gf(7)), gf(9));
    assert_eq!(GF256::mul(gf(0), gf(0xff)), GF256::zero());
    assert_eq!(GF256::mul(gf(0xff), GF256::one()), gf(0xff));
}

#[test]
fn test_field_laws_on_samples() {
    let samples: [u8; 6] = [0, 1, 2, 0x53, 0xca, 0xff];
    for &a in samples.iter() {
        for &b in samples.iter() {
            assert_eq!(GF256::mul(gf(a), gf(b)), GF256::mul(gf(b), gf(a)));
            assert_eq!(gf(a).add(gf(b)), gf(b).add(gf(a)));
            for &c in samples.iter() {
                let left = GF256::mul(GF256::mul(gf(a), gf(b)), gf(c));
                let right = GF256::mul(gf(a), GF256::mul(gf(b), gf(c)));
                assert_eq!(left, right);
                let dl = GF256::mul(gf(a), gf(b).add(gf(c)));
                let dr = GF256::mul(gf(a), gf(b)).add(GF256::mul(gf(a), gf(c)));
                assert_eq!(dl, dr);
            }
        }
    }
}

#[test]
fn test_every_nonzero_element_has_inverse() {
    assert!(GF256::inv(GF256::zero()).is_none());
    for v in 1..=255u8 {
        let a = gf(v);
        let inv = GF256::inv(a).expect("non-zero element must have an inverse");
        assert_eq!(GF256::mul(a, inv), GF256::one());
        assert_eq!(GF256::mul(inv, a), GF256::one());
    }
}

#[test]
fn test_division() {
    assert!(gf(7).div(GF256::zero()).is_none());
    let q = gf(9).div(gf(3)).unwrap();
    assert_eq!(GF256::mul(q, gf(3)), gf(9));
}

#[test]
fn test_gf256_byte_round_trip() {
    for v in 0..=255u8 {
        let sym = <GF256 as Field>::from_bytes(&[v]);
        assert_eq!(sym.to_bytes(), vec![v]);
    }
}
