//! Encode/decode scenarios and arithmetic checks over the BLS12-381 scalar
//! field.

use rand::RngExt;

use rlnc::decode::Decoder;
use rlnc::encode::Encoder;
use rlnc::field::Field;
use rlnc::scalar::Scalar;

/// The field order as little-endian bytes.
const MODULUS_LE: [u8; 32] = [
    0x01, 0x00, 0x00, 0x00, 0xff, 0xff, 0xff, 0xff, 0xfe, 0x5b, 0xfe, 0xff, 0x02, 0xa4, 0xbd,
    0x53, 0x05, 0xd8, 0xa1, 0x09, 0x08, 0xd8, 0x39, 0x33, 0x48, 0x7d, 0x9d, 0x29, 0x53, 0xa7,
    0xed, 0x73,
];

fn random_bytes(n: usize) -> Vec<u8> {
    let mut rng = rand::rng();
    let mut v = Vec::with_capacity(n);
    for _ in 0..n {
        v.push(rng.random::<u8>());
    }
    v
}

fn scalar_from_u64(v: u64) -> Scalar {
    let bytes = v.to_le_bytes();
    <Scalar as Field>::from_bytes(&bytes)
}

fn decode_with_random_packets(encoder: &Encoder<Scalar>, decoder: &mut Decoder<Scalar>) -> Vec<u8> {
    let mut guard = 0;
    loop {
        let seed = random_bytes(encoder.chunk_count() * 31);
        let packet = encoder.encode(&seed).unwrap();
        if let Some(decoded) = decoder.decode(packet).unwrap() {
            return decoded;
        }
        guard += 1;
        assert!(guard < 10_000, "decoder failed to reach full rank");
    }
}

#[test]
fn test_encode_decode_with_random_vectors() {
    let data_size = 1024 * 1024;
    let original_data = random_bytes(data_size);
    let chunk_count = 5;

    let encoder = Encoder::<Scalar>::new(&original_data, chunk_count).unwrap();
    // the chunk size is a multiple of the 31-byte symbol capacity
    assert_eq!(encoder.chunk_size() % 31, 0);

    let mut decoder = Decoder::<Scalar>::new(encoder.chunk_size(), chunk_count).unwrap();
    let decoded = decode_with_random_packets(&encoder, &mut decoder);

    assert!(decoded.starts_with(&original_data));
    assert_eq!(decoded, original_data);
}

#[test]
fn test_single_byte_data() {
    let original_data = b"A";
    let chunk_count = 1;

    let encoder = Encoder::<Scalar>::new(original_data, chunk_count).unwrap();
    let packet = encoder.encode_with_vector(&vec![Scalar::one()]).unwrap();

    let mut decoder = Decoder::<Scalar>::new(encoder.chunk_size(), chunk_count).unwrap();
    let decoded = decoder.decode(packet).unwrap();

    assert!(decoded.is_some());
    let decoded_data = decoded.unwrap();
    assert!(decoded_data.starts_with(original_data));
}

#[test]
fn test_scalar_addition_exact() {
    let a = scalar_from_u64(200);
    let b = scalar_from_u64(100);
    let sum = a.add(b);
    assert_eq!(sum, scalar_from_u64(300));
    let bytes = sum.to_bytes();
    assert_eq!(bytes[0], 44);
    assert_eq!(bytes[1], 1);
    assert!(bytes[2..].iter().all(|&x| x == 0));
}

#[test]
fn test_scalar_multiplication_exact() {
    let a = scalar_from_u64(16);
    let product = a.mul(a);
    let bytes = product.to_bytes();
    assert_eq!(bytes[0], 0);
    assert_eq!(bytes[1], 1);
    assert!(bytes[2..].iter().all(|&x| x == 0));
}

#[test]
fn test_scalar_subtraction_wraps_to_modulus() {
    // 0 - 1 is the field order minus one
    let zero = Scalar::zero();
    let one = Scalar::one();
    let diff = zero.sub(one);
    let mut expected = MODULUS_LE;
    expected[0] -= 1;
    assert_eq!(diff.b, expected);
}

#[test]
fn test_scalar_inverse() {
    assert!(Scalar::zero().inv().is_none());
    let a = scalar_from_u64(7);
    let inv = a.inv().unwrap();
    assert_eq!(a.mul(inv), Scalar::one());

    let b = scalar_from_u64(123456789);
    let ib = b.inv().unwrap();
    assert_eq!(ib.mul(b), Scalar::one());
}

#[test]
fn test_scalar_field_laws_on_samples() {
    let samples = [0u64, 1, 2, 7, 123456789, u64::MAX];
    for &x in samples.iter() {
        for &y in samples.iter() {
            let a = scalar_from_u64(x);
            let b = scalar_from_u64(y);
            assert_eq!(a.add(b), b.add(a));
            assert_eq!(a.mul(b), b.mul(a));
            assert_eq!(a.add(Scalar::zero()), a);
            assert_eq!(a.mul(Scalar::one()), a);
            assert_eq!(a.sub(a), Scalar::zero());
            for &z in samples.iter() {
                let c = scalar_from_u64(z);
                assert_eq!(a.add(b).add(c), a.add(b.add(c)));
                assert_eq!(a.mul(b).mul(c), a.mul(b.mul(c)));
                assert_eq!(a.mul(b.add(c)), a.mul(b).add(a.mul(c)));
            }
        }
    }
}

#[test]
fn test_scalar_byte_round_trip() {
    let payload: Vec<u8> = (0u8..31).map(|x| x.wrapping_mul(37).wrapping_add(11)).collect();
    let sym = <Scalar as Field>::from_bytes(&payload);
    assert_eq!(sym.to_bytes(), payload);
}

#[test]
fn test_safe_capacity() {
    assert_eq!(<Scalar as Field>::safe_capacity(), 31);
    assert_eq!(<rlnc::galois::GF256 as Field>::safe_capacity(), 1);
}
