//! Encode/decode scenarios over GF(2^8).

use rand::RngExt;

use rlnc::common::RLNCError;
use rlnc::decode::Decoder;
use rlnc::encode::Encoder;
use rlnc::galois::GF256;
use rlnc::packet::RLNCPacket;

fn random_bytes(n: usize) -> Vec<u8> {
    let mut rng = rand::rng();
    let mut v = Vec::with_capacity(n);
    for _ in 0..n {
        v.push(rng.random::<u8>());
    }
    v
}

/// Feeds freshly drawn coded packets until the decoder completes, re-sampling
/// past linearly dependent packets.
fn decode_with_random_packets(encoder: &Encoder<GF256>, decoder: &mut Decoder<GF256>) -> Vec<u8> {
    let mut guard = 0;
    loop {
        let seed = random_bytes(encoder.chunk_count());
        let packet = encoder.encode(&seed).unwrap();
        if let Some(decoded) = decoder.decode(packet).unwrap() {
            return decoded;
        }
        guard += 1;
        assert!(guard < 10_000, "decoder failed to reach full rank");
    }
}

#[test]
fn test_single_byte_gf256() {
    let encoder = Encoder::<GF256>::new(b"A", 1).unwrap();
    let packet = encoder.encode_with_vector(&vec![GF256::one()]).unwrap();

    let mut decoder = Decoder::<GF256>::new(encoder.chunk_size(), 1).unwrap();
    let decoded = decoder.decode(packet).unwrap();

    assert_eq!(decoded, Some(b"A".to_vec()));
}

#[test]
fn test_hello_world_three_chunks() {
    let data = b"Hello, world!";
    let chunk_count = 3;
    let encoder = Encoder::<GF256>::new(data, chunk_count).unwrap();
    let mut decoder = Decoder::<GF256>::new(encoder.chunk_size(), chunk_count).unwrap();

    let decoded = decode_with_random_packets(&encoder, &mut decoder);
    assert_eq!(decoded, data.to_vec());
    assert_eq!(decoder.rank(), chunk_count);
}

#[test]
fn test_large_payload_gf256() {
    // 128 KiB of random bytes split into 10 chunks
    let data = random_bytes(128 * 1024);
    let chunk_count = 10;
    let encoder = Encoder::<GF256>::new(&data, chunk_count).unwrap();
    let mut decoder = Decoder::<GF256>::new(encoder.chunk_size(), chunk_count).unwrap();

    let decoded = decode_with_random_packets(&encoder, &mut decoder);
    assert_eq!(decoded, data);
}

#[test]
fn test_zero_coding_vector_rejected() {
    let encoder = Encoder::<GF256>::new(b"some payload", 4).unwrap();
    let mut decoder = Decoder::<GF256>::new(encoder.chunk_size(), 4).unwrap();

    let packet = encoder.encode_with_vector(&vec![GF256::zero(); 4]).unwrap();
    let before = decoder.rank();
    let result = decoder.decode(packet).unwrap();
    assert_eq!(result, None);
    assert_eq!(decoder.rank(), before);
}

#[test]
fn test_rank_monotonic_and_extra_packets() {
    let data = b"rank only ever grows";
    let chunk_count = 4;
    let encoder = Encoder::<GF256>::new(data, chunk_count).unwrap();
    let mut decoder = Decoder::<GF256>::new(encoder.chunk_size(), chunk_count).unwrap();

    let mut previous_rank = 0;
    let mut decoded = None;
    let mut fed = 0;
    while decoded.is_none() {
        let seed = random_bytes(encoder.chunk_count());
        let packet = encoder.encode(&seed).unwrap();
        decoded = decoder.decode(packet).unwrap();
        let rank = decoder.rank();
        assert!(rank >= previous_rank);
        assert!(rank <= chunk_count);
        previous_rank = rank;
        fed += 1;
        assert!(fed < 10_000);
    }
    assert_eq!(decoder.rank(), chunk_count);
    assert!(decoder.can_decode());
    assert_eq!(decoded.unwrap(), data.to_vec());

    // the (C+1)th packet and beyond never change the rank
    for _ in 0..3 {
        let seed = random_bytes(encoder.chunk_count());
        let packet = encoder.encode(&seed).unwrap();
        let _ = decoder.decode(packet).unwrap();
        assert_eq!(decoder.rank(), chunk_count);
    }
}

#[test]
fn test_duplicate_packet_rejected() {
    let data = b"duplicate feeds";
    let chunk_count = 3;
    let encoder = Encoder::<GF256>::new(data, chunk_count).unwrap();
    let mut decoder = Decoder::<GF256>::new(encoder.chunk_size(), chunk_count).unwrap();

    let seed = random_bytes(encoder.chunk_count());
    let packet = encoder.encode(&seed).unwrap();
    let copy = RLNCPacket { coding_vector: packet.coding_vector.clone(), data: packet.data.clone() };

    assert_eq!(decoder.decode(packet).unwrap(), None);
    let rank = decoder.rank();
    assert_eq!(decoder.decode(copy).unwrap(), None);
    assert_eq!(decoder.rank(), rank);
}

#[test]
fn test_error_variants() {
    assert!(matches!(Encoder::<GF256>::new(&[], 3), Err(RLNCError::EmptyData)));
    assert!(matches!(Encoder::<GF256>::new(b"x", 0), Err(RLNCError::ZeroChunkCount)));
    assert!(matches!(Decoder::<GF256>::new(0, 3), Err(RLNCError::ZeroChunkSize)));
    assert!(matches!(Decoder::<GF256>::new(10, 0), Err(RLNCError::ZeroPacketCount)));

    let encoder = Encoder::<GF256>::new(b"abcdef", 2).unwrap();
    assert!(matches!(
        encoder.encode_with_vector(&vec![GF256::one(); 3]),
        Err(RLNCError::InvalidCodingVectorLength(3, 2))
    ));

    let mut decoder = Decoder::<GF256>::new(encoder.chunk_size(), 2).unwrap();
    let bad = RLNCPacket::<GF256> { coding_vector: vec![GF256::one(); 5], data: vec![] };
    assert!(matches!(
        decoder.decode(bad),
        Err(RLNCError::InvalidCodingVectorLength(5, 2))
    ));
    let bad_data = RLNCPacket::<GF256> {
        coding_vector: vec![GF256::one(), GF256::zero()],
        data: vec![GF256::one()],
    };
    let expected = encoder.chunk_size();
    match decoder.decode(bad_data) {
        Err(RLNCError::ChunkSizeMismatch(got, want)) => {
            assert_eq!(got, 1);
            assert_eq!(want, expected);
        },
        other => panic!("expected ChunkSizeMismatch, got {:?}", other),
    }
}

#[test]
fn test_invalid_encoding_without_marker() {
    // a full-rank matrix whose rows carry no boundary marker at all
    let mut decoder = Decoder::<GF256>::new(4, 1).unwrap();
    let packet = RLNCPacket::<GF256> {
        coding_vector: vec![GF256::one()],
        data: vec![GF256::zero(); 4],
    };
    assert!(matches!(decoder.decode(packet), Err(RLNCError::InvalidEncoding)));
}

#[test]
fn test_not_enough_packets() {
    let matrix = rlnc::matrix::Matrix::<GF256>::new(3, 4);
    assert!(matches!(matrix.decode(), Err(RLNCError::NotEnoughPackets(0, 3))));
}

#[test]
fn test_packet_primitives() {
    let mut packet = RLNCPacket::<GF256> {
        coding_vector: vec![GF256::zero(), GF256::new(3), GF256::new(9)],
        data: vec![GF256::new(6)],
    };
    assert_eq!(packet.degree(), 2);
    assert_eq!(packet.leading_coefficient(), Some(1));

    packet.normalize();
    assert_eq!(packet.coding_vector[1], GF256::one());
    // every entry was scaled by the inverse of 3
    let ik = GF256::inv(GF256::new(3)).unwrap();
    assert_eq!(packet.coding_vector[2], GF256::mul(GF256::new(9), ik));
    assert_eq!(packet.data[0], GF256::mul(GF256::new(6), ik));

    let src = RLNCPacket::<GF256> {
        coding_vector: vec![GF256::one(), GF256::zero(), GF256::new(2)],
        data: vec![GF256::new(5)],
    };
    let before = packet.coding_vector[2];
    packet.subtract_row(&src, GF256::new(7));
    assert_eq!(packet.coding_vector[0], GF256::mul(GF256::new(7), GF256::one()));
    assert_eq!(packet.coding_vector[1], GF256::one());
    assert_eq!(packet.coding_vector[2], before.sub(GF256::mul(GF256::new(7), GF256::new(2))));
}
