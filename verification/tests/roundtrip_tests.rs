use luby_transform::decoder::Decoder;
use luby_transform::encoder::Encoder;

fn ten_sources() -> Vec<Vec<u8>> {
    let mut sources: Vec<Vec<u8>> = Vec::new();
    for i in 0..10u8 {
        // "symbolNNABCDEFGHI": ten ASCII symbols, 17 bytes each.
        let mut s = format!("symbol{:02}ABCDEFGHI", i).into_bytes();
        s.truncate(17);
        sources.push(s);
    }
    sources
}

fn hundred_packets(sources: &[Vec<u8>]) -> Vec<(i64, usize, Vec<u8>)> {
    let mut encoder = Encoder::new_default(sources.to_vec(), Some(1)).unwrap();
    let mut packets = Vec::new();
    for _ in 0..100 {
        let (seed, d, _indices, payload) = encoder.generate_encoded_block(None).unwrap();
        packets.push((seed, d, payload));
    }
    packets
}

// Ten ASCII sources of 17 bytes, one hundred packets from seed 1: decoding
// completes and recovers every source byte for byte.
#[test]
fn test_roundtrip_ten_sources() {
    let sources = ten_sources();
    let packets = hundred_packets(&sources);

    let mut decoder = Decoder::new_default(10, 17).unwrap();
    for (seed, d, payload) in &packets {
        decoder.add_encoded_block(*seed, *d, payload.clone()).unwrap();
    }
    assert!(decoder.is_complete());
    let blocks = decoder.get_all_decoded_blocks().unwrap();
    for i in 0..10 {
        assert_eq!(blocks[i], sources[i]);
    }
}

// The same hundred packets in a fixed shuffled order give the identical
// result: decoding is order-independent.
#[test]
fn test_order_independence_shuffled() {
    let sources = ten_sources();
    let packets = hundred_packets(&sources);

    let mut in_order = Decoder::new_default(10, 17).unwrap();
    for (seed, d, payload) in &packets {
        in_order.add_encoded_block(*seed, *d, payload.clone()).unwrap();
    }

    let mut shuffled = Decoder::new_default(10, 17).unwrap();
    for i in 0..100usize {
        // A fixed permutation of 0..100 (37 is coprime to 100).
        let j = (i * 37 + 11) % 100;
        let (seed, d, payload) = &packets[j];
        shuffled.add_encoded_block(*seed, *d, payload.clone()).unwrap();
    }

    assert!(in_order.is_complete());
    assert!(shuffled.is_complete());
    assert_eq!(
        in_order.get_all_decoded_blocks().unwrap(),
        shuffled.get_all_decoded_blocks().unwrap(),
    );
}

// After decoding completes, one more packet — whatever its seed or bytes —
// changes nothing and raises no error.
#[test]
fn test_redundant_packet_after_completion() {
    let sources = ten_sources();
    let packets = hundred_packets(&sources);

    let mut decoder = Decoder::new_default(10, 17).unwrap();
    for (seed, d, payload) in &packets {
        decoder.add_encoded_block(*seed, *d, payload.clone()).unwrap();
    }
    assert!(decoder.is_complete());
    let before = decoder.get_all_decoded_blocks().unwrap();

    decoder.add_encoded_block(999, 1, vec![0u8; 17]).unwrap();
    decoder.add_encoded_block(-4711, 3, vec![0xFFu8; 17]).unwrap();

    assert!(decoder.is_complete());
    assert_eq!(decoder.get_all_decoded_blocks().unwrap(), before);
}

// Feeding the same packet twice never corrupts the table: the second copy
// is absorbed as redundant.
#[test]
fn test_idempotent_packets() {
    let sources = ten_sources();
    let packets = hundred_packets(&sources);

    let mut decoder = Decoder::new_default(10, 17).unwrap();
    for (seed, d, payload) in &packets {
        decoder.add_encoded_block(*seed, *d, payload.clone()).unwrap();
        decoder.add_encoded_block(*seed, *d, payload.clone()).unwrap();
    }
    assert!(decoder.is_complete());
    let blocks = decoder.get_all_decoded_blocks().unwrap();
    for i in 0..10 {
        assert_eq!(blocks[i], sources[i]);
    }
}

// Two byte-identical source symbols decode into both of their slots.
#[test]
fn test_duplicate_sources_roundtrip() {
    let mut sources = ten_sources();
    sources[7] = sources[3].clone();
    let packets = hundred_packets(&sources);

    let mut decoder = Decoder::new_default(10, 17).unwrap();
    for (seed, d, payload) in &packets {
        decoder.add_encoded_block(*seed, *d, payload.clone()).unwrap();
    }
    assert!(decoder.is_complete());
    let blocks = decoder.get_all_decoded_blocks().unwrap();
    for i in 0..10 {
        assert_eq!(blocks[i], sources[i]);
    }
    assert_eq!(blocks[3], blocks[7]);
}

// For every seed, the encoder's draw and the decoder's reconstruction agree
// on the degree and the index set.
#[test]
fn test_encoder_decoder_same_indices() {
    let sources = ten_sources();
    let mut encoder = Encoder::new_default(sources, None).unwrap();
    let mut decoder = Decoder::new_default(10, 17).unwrap();
    for seed in [1i64, 2, 42, 999, 123456789, -1, i64::MIN, i64::MAX] {
        let (echo, d, indices, _payload) = encoder.generate_encoded_block(Some(seed)).unwrap();
        let (d2, indices2) = decoder.reconstruct_indices(seed).unwrap();
        assert_eq!(echo, seed);
        assert_eq!(d, d2);
        assert_eq!(indices, indices2);
    }
}

// A packet generated without an explicit seed echoes the generator state;
// reconstructing from that echo yields the same index set.
#[test]
fn test_seed_echo_reconstruction() {
    let sources = ten_sources();
    let mut encoder = Encoder::new_default(sources, Some(77)).unwrap();
    let mut decoder = Decoder::new_default(10, 17).unwrap();
    for _ in 0..20 {
        let (echo, d, indices, _payload) = encoder.generate_encoded_block(None).unwrap();
        let (d2, indices2) = decoder.reconstruct_indices(echo).unwrap();
        assert_eq!(d, d2);
        assert_eq!(indices, indices2);
    }
}
