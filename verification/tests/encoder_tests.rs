use luby_transform::encoder::Encoder;
use luby_transform::errors::LtError;

#[test]
fn test_encoder_initialization() {
    let source_blocks: Vec<Vec<u8>> = vec![vec![1, 2, 3], vec![4, 5, 6], vec![7, 8, 9]];
    let encoder = Encoder::new_default(source_blocks, Some(42)).unwrap();
    assert_eq!(encoder.source_block_count(), 3);
}

#[test]
fn test_encoded_block_generation() {
    let source_blocks: Vec<Vec<u8>> = vec![
        vec![1, 2, 3],
        vec![4, 5, 6],
        vec![7, 8, 9],
    ];
    let source_blocks_len = source_blocks.len();
    let mut encoder = Encoder::new_default(source_blocks, Some(1)).unwrap();

    // Generate a block with a known seed for reproducibility
    for _i in 2412..2430 {
        let (seed, d, indices, _encoded_block) = encoder.generate_encoded_block(None).unwrap();
        println!("indices = {:?}", indices);
        println!("d = {}", d);
        println!("seed = {}", seed);
        assert!(d >= 1 && d <= source_blocks_len);
    }
    println!("After Iteration, Single call");
    let (seed, d, indices, _encoded_block) = encoder.generate_encoded_block(None).unwrap();
    println!("indices = {:?}", indices);
    println!("d = {}", d);
    println!("seed = {}", seed);
}

#[test]
fn test_empty_source_rejected() {
    let no_blocks: Vec<Vec<u8>> = Vec::new();
    assert_eq!(Encoder::new_default(no_blocks, Some(1)).err(), Some(LtError::EmptySource));
}

// Zero-length source symbols cannot be encoded: the XOR path rejects them
// with LengthMismatch.
#[test]
fn test_zero_length_symbols_rejected() {
    let empties: Vec<Vec<u8>> = vec![vec![], vec![]];
    let mut encoder = Encoder::new_default(empties, Some(7)).unwrap();
    assert_eq!(
        encoder.generate_encoded_block(Some(42)).err(),
        Some(LtError::LengthMismatch)
    );
}

// Source symbols of differing lengths are rejected once a draw selects them.
#[test]
fn test_ragged_symbols_rejected() {
    let ragged: Vec<Vec<u8>> = vec![vec![1, 2, 3], vec![4, 5]];
    let mut encoder = Encoder::new_default(ragged, Some(7)).unwrap();
    let mut saw_mismatch = false;
    // Small seeds make the generator's first output small, which lands on
    // degree one; seeds around 100000 reach degree two as well.
    for seed in 100000..100064i64 {
        match encoder.generate_encoded_block(Some(seed)) {
            Err(e) => {
                assert_eq!(e, LtError::LengthMismatch);
                saw_mismatch = true;
            },
            Ok((_, d, indices, payload)) => {
                // A degree-one draw XORs a single symbol, so no mismatch
                // can be observed.
                assert_eq!(d, 1);
                assert_eq!(indices.len(), 1);
                assert_eq!(payload.len(), if indices[0] == 0 { 3 } else { 2 });
            },
        }
    }
    assert!(saw_mismatch);
}

// Under the canonical generator, seed 42 with two sources selects exactly
// the second source with degree one, so the emitted payload is that source.
#[test]
fn test_generate_known_payload() {
    let sources: Vec<Vec<u8>> = vec![vec![0x01, 0x02, 0x03], vec![0x04, 0x05, 0x06]];
    let mut encoder = Encoder::new_default(sources.clone(), None).unwrap();
    let (seed, d, indices, payload) = encoder.generate_encoded_block(Some(42)).unwrap();
    assert_eq!(seed, 42);
    assert_eq!(d, 1);
    assert_eq!(indices, vec![1usize]);
    assert_eq!(payload, sources[1]);

    // A degree-two packet is the byte-wise XOR of both sources
    // (seed 100000 draws degree two; recorded golden value).
    let (_, d, indices, payload) = encoder.generate_encoded_block(Some(100000)).unwrap();
    assert_eq!(d, 2);
    assert_eq!(indices.len(), 2);
    assert_eq!(payload, vec![0x01 ^ 0x04, 0x02 ^ 0x05, 0x03 ^ 0x06]);
}

// With a single source symbol every draw has degree one.
#[test]
fn test_single_source_always_degree_one() {
    let mut encoder = Encoder::new_default(vec![vec![9, 8, 7]], Some(3)).unwrap();
    for seed in [0i64, 1, 42, 1000, -5, i64::MAX] {
        let (_, d, indices, payload) = encoder.generate_encoded_block(Some(seed)).unwrap();
        assert_eq!(d, 1);
        assert_eq!(indices, vec![0usize]);
        assert_eq!(payload, vec![9, 8, 7]);
    }
}
