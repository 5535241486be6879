use luby_transform::decoder::Decoder;
use luby_transform::errors::LtError;

#[test]
fn test_decoder_initialization() {
    let decoder = Decoder::new_default(10, 1024).unwrap();
    assert_eq!(decoder.k(), 10);
    assert_eq!(decoder.block_size(), 1024);
    assert_eq!(decoder.decoded_count(), 0);
}

#[test]
fn test_add_block() {
    let mut decoder = Decoder::new_default(2, 3).unwrap();
    decoder.add_encoded_block(42, 1, vec![1, 2, 3]).unwrap();

    // With just one block of degree 1, we should be able to decode one source block
    assert!(decoder.decoded_count() as i64 >= 0);
}

#[test]
fn test_decode_complete() {
    let mut decoder = Decoder::new_default(2, 3).unwrap();
    decoder.add_encoded_block(42, 1, vec![1, 2, 3]).unwrap();
    decoder.add_encoded_block(43, 1, vec![4, 5, 6]).unwrap();

    // With two blocks of degree 1, we should be able to decode all source blocks
    assert!(decoder.is_complete());
}

// Two sources, three bytes each.  Under the canonical generator seed 42
// lands on degree one with index 1, and seed 43 on degree one with index 0
// (recorded golden mapping), so feeding each source under its seed recovers
// the pair exactly.
#[test]
fn test_two_singletons_recover_sources() {
    let sources: Vec<Vec<u8>> = vec![vec![0x01, 0x02, 0x03], vec![0x04, 0x05, 0x06]];

    let mut decoder = Decoder::new_default(2, 3).unwrap();
    let (d42, idx42) = decoder.reconstruct_indices(42).unwrap();
    let (d43, idx43) = decoder.reconstruct_indices(43).unwrap();
    assert_eq!((d42, idx42), (1, vec![1usize]));
    assert_eq!((d43, idx43), (1, vec![0usize]));

    decoder.add_encoded_block(42, 1, sources[1].clone()).unwrap();
    assert_eq!(decoder.decoded_count(), 1);
    decoder.add_encoded_block(43, 1, sources[0].clone()).unwrap();

    assert!(decoder.is_complete());
    let blocks = decoder.get_all_decoded_blocks().unwrap();
    assert_eq!(blocks, sources);
    assert_eq!(decoder.get_decoded_block(0), Some(&sources[0]));
    assert_eq!(decoder.get_decoded_block(1), Some(&sources[1]));
}

// A single source symbol: every packet has degree one, and the first
// genuine packet solves the whole message.
#[test]
fn test_single_source_first_packet() {
    let payload: Vec<u8> = vec![0xAA, 0xBB, 0xCC, 0xDD];
    let mut decoder = Decoder::new_default(1, 4).unwrap();
    let (d, idx) = decoder.reconstruct_indices(12345).unwrap();
    assert_eq!((d, idx), (1, vec![0usize]));
    decoder.add_encoded_block(12345, 1, payload.clone()).unwrap();
    assert!(decoder.is_complete());
    assert_eq!(decoder.get_all_decoded_blocks().unwrap(), vec![payload]);
    assert!(decoder.current_round() >= 1);
}

// A symbol of the wrong length — in particular length zero — is rejected
// with LengthMismatch and leaves the decoder untouched.
#[test]
fn test_zero_length_payload_rejected() {
    let mut decoder = Decoder::new_default(2, 3).unwrap();
    assert_eq!(decoder.add_encoded_block(42, 1, vec![]), Err(LtError::LengthMismatch));
    assert_eq!(decoder.add_encoded_block(42, 1, vec![1, 2]), Err(LtError::LengthMismatch));
    assert_eq!(decoder.decoded_count(), 0);
    decoder.add_encoded_block(42, 1, vec![1, 2, 3]).unwrap();
    assert_eq!(decoder.decoded_count(), 1);
}

#[test]
fn test_decoder_configuration_errors() {
    assert_eq!(Decoder::new_default(0, 16).err(), Some(LtError::ConfigurationError));
    assert_eq!(Decoder::new_default(4, 0).err(), Some(LtError::ConfigurationError));
}

#[test]
fn test_get_decoded_block_bounds() {
    let decoder = Decoder::new_default(3, 5).unwrap();
    assert_eq!(decoder.get_decoded_block(0), None);
    assert_eq!(decoder.get_decoded_block(99), None);
    assert_eq!(decoder.get_all_decoded_blocks(), None);
}

// Receipts start at zero and increase by one per accepted packet; the
// round counter starts at zero and moves once decoding work happens.
#[test]
fn test_receipts_and_rounds() {
    let mut decoder = Decoder::new_default(2, 3).unwrap();
    assert_eq!(decoder.current_round(), 0);
    let r0 = decoder.add_encoded_block(42, 1, vec![1, 2, 3]).unwrap();
    let r1 = decoder.add_encoded_block(43, 1, vec![4, 5, 6]).unwrap();
    let r2 = decoder.add_encoded_block(42, 1, vec![1, 2, 3]).unwrap();
    assert_eq!((r0, r1, r2), (0, 1, 2));
    assert!(decoder.current_round() >= 1);
}
