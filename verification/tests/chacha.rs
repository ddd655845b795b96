use turborand::internal::buffer::EntropyBuffer;
use turborand::source::chacha::utils::{
    calculate_block, increment_counter, init_state, AlignedSeed,
};
use turborand::source::chacha::ChaCha8;

fn seeded(seed: [u8; 40]) -> ChaCha8 {
    ChaCha8::with_seed(AlignedSeed::from(seed))
}

fn check_vector(seed: [u8; 40], expected_output: [u8; 64]) {
    let mut source = seeded(seed);

    let output = source.rand::<64>();

    assert_eq!(&output, &expected_output);
}

#[test]
fn chacha_no_leaking_debug() {
    let source = seeded([0u8; 40]);

    assert_eq!(format!("{:?}", source), "ChaCha8");
}

#[test]
fn clone_chacha_source() {
    let mut source = seeded([0u8; 40]);
    let mut other = seeded([0u8; 40]);

    let mut cloned = source.clone();

    assert_ne!(&source, &cloned);

    // The clone is seeded with the forty bytes that the source put out.
    let seed = other.rand::<40>();

    assert_eq!(&source, &other);
    assert_eq!(&cloned, &seeded(seed));
    assert_eq!(&cloned, &seeded([0u8; 40]).clone());
    assert_ne!(source.rand::<8>(), cloned.rand::<8>());
}

#[test]
fn equality_check() {
    let mut source = seeded([0u8; 40]);
    let mut source2 = seeded([0u8; 40]);

    assert_eq!(
        source, source2,
        "Sources should match with same seed & buffer states"
    );

    source.rand::<10>();

    assert_ne!(
        source, source2,
        "Sources should not match when buffer & state are different"
    );

    source2.rand::<10>();

    assert_eq!(
        source, source2,
        "Sources should match again when buffer & states are the same again"
    );
}

#[test]
fn chacha_reseed() {
    let mut source = seeded([0u8; 40]);

    let value1 = source.rand::<4>();

    source.reseed(AlignedSeed::from([0u8; 40]));

    let value2 = source.rand::<4>();

    assert_eq!(
        value1, value2,
        "Output values should match after source is reseeded with the same state"
    );
}

#[test]
fn buffered_rand() {
    let mut source = seeded([0u8; 40]);

    let output = source.rand::<40>();

    assert_eq!(
        &output,
        &[
            62, 0, 239, 47, 137, 95, 64, 214, 127, 91, 184, 232, 31, 9, 165, 161, 44, 132, 14,
            195, 206, 154, 127, 59, 24, 27, 225, 136, 239, 113, 26, 30, 152, 76, 225, 114, 185,
            33, 111, 65
        ]
    );

    let output = source.rand::<40>();

    // The rest of the first block, then the start of the block for counter 1.
    let mut next = init_state(AlignedSeed::from([0u8; 40]));
    next[12] = 1;
    let second_block = calculate_block::<4>(&next);

    assert_eq!(
        &output[..24],
        &[
            159, 68, 83, 103, 69, 109, 86, 25, 49, 74, 66, 163, 218, 134, 176, 1, 56, 123, 253,
            184, 14, 12, 254, 66
        ]
    );
    assert_eq!(&output[24..28], &second_block[0].to_le_bytes());
    assert_eq!(&output[28..32], &second_block[1].to_le_bytes());
    assert_eq!(&output[32..36], &second_block[2].to_le_bytes());
    assert_eq!(&output[36..], &second_block[3].to_le_bytes());
    assert_eq!(
        &output[24..],
        &[210, 174, 250, 13, 234, 165, 193, 81, 191, 10, 219, 108, 1, 242, 165, 173]
    );
}

#[test]
fn stress_rand_buffer() {
    let mut source = seeded([0u8; 40]);

    let mut output = [0u8; 40];

    for _ in 0..32 {
        let generated = source.rand::<40>();

        assert_ne!(&output, &generated);

        output = generated;
    }
}

#[test]
fn zeroed_vector() {
    check_vector(
        [0u8; 40],
        [
            0x3e, 0x00, 0xef, 0x2f, 0x89, 0x5f, 0x40, 0xd6, 0x7f, 0x5b, 0xb8, 0xe8, 0x1f, 0x09,
            0xa5, 0xa1, 0x2c, 0x84, 0x0e, 0xc3, 0xce, 0x9a, 0x7f, 0x3b, 0x18, 0x1b, 0xe1, 0x88,
            0xef, 0x71, 0x1a, 0x1e, 0x98, 0x4c, 0xe1, 0x72, 0xb9, 0x21, 0x6f, 0x41, 0x9f, 0x44,
            0x53, 0x67, 0x45, 0x6d, 0x56, 0x19, 0x31, 0x4a, 0x42, 0xa3, 0xda, 0x86, 0xb0, 0x01,
            0x38, 0x7b, 0xfd, 0xb8, 0x0e, 0x0c, 0xfe, 0x42,
        ],
    );
}

#[test]
fn key_vector_one() {
    let mut seed = [0u8; 40];
    seed[0] = 0x01;
    check_vector(
        seed,
        [
            0xcf, 0x5e, 0xe9, 0xa0, 0x49, 0x4a, 0xa9, 0x61, 0x3e, 0x05, 0xd5, 0xed, 0x72, 0x5b,
            0x80, 0x4b, 0x12, 0xf4, 0xa4, 0x65, 0xee, 0x63, 0x5a, 0xcc, 0x3a, 0x31, 0x1d, 0xe8,
            0x74, 0x04, 0x89, 0xea, 0x28, 0x9d, 0x04, 0xf4, 0x3c, 0x75, 0x18, 0xdb, 0x56, 0xeb,
            0x44, 0x33, 0xe4, 0x98, 0xa1, 0x23, 0x8c, 0xd8, 0x46, 0x4d, 0x37, 0x63, 0xdd, 0xbb,
            0x92, 0x22, 0xee, 0x3b, 0xd8, 0xfa, 0xe3, 0xc8,
        ],
    );
}

#[test]
fn iv_vector_one() {
    let mut seed = [0u8; 40];
    seed[32] = 0x01;
    check_vector(
        seed,
        [
            0x2b, 0x8f, 0x4b, 0xb3, 0x79, 0x83, 0x06, 0xca, 0x51, 0x30, 0xd4, 0x7c, 0x4f, 0x8d,
            0x4e, 0xd1, 0x3a, 0xa0, 0xed, 0xcc, 0xc1, 0xbe, 0x69, 0x42, 0x09, 0x0f, 0xae, 0xec,
            0xa0, 0xd7, 0x59, 0x9b, 0x7f, 0xf0, 0xfe, 0x61, 0x6b, 0xb2, 0x5a, 0xa0, 0x15, 0x3a,
            0xd6, 0xfd, 0xc8, 0x8b, 0x95, 0x49, 0x03, 0xc2, 0x24, 0x26, 0xd4, 0x78, 0xb9, 0x7b,
            0x22, 0xb8, 0xf9, 0xb1, 0xdb, 0x00, 0xcf, 0x06,
        ],
    );
}

#[test]
fn filled_vector() {
    check_vector(
        [0xff; 40],
        [
            0xe1, 0x63, 0xbb, 0xf8, 0xc9, 0xa7, 0x39, 0xd1, 0x89, 0x25, 0xee, 0x83, 0x62, 0xda,
            0xd2, 0xcd, 0xc9, 0x73, 0xdf, 0x05, 0x22, 0x5a, 0xfb, 0x2a, 0xa2, 0x63, 0x96, 0xf2,
            0xa9, 0x84, 0x9a, 0x4a, 0x44, 0x5e, 0x05, 0x47, 0xd3, 0x1c, 0x16, 0x23, 0xc5, 0x37,
            0xdf, 0x4b, 0xa8, 0x5c, 0x70, 0xa9, 0x88, 0x4a, 0x35, 0xbc, 0xbf, 0x3d, 0xfa, 0xb0,
            0x77, 0xe9, 0x8b, 0x0f, 0x68, 0x13, 0x5f, 0x54,
        ],
    );
}

#[test]
fn every_even_bit_vector() {
    check_vector(
        [0x55; 40],
        [
            0x7c, 0xb7, 0x82, 0x14, 0xe4, 0xd3, 0x46, 0x5b, 0x6d, 0xc6, 0x2c, 0xf7, 0xa1, 0x53,
            0x8c, 0x88, 0x99, 0x69, 0x52, 0xb4, 0xfb, 0x72, 0xcb, 0x61, 0x05, 0xf1, 0x24, 0x3c,
            0xe3, 0x44, 0x2e, 0x29, 0x75, 0xa5, 0x9e, 0xbc, 0xd2, 0xb2, 0xa5, 0x98, 0x29, 0x0d,
            0x75, 0x38, 0x49, 0x1f, 0xe6, 0x5b, 0xdb, 0xfe, 0xfd, 0x06, 0x0d, 0x88, 0x79, 0x81,
            0x20, 0xa7, 0x0d, 0x04, 0x9d, 0xc2, 0x67, 0x7d,
        ],
    );
}

#[test]
fn every_odd_bit_vector() {
    check_vector(
        [0xaa; 40],
        [
            0x40, 0xf9, 0xab, 0x86, 0xc8, 0xf9, 0xa1, 0xa0, 0xcd, 0xc0, 0x5a, 0x75, 0xe5, 0x53,
            0x1b, 0x61, 0x2d, 0x71, 0xef, 0x7f, 0x0c, 0xf9, 0xe3, 0x87, 0xdf, 0x6e, 0xd6, 0x97,
            0x2f, 0x0a, 0xae, 0x21, 0x31, 0x1a, 0xa5, 0x81, 0xf8, 0x16, 0xc9, 0x0e, 0x8a, 0x99,
            0xde, 0x99, 0x0b, 0x6b, 0x95, 0xaa, 0xc9, 0x24, 0x50, 0xf4, 0xe1, 0x12, 0x71, 0x26,
            0x67, 0xb8, 0x04, 0xc9, 0x9e, 0x9c, 0x6e, 0xda,
        ],
    );
}

#[test]
fn sequence_vector() {
    check_vector(
        [
            0x00, 0x11, 0x22, 0x33, 0x44, 0x55, 0x66, 0x77, 0x88, 0x99, 0xaa, 0xbb, 0xcc, 0xdd,
            0xee, 0xff, 0xff, 0xee, 0xdd, 0xcc, 0xbb, 0xaa, 0x99, 0x88, 0x77, 0x66, 0x55, 0x44,
            0x33, 0x22, 0x11, 0x00, 0x0f, 0x1e, 0x2d, 0x3c, 0x4b, 0x5a, 0x69, 0x78,
        ],
        [
            0xdb, 0x43, 0xad, 0x9d, 0x1e, 0x84, 0x2d, 0x12, 0x72, 0xe4, 0x53, 0x0e, 0x27, 0x6b,
            0x3f, 0x56, 0x8f, 0x88, 0x59, 0xb3, 0xf7, 0xcf, 0x6d, 0x9d, 0x2c, 0x74, 0xfa, 0x53,
            0x80, 0x8c, 0xb5, 0x15, 0x7a, 0x8e, 0xbf, 0x46, 0xad, 0x3d, 0xcc, 0x4b, 0x6c, 0x7d,
            0xad, 0xde, 0x13, 0x17, 0x84, 0xb0, 0x12, 0x0e, 0x0e, 0x22, 0xf6, 0xd5, 0xf9, 0xff,
            0xa7, 0x40, 0x7d, 0x4a, 0x21, 0xb6, 0x95, 0xd9,
        ],
    );
}

#[test]
fn init_state_lays_out_constants_key_counter_and_nonce() {
    let mut seed = [0u8; 40];
    for (index, byte) in seed.iter_mut().enumerate() {
        *byte = index as u8;
    }

    let state = init_state(AlignedSeed::from(seed));

    assert_eq!(
        state,
        [
            0x61707865, 0x3320646e, 0x79622d32, 0x6b206574, 0x03020100, 0x07060504, 0x0b0a0908,
            0x0f0e0d0c, 0x13121110, 0x17161514, 0x1b1a1918, 0x1f1e1d1c, 0, 0, 0x23222120,
            0x27262524,
        ]
    );
}

#[test]
fn increment_counter_carries_into_the_high_word() {
    let mut state = [0u32; 16];
    state[12] = u32::MAX;
    state[13] = 7;

    let next = increment_counter(state).unwrap();

    assert_eq!(next[12], 0);
    assert_eq!(next[13], 8);
    assert_eq!(&next[..12], &state[..12]);
    assert_eq!(&next[14..], &state[14..]);
}

#[test]
fn increment_counter_stops_at_the_last_value() {
    let mut state = [5u32; 16];
    state[12] = u32::MAX;
    state[13] = u32::MAX;

    assert_eq!(increment_counter(state), None);

    state[12] = u32::MAX - 1;

    let next = increment_counter(state).unwrap();

    assert_eq!((next[12], next[13]), (u32::MAX, u32::MAX));
}

#[test]
fn exhausted_counter_reseeds_instead_of_wrapping() {
    let mut state = init_state(AlignedSeed::from([9u8; 40]));
    state[12] = u32::MAX;
    state[13] = u32::MAX;

    let mut source = ChaCha8::from_serde(state, EntropyBuffer::new());

    let block = source.generate();

    // The last block of the counter is still put out.
    assert_eq!(block, calculate_block::<4>(&state));

    // The state that follows is a fresh one: constants, a key from fresh
    // entropy and a zero counter, not the old key with a wrapped counter.
    let after = *source.get_state();

    assert_eq!(&after[..4], &[0x61707865, 0x3320646e, 0x79622d32, 0x6b206574]);
    assert_eq!((after[12], after[13]), (0, 0));
    assert_ne!(&after[4..12], &state[4..12]);
}

#[test]
fn generate_advances_the_counter_and_keeps_the_key() {
    let state = init_state(AlignedSeed::from([9u8; 40]));
    let mut source = ChaCha8::from_serde(state, EntropyBuffer::new());

    let first = source.generate();
    let second = source.generate();

    let mut expected = state;
    expected[12] = 2;

    assert_eq!(source.get_state(), &expected);
    assert_eq!(first, calculate_block::<4>(&state));
    assert_ne!(first, second);
    assert!(source.get_cache().is_empty());
}

#[test]
fn single_byte_reads_equal_one_long_read() {
    let mut whole = seeded([3u8; 40]);
    let mut single = seeded([3u8; 40]);

    let long = whole.rand::<200>();

    let mut collected = [0u8; 200];
    for slot in collected.iter_mut() {
        *slot = single.rand::<1>()[0];
    }

    assert_eq!(long, collected);
    assert_eq!(whole, single);
}

#[test]
fn reads_across_refills_neither_repeat_nor_skip() {
    let mut whole = seeded([11u8; 40]);
    let mut pieces = seeded([11u8; 40]);

    let long = whole.rand::<330>();

    let mut collected = Vec::new();
    collected.extend_from_slice(&pieces.rand::<5>());
    collected.extend_from_slice(&pieces.rand::<64>());
    collected.extend_from_slice(&pieces.rand::<130>());
    collected.extend_from_slice(&pieces.rand::<0>());
    collected.extend_from_slice(&pieces.rand::<131>());

    assert_eq!(&long[..], &collected[..]);
}
