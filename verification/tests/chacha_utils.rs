use turborand::source::chacha::utils::{calculate_block, quarter_round};

#[test]
fn one_quarter_round_state() {
    let mut state: [u32; 16] = [
        0x879531e0, 0xc5ecf37d, 0x516461b1, 0xc9a62f8a, 0x44c20ef3, 0x3390af7f, 0xd9fc690b,
        0x2a5f714c, 0x53372767, 0xb00a5631, 0x974c541a, 0x359e9963, 0x5c971061, 0x3d631689,
        0x2098d9d6, 0x91dbd320,
    ];

    quarter_round::<2, 7, 8, 13>(&mut state);

    let expected_state = [
        0x879531e0, 0xc5ecf37d, 0xbdb886dc, 0xc9a62f8a, 0x44c20ef3, 0x3390af7f, 0xd9fc690b,
        0xcfacafd2, 0xe46bea80, 0xb00a5631, 0x974c541a, 0x359e9963, 0x5c971061, 0xccc07c79,
        0x2098d9d6, 0x91dbd320,
    ];

    assert_eq!(&state, &expected_state);
}

#[test]
fn calculate_block_state() {
    let state: [u32; 16] = [
        0x61707865, 0x3320646e, 0x79622d32, 0x6b206574, 0x03020100, 0x07060504, 0x0b0a0908,
        0x0f0e0d0c, 0x13121110, 0x17161514, 0x1b1a1918, 0x1f1e1d1c, 0x00000001, 0x00000000,
        0x4a000000, 0x00000000,
    ];

    let state = calculate_block::<10>(&state);

    let expected_state: [u32; 16] = [
        0xf3514f22, 0xe1d91b40, 0x6f27de2f, 0xed1d63b8, 0x821f138c, 0xe2062c3d, 0xecca4f7e,
        0x78cff39e, 0xa30a3b8a, 0x920a6072, 0xcd7479b5, 0x34932bed, 0x40ba4c79, 0xcd343ec6,
        0x4c2c21ea, 0xb7417df0,
    ];

    assert_eq!(&state, &expected_state);
}
