use turborand::entropy::{fallback_entropy, generate_entropy};

#[test]
fn fallback_entropy_source() {
    let mut result = [0u8; { core::mem::size_of::<u64>() }];

    fallback_entropy(&mut result);

    assert_ne!(
        &u64::from_be_bytes(result),
        &0,
        "generated entropy should always be a non-zero value"
    );
}

#[test]
fn large_fallback_entropy_source() {
    let mut result = [0u8; { core::mem::size_of::<u128>() }];

    fallback_entropy(&mut result);

    let split = core::mem::size_of::<u64>();

    let mut part1 = [0u8; 8];
    part1.copy_from_slice(&result[..split]);
    let part1 = u64::from_ne_bytes(part1);

    let mut part2 = [0u8; 8];
    part2.copy_from_slice(&result[split..]);
    let part2 = u64::from_ne_bytes(part2);

    assert_ne!(
        part1, part2,
        "internal hasher should not output the same values to fill out the generated buffer"
    );
}

#[test]
fn fallback_entropy_fills_odd_lengths() {
    let mut result = [0u8; 21];

    fallback_entropy(&mut result);

    assert_ne!(&result[16..], &[0u8; 5]);

    let mut nothing = [0u8; 0];

    fallback_entropy(&mut nothing);
}

#[test]
fn generated_entropy_differs_from_call_to_call() {
    let first = generate_entropy::<40>();
    let second = generate_entropy::<40>();

    assert_ne!(first, second);
    assert_ne!(first, [0u8; 40]);
    assert_eq!(generate_entropy::<0>(), [0u8; 0]);
}
