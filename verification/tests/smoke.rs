use std::collections::BTreeMap;
use std::iter::repeat_with;
use std::ops::RangeBounds;

use turborand::prelude::{Bound, ChaChaRng, Rng, SeededCore, TurboCore, TurboRand};

fn range_determinism() {
    let mut rng = Rng::with_seed(Default::default());

    let value = rng.u64(Bound::Included(1), Bound::Excluded(10));

    assert_eq!(value, 8, "Not the same expected value: got {value}");

    let value = rng.u32(Bound::Included(1), Bound::Excluded(10));

    assert_eq!(value, 2, "Not the same expected value: got {value}");

    let value = rng.u16(Bound::Included(1), Bound::Excluded(10));

    assert_eq!(value, 9, "Not the same expected value: got {value}");

    let value = rng.u8(Bound::Included(1), Bound::Excluded(10));

    assert_eq!(value, 5, "Not the same expected value: got {value}");

    let value = rng.bool();

    assert!(value, "Not the expect boolean: got {value}");
}

#[test]
fn mod_range_determinism_testing() {
    range_determinism();
}

#[test]
fn smoke_range_determinism_testing() {
    range_determinism();
}

fn range_smoke() {
    let mut rng = Rng::default();

    for _ in 0..1000 {
        let index = rng.usize(Bound::Included(4), Bound::Excluded(10));

        assert!(
            (4..10).contains(&index),
            "Must generate a number within 4 and 10, received: {index}",
        );
    }

    for _ in 0..1000 {
        let index = rng.usize(Bound::Unbounded, Bound::Excluded(20));

        assert!(
            (..20).contains(&index),
            "Must generate a number within 0 and 20, received: {index}",
        );
    }

    for _ in 0..1000 {
        let index = rng.usize(Bound::Included(4), Bound::Included(15));

        assert!(
            (4..=15).contains(&index),
            "Must generate a number within 4 and inclusively 15, received: {index}",
        );
    }

    for _ in 0..1000 {
        let index = rng.isize(Bound::Included(-10), Bound::Excluded(10));

        assert!(
            (-10..10).contains(&index),
            "Must generate a number within -10 and 10, received: {index}",
        );
    }

    for _ in 0..1000 {
        let index = rng.u128(Bound::Included(6), Bound::Excluded(61));

        assert!(
            (6..61).contains(&index),
            "Must generate a number within 6 and 61, received: {index}",
        );
    }

    for _ in 0..1000 {
        let index = rng.i128(Bound::Included(-20), Bound::Excluded(20));

        assert!(
            (-20..20).contains(&index),
            "Must generate a number within -20 and 20, received: {index}",
        );
    }
}

#[test]
fn mod_range_smoke_testing() {
    range_smoke();
}

#[test]
fn smoke_range_smoke_testing() {
    range_smoke();
}

fn small_range_smoke() {
    let mut rng = Rng::with_seed(Default::default());

    let val1 = rng.u64(Bound::Included(0), Bound::Excluded(1));
    let val2 = rng.i64(Bound::Included(0), Bound::Excluded(1));
    let val3 = rng.u64(Bound::Included(0), Bound::Included(1));
    let val4 = rng.i64(Bound::Included(-1), Bound::Included(0));

    assert_eq!((val1, val2, val3, val4), (0, 0, 1, -1));
}

#[test]
fn mod_small_range_smoke_testing() {
    small_range_smoke();
}

#[test]
fn smoke_small_range_smoke_testing() {
    small_range_smoke();
}

fn unbounded_range_smoke() {
    let mut rng = Rng::default();

    for _ in 0..1000 {
        let index = rng.u8(Bound::Unbounded, Bound::Unbounded);

        assert!((..).contains(&index));
    }

    for _ in 0..1000 {
        let index = rng.u64(Bound::Unbounded, Bound::Unbounded);

        assert!((..).contains(&index));
    }

    for _ in 0..1000 {
        let index = rng.usize(Bound::Unbounded, Bound::Unbounded);

        assert!((..).contains(&index));
    }

    for _ in 0..1000 {
        let index = rng.i64(Bound::Unbounded, Bound::Unbounded);

        assert!((..).contains(&index));
    }

    for _ in 0..1000 {
        let index = rng.isize(Bound::Unbounded, Bound::Unbounded);

        assert!((..).contains(&index));
    }
}

#[test]
fn mod_unbounded_range_smoke_testing() {
    unbounded_range_smoke();
}

#[test]
fn smoke_unbounded_range_smoke_testing() {
    unbounded_range_smoke();
}

fn unsigned_range_spread() {
    let mut rng = Rng::with_seed(Default::default());

    let actual_histogram: BTreeMap<u32, u32> =
        repeat_with(|| rng.u32(Bound::Included(1), Bound::Included(10)))
            .take(1000)
            .fold(BTreeMap::new(), |mut histogram, key| {
                *histogram.entry(key).or_default() += 1;

                histogram
            });

    let expected_histogram = BTreeMap::from_iter(vec![
        (1, 97),
        (2, 105),
        (3, 98),
        (4, 113),
        (5, 109),
        (6, 80),
        (7, 99),
        (8, 86),
        (9, 102),
        (10, 111),
    ]);

    assert_eq!(
        actual_histogram, expected_histogram,
        "unsigned samples should match in frequency to the expected histogram"
    );
}

#[test]
fn mod_unsigned_range_spread_test() {
    unsigned_range_spread();
}

#[test]
fn smoke_unsigned_range_spread_test() {
    unsigned_range_spread();
}

fn signed_range_spread() {
    let mut rng = Rng::with_seed(Default::default());

    let actual_histogram: BTreeMap<i32, u32> =
        repeat_with(|| rng.i32(Bound::Included(-5), Bound::Included(5)))
            .take(1000)
            .fold(BTreeMap::new(), |mut histogram, key| {
                *histogram.entry(key).or_default() += 1;

                histogram
            });

    let expected_histogram = BTreeMap::from_iter(vec![
        (-5, 91),
        (-4, 89),
        (-3, 97),
        (-2, 90),
        (-1, 105),
        (0, 94),
        (1, 73),
        (2, 81),
        (3, 81),
        (4, 101),
        (5, 98),
    ]);

    assert_eq!(
        actual_histogram, expected_histogram,
        "signed samples should match in frequency to the expected histogram"
    );
}

#[test]
fn mod_signed_range_spread_test() {
    signed_range_spread();
}

#[test]
fn smoke_signed_range_spread_test() {
    signed_range_spread();
}

#[test]
fn stable_indexing_smoke_testing() {
    let mut rng = Rng::with_seed(Default::default());

    let first = 128;
    let second = (u16::MAX as usize) + 128;

    let index = rng.index(Bound::Unbounded, Bound::Excluded(first));

    assert_eq!(&index, &102);

    for _ in 0..1000 {
        let index = rng.index(Bound::Unbounded, Bound::Excluded(first));

        assert!((..first).contains(&index));
    }

    let index = rng.index(Bound::Unbounded, Bound::Excluded(second));

    assert_eq!(&index, &47423);

    for _ in 0..1000 {
        let index = rng.index(Bound::Unbounded, Bound::Excluded(second));

        assert!((..second).contains(&index));
    }
}

fn character_smoke() {
    let mut rng = Rng::default();

    for _ in 0..1000 {
        let character = rng.alphabetic();

        assert!(
            "ABCDEFGHIJKLMNOPQRSTUVWXYZabcdefghijklmnopqrstuvwxyz".contains(character),
            "Must output an alphabetic character within range, received '{character}'",
        );
    }

    for _ in 0..1000 {
        let character = rng.alphanumeric();

        assert!(
            "0123456789ABCDEFGHIJKLMNOPQRSTUVWXYZabcdefghijklmnopqrstuvwxyz".contains(character),
            "Must output an alphanumeric character within range, received '{character}'",
        );
    }

    for _ in 0..1000 {
        let character = rng.lowercase();

        assert!(
            "abcdefghijklmnopqrstuvwxyz".contains(character),
            "Must output a lowercase character within range, received '{character}'",
        );
    }

    for _ in 0..1000 {
        let character = rng.uppercase();

        assert!(
            "ABCDEFGHIJKLMNOPQRSTUVWXYZ".contains(character),
            "Must output an uppercase character within range, received '{character}'",
        );
    }
}

#[test]
fn mod_character_smoke_testing() {
    character_smoke();
}

#[test]
fn smoke_character_smoke_testing() {
    character_smoke();
}

fn digit_smoke() {
    let mut rng = Rng::default();

    for _ in 0..1000 {
        let digit = rng.digit(10);

        assert!(
            "0123456789".contains(digit),
            "Must output a digit within radix, received '{digit}'",
        );
    }

    for _ in 0..1000 {
        let digit = rng.digit(2);

        assert!(
            "01".contains(digit),
            "Must output a digit within radix, received '{digit}'",
        );
    }

    for _ in 0..1000 {
        let digit = rng.digit(8);

        assert!(
            "01234567".contains(digit),
            "Must output a digit within radix, received '{digit}'",
        );
    }

    for _ in 0..1000 {
        let digit = rng.digit(16);

        assert!(
            "0123456789abcdef".contains(digit),
            "Must output a digit within radix, received '{digit}'",
        );
    }

    for _ in 0..1000 {
        let digit = rng.digit(36);

        assert!(
            "0123456789abcdefghijklmnopqrstuvwxyz".contains(digit),
            "Must output a digit within radix, received '{digit}'",
        );
    }
}

#[test]
fn mod_digit_smoke_testing() {
    digit_smoke();
}

#[test]
fn smoke_digit_smoke_testing() {
    digit_smoke();
}

fn fill_bytes_smoke() {
    let mut bytes = [0u8; 12];
    let mut rng = Rng::with_seed(Default::default());

    for _ in 0..1000 {
        rng.fill_bytes(&mut bytes);
    }

    assert_eq!(
        &bytes,
        &[8, 211, 110, 129, 82, 24, 169, 243, 239, 156, 64, 162],
        "array bytes should match expected output"
    );

    let mut bytes = vec![0_u8; 12];

    for _ in 0..1000 {
        rng.fill_bytes(bytes.as_mut_slice());
    }

    assert_eq!(
        &bytes,
        &[231, 75, 181, 137, 136, 142, 198, 200, 185, 42, 12, 175],
        "vec bytes should match expected output"
    );
}

#[test]
fn mod_fill_bytes_smoke_testing() {
    fill_bytes_smoke();
}

#[test]
fn smoke_fill_bytes_smoke_testing() {
    fill_bytes_smoke();
}

#[test]
fn chacha_rng_smoke_test() {
    let mut rand = ChaChaRng::with_seed([0u8; 40]);

    let value = rand.u64(Bound::Included(5), Bound::Included(10));

    assert_eq!(&value, &10);

    for _ in 0..128 {
        let value = rand.u64(Bound::Included(2), Bound::Included(20));

        assert!((2..=20).contains(&value));
    }

    let value = rand.i64(Bound::Included(-5), Bound::Included(5));

    assert_eq!(&value, &1);

    for _ in 0..128 {
        let value = rand.i64(Bound::Included(-8), Bound::Included(8));

        assert!((-8..=8).contains(&value));
    }
}

#[test]
fn chacha_rng_spread_test() {
    let mut rng = ChaChaRng::with_seed([0u8; 40]);

    let actual_histogram: BTreeMap<u32, u32> =
        repeat_with(|| rng.u32(Bound::Included(1), Bound::Included(10)))
            .take(1000)
            .fold(BTreeMap::new(), |mut histogram, key| {
                *histogram.entry(key).or_default() += 1;

                histogram
            });

    let expected_histogram = BTreeMap::from_iter(vec![
        (1, 102),
        (2, 100),
        (3, 98),
        (4, 104),
        (5, 97),
        (6, 100),
        (7, 121),
        (8, 95),
        (9, 93),
        (10, 90),
    ]);

    assert_eq!(
        actual_histogram, expected_histogram,
        "unsigned samples should match in frequency to the expected histogram"
    );

    let actual_histogram: BTreeMap<i32, i32> =
        repeat_with(|| rng.i32(Bound::Included(-5), Bound::Included(5)))
            .take(1000)
            .fold(BTreeMap::new(), |mut histogram, key| {
                *histogram.entry(key).or_default() += 1;

                histogram
            });

    let expected_histogram = BTreeMap::from_iter(vec![
        (-5, 87),
        (-4, 89),
        (-3, 83),
        (-2, 103),
        (-1, 85),
        (0, 90),
        (1, 111),
        (2, 93),
        (3, 91),
        (4, 94),
        (5, 74),
    ]);

    assert_eq!(
        actual_histogram, expected_histogram,
        "unsigned samples should match in frequency to the expected histogram"
    );
}

fn sample_spread() {
    let mut rng = Rng::with_seed(Default::default());

    let indexes: [usize; 8] = [0, 1, 2, 3, 4, 5, 6, 7];
    let mut sampled = [0; 8];

    for _ in 0..2000 {
        let index = rng.sample(&indexes).unwrap();

        sampled[*index] += 1;
    }

    assert_eq!(
        &sampled,
        &[214, 238, 267, 241, 237, 276, 261, 266],
        "samples will occur across all array items at statistically equal chance"
    );
}

#[test]
fn mod_sample_spread_testing() {
    sample_spread();
}

#[test]
fn smoke_sample_spread_testing() {
    sample_spread();
}

#[test]
fn mod_sample_multiple_spread_testing() {
    let mut rng = Rng::with_seed(Default::default());

    let indexes: [usize; 8] = [0, 1, 2, 3, 4, 5, 6, 7];
    let mut sampled = [0; 8];

    for _ in 0..1000 {
        let selected = rng.sample_multiple(&indexes, 3);

        selected
            .into_iter()
            .for_each(|sample| sampled[*sample] += 1);
    }

    assert_eq!(
        &sampled,
        &[390, 364, 387, 359, 407, 377, 365, 351],
        "samples will occur across all array items at statistically equal chance"
    );
}

fn weighted_sample_spread() {
    const SCALE: f64 = 2.0 * (1u64 << 63) as f64;

    let mut rng = Rng::with_seed(Default::default());

    let samples: [u32; 5] = [0, 1, 2, 3, 4];

    let sample_total_weight = f64::from(samples.iter().sum::<u32>());

    let actual_histogram: BTreeMap<u32, _> = repeat_with(|| {
        // Select items from the array based on their value divided by the total sum to
        // form their weighting.
        rng.weighted_sample(&samples, |(&item, _)| {
            ((f64::from(item) / sample_total_weight) * SCALE) as u64
        })
    })
    .take(1000)
    .flatten()
    .fold(
        BTreeMap::from_iter(vec![(0, 0)]),
        |mut histogram, &individual| {
            *histogram.entry(individual).or_default() += 1;

            histogram
        },
    );

    // Larger values are expected to be selected more often. 0 should never be
    // selected ever.
    let expected_histogram =
        BTreeMap::from_iter(vec![(0, 0), (1, 92), (2, 207), (3, 294), (4, 407)]);

    assert_eq!(
        actual_histogram, expected_histogram,
        "weighted samples should match in frequency to the expected histogram"
    );
}

#[test]
fn mod_weighted_sample_spread_testing() {
    weighted_sample_spread();
}

#[test]
fn smoke_weighted_sample_spread_testing() {
    weighted_sample_spread();
}

fn shuffle_smoke() {
    let mut rng = Rng::with_seed(Default::default());

    let mut values = [1, 2, 3, 4, 5, 6];

    for _ in 0..100 {
        rng.shuffle(&mut values);
    }

    assert_eq!(&values, &[2, 5, 3, 1, 6, 4]);
}

#[test]
fn mod_shuffle_smoke_testing() {
    shuffle_smoke();
}

#[test]
fn smoke_shuffle_smoke_testing() {
    shuffle_smoke();
}

#[test]
fn shuffle_spread_testing() {
    let mut rng = Rng::with_seed(Default::default());

    let mut values: [u32; 6] = [0, 1, 2, 3, 4, 5];

    let actual_histogram: BTreeMap<usize, _> = repeat_with(|| {
        // Shuffle the values then copy the list
        rng.shuffle(&mut values);

        values
    })
    .take(1000)
    .fold(BTreeMap::new(), |mut histogram, res| {
        let index = res
            .iter()
            .enumerate()
            .find(|(_, &num)| num == 0)
            .map(|(index, _)| index)
            .unwrap();

        *histogram.entry(index).or_default() += 1;

        histogram
    });

    // Expected indexes tracking where the value 0 ends up at after being shuffled.
    let expected_histogram = BTreeMap::from_iter(vec![
        (0, 183),
        (1, 168),
        (2, 139),
        (3, 188),
        (4, 173),
        (5, 149),
    ]);

    assert_eq!(
        actual_histogram, expected_histogram,
        "shuffled value positions should match in frequency to the expected histogram"
    );
}

#[test]
fn chacha_shuffle_spread_testing() {
    let mut rng = ChaChaRng::with_seed([0; 40]);

    let mut values: [u32; 6] = [0, 1, 2, 3, 4, 5];

    let actual_histogram: BTreeMap<usize, _> = repeat_with(|| {
        // Shuffle the values then copy the list
        rng.shuffle(&mut values);

        values
    })
    .take(1000)
    .fold(BTreeMap::new(), |mut histogram, res| {
        let index = res
            .iter()
            .enumerate()
            .find(|(_, &num)| num == 0)
            .map(|(index, _)| index)
            .unwrap();

        *histogram.entry(index).or_default() += 1;

        histogram
    });

    // Expected indexes tracking where the value 0 ends up at after being shuffled.
    let expected_histogram = BTreeMap::from_iter(vec![
        (0, 166),
        (1, 163),
        (2, 161),
        (3, 184),
        (4, 169),
        (5, 157),
    ]);

    assert_eq!(
        actual_histogram, expected_histogram,
        "shuffled value positions should match in frequency to the expected histogram"
    );
}

#[test]
fn partial_shuffle_example() {
    let mut rng = Rng::with_seed(Default::default());

    let mut values = [1, 2, 3, 4, 5];

    let (shuffled, rest) = rng.partial_shuffle(&mut values, 2);

    assert_eq!(shuffled, &mut [2, 5]);
    assert_eq!(rest, &mut [1, 4, 3]);
}

#[test]
fn sampling_examples() {
    let mut rng = Rng::with_seed(Default::default());
    let values = [1, 2, 3, 4, 5, 6];
    assert_eq!(rng.sample(&values), Some(&5));

    let mut rng = Rng::with_seed(Default::default());
    assert_eq!(rng.sample_multiple(&values, 2), vec![&6, &4]);

    let mut rng = Rng::with_seed(Default::default());
    assert_eq!(rng.digit(16), '2');

    let mut rng = Rng::with_seed(Default::default());
    assert_eq!(rng.char(Bound::Included('a'), Bound::Excluded('Ç')), '»');

    let mut rng = Rng::with_seed(Default::default());
    assert!(rng.bool());

    let mut rng = Rng::with_seed(Default::default());
    assert!(rng.chance(u64::MAX));
    assert!(!rng.chance(0));
}
