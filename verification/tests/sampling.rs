use std::collections::{BTreeMap, HashSet};
use std::iter::repeat_with;

use turborand::bounds::{char_at, end_i8, end_u8, first_char, last_char, start_i8, start_u8, Bound};
use turborand::internal::uniform::{calculate_bound_u64, IncreasingUniformIter};
use turborand::lemire::{
    multiply_high_u128, sample_i128, sample_i64, sample_i8, sample_isize, sample_u128, sample_u32,
    sample_u64, sample_u8, sample_usize, scale_u8, signed_8,
};
use turborand::prelude::{ChaChaRng, GenCore, Rng, SeededCore, TurboRand};

#[test]
fn lemire_maps_a_draw_to_the_high_half_of_the_product() {
    // 200 * 10 = 2000 = 7 * 256 + 208, and 256 % 10 = 6: kept.
    assert_eq!(scale_u8(200, 10), (7, true));
    // 26 * 10 = 260 = 1 * 256 + 4 and 4 < 6: rejected.
    assert_eq!(scale_u8(26, 10), (1, false));
    // 0 is below every threshold above zero.
    assert_eq!(scale_u8(0, 10), (0, false));
    // A power of two divides the width: no draw is rejected.
    assert_eq!(scale_u8(0, 16), (0, true));
    assert_eq!(scale_u8(255, 16), (15, true));
}

#[test]
fn lemire_keeps_the_same_number_of_draws_for_every_offset() {
    for range in 1..=255u8 {
        let mut kept = vec![0u32; range as usize];

        for v in 0..=255u8 {
            let (offset, unbiased) = scale_u8(v, range);

            assert!(offset < range);

            if unbiased {
                kept[offset as usize] += 1;
            }
        }

        assert!(kept.iter().all(|&count| count == 256 / u32::from(range)));
    }
}

#[test]
fn samples_start_at_the_lower_bound() {
    assert_eq!(sample_u8(200, 1, 10), (8, true));
    assert_eq!(sample_u8(26, 1, 10), (2, false));
    assert_eq!(sample_i8(200, -5, 4), (2, true));
    assert_eq!(sample_u32(u32::MAX, 7, 7), (7, true));
    assert_eq!(sample_u64(u64::MAX, 0, 1), (1, true));
    assert_eq!(sample_i64(u64::MAX, -1, 0), (0, true));
    assert_eq!(sample_usize(u64::MAX, 4, 9), (9, true));
    assert_eq!(sample_isize(0, -10, 9).0, -10);
}

#[test]
fn full_width_takes_the_raw_draw() {
    assert_eq!(sample_u8(0, 0, u8::MAX), (0, true));
    assert_eq!(sample_u8(173, 0, u8::MAX), (173, true));
    assert_eq!(sample_i8(173, i8::MIN, i8::MAX), (173u8 as i8, true));
    assert_eq!(sample_u64(12345, 0, u64::MAX), (12345, true));
    assert_eq!(sample_i64(u64::MAX, i64::MIN, i64::MAX), (-1, true));
    assert_eq!(sample_u128(u128::MAX, 0, u128::MAX), (u128::MAX, true));
    assert_eq!(sample_i128(1 << 127, i128::MIN, i128::MAX), (i128::MIN, true));
    assert_eq!(signed_8(128), -128);
    assert_eq!(signed_8(127), 127);
}

#[test]
fn wide_samples_stay_in_range() {
    assert_eq!(sample_u128(u128::MAX, 6, 60).0, 60);
    assert_eq!(sample_u128(0, 6, 60).0, 6);
    assert_eq!(sample_i128(u128::MAX, -20, 19).0, 19);
    assert_eq!(sample_i128(0, -20, 19).0, -20);
    assert_eq!(sample_i128(u128::MAX, i128::MIN, -1).0, -1);
    assert_eq!(sample_i128(u128::MAX, i128::MIN + 1, i128::MAX).0, i128::MAX);
    assert_eq!(sample_i128(u128::MAX, 0, i128::MAX).0, i128::MAX);
    assert_eq!(sample_i128(1 << 127, -1, 0), (0, true));
}

#[test]
fn multiply_high_matches_the_long_multiplication() {
    assert_eq!(multiply_high_u128(u128::MAX, u128::MAX), u128::MAX - 1);
    assert_eq!(multiply_high_u128(u128::MAX, 1), 0);
    assert_eq!(multiply_high_u128(1 << 127, 2), 1);
    assert_eq!(multiply_high_u128(1 << 64, 1 << 64), 1);
    assert_eq!(multiply_high_u128((1 << 64) - 1, (1 << 64) + 1), 0);
    assert_eq!(
        multiply_high_u128(0x0123_4567_89ab_cdef_0123_4567_89ab_cdef, 1 << 100),
        0x0123_4567_89ab_cdef_0123_4567_8
    );
}

#[test]
fn bounds_resolve_to_inclusive_ends() {
    assert_eq!(start_u8(Bound::Included(4)), 4);
    assert_eq!(start_u8(Bound::Excluded(4)), 5);
    assert_eq!(start_u8(Bound::Unbounded), 0);
    assert_eq!(start_u8(Bound::Excluded(255)), 255);
    assert_eq!(end_u8(Bound::Included(4)), 4);
    assert_eq!(end_u8(Bound::Excluded(4)), 3);
    assert_eq!(end_u8(Bound::Unbounded), 255);
    assert_eq!(end_u8(Bound::Excluded(0)), 0);
    assert_eq!(start_i8(Bound::Unbounded), -128);
    assert_eq!(start_i8(Bound::Excluded(127)), 127);
    assert_eq!(end_i8(Bound::Excluded(-128)), -128);
    assert_eq!(end_i8(Bound::Unbounded), 127);
}

#[test]
fn character_bounds_step_over_the_surrogates() {
    assert_eq!(first_char(Bound::Excluded('\u{d7ff}')), '\u{e000}');
    assert_eq!(first_char(Bound::Excluded('a')), 'b');
    assert_eq!(first_char(Bound::Included('a')), 'a');
    assert_eq!(first_char(Bound::Unbounded), '\0');
    assert_eq!(last_char(Bound::Excluded('\u{e000}')), '\u{d7ff}');
    assert_eq!(last_char(Bound::Excluded('b')), 'a');
    assert_eq!(last_char(Bound::Included('b')), 'b');
    assert_eq!(last_char(Bound::Unbounded), char::MAX);
}

#[test]
fn characters_past_the_surrogates_move_up_by_the_gap() {
    assert_eq!(char_at(0xd7ff, '\u{d7fe}', '\u{e001}'), '\u{d7ff}');
    assert_eq!(char_at(0xd800, '\u{d7fe}', '\u{e001}'), '\u{e000}');
    assert_eq!(char_at(0xd801, '\u{d7fe}', '\u{e001}'), '\u{e001}');
    assert_eq!(char_at(0xe000, '\u{e000}', '\u{e001}'), '\u{e000}');
    assert_eq!(char_at(0x61, 'a', 'z'), 'a');
}

fn char_coverage_stress_test(n: usize, lower: Bound<char>, upper: Bound<char>, all: &[char]) {
    let mut covered = HashSet::new();

    // A fixed seed keeps the coverage reproducible.
    let mut rng = Rng::with_seed(n as u64);

    for _ in 0..n {
        let c = match (&lower, &upper) {
            (Bound::Included(a), Bound::Included(b)) => {
                rng.char(Bound::Included(*a), Bound::Included(*b))
            }
            (Bound::Included(a), Bound::Excluded(b)) => {
                rng.char(Bound::Included(*a), Bound::Excluded(*b))
            }
            _ => unreachable!(),
        };
        assert!(all.contains(&c), "Invalid character, received {}", &c);
        covered.insert(c);
    }

    let all: HashSet<char> = all.iter().copied().collect();

    assert_eq!(covered, all, "Missing coverage in output");
}

fn char_battery() {
    // ASCII control chars.
    let nul = 0u8 as char;
    let soh = 1u8 as char;
    let stx = 2u8 as char;
    // Some undefined Hangul Jamo codepoints just before
    // the surrogate area.
    let last_jamo = char::from_u32(0xd7ffu32).unwrap();
    let penultimate_jamo = char::from_u32(last_jamo as u32 - 1).unwrap();
    // Private-use codepoints just after the surrogate area.
    let first_private = char::from_u32(0xe000u32).unwrap();
    let second_private = char::from_u32(first_private as u32 + 1).unwrap();
    // Private-use codepoints at the end of Unicode space.
    let last_private = char::MAX;
    let penultimate_private = char::from_u32(last_private as u32 - 1).unwrap();

    let range: Vec<char> = (nul..stx).collect();
    char_coverage_stress_test(100, Bound::Included(nul), Bound::Excluded(stx), &range);
    let range: Vec<char> = (nul..=soh).collect();
    char_coverage_stress_test(100, Bound::Included(nul), Bound::Included(soh), &range);

    let range: Vec<char> = (penultimate_jamo..second_private).collect();
    char_coverage_stress_test(
        400,
        Bound::Included(penultimate_jamo),
        Bound::Excluded(second_private),
        &range,
    );
    let range: Vec<char> = (penultimate_jamo..=second_private).collect();
    char_coverage_stress_test(
        400,
        Bound::Included(penultimate_jamo),
        Bound::Included(second_private),
        &range,
    );

    let range: Vec<char> = (penultimate_private..=last_private).collect();
    char_coverage_stress_test(
        100,
        Bound::Included(penultimate_private),
        Bound::Included(last_private),
        &range,
    );

    let range: Vec<char> = ('a'..='Ç').collect();
    char_coverage_stress_test(1200, Bound::Included('a'), Bound::Included('Ç'), &range);
}

#[test]
fn char_battery_char_battery_tests() {
    char_battery();
}

#[test]
fn mod_char_battery_tests() {
    char_battery();
}

#[test]
fn characters_never_fall_into_the_surrogate_gap() {
    let mut rng = Rng::with_seed(77);

    for _ in 0..5000 {
        let c = rng.char(Bound::Included('\u{d000}'), Bound::Excluded('\u{f000}'));
        let code = c as u32;

        assert!((0xd000..0xd800).contains(&code) || (0xe000..0xf000).contains(&code));
    }

    let mut rng = ChaChaRng::with_seed([7u8; 40]);

    for _ in 0..5000 {
        let c = rng.char(Bound::Unbounded, Bound::Unbounded);

        assert!(!(0xd800..0xe000).contains(&(c as u32)));
    }
}

#[test]
fn calculate_bound_multiplies_as_far_as_64_bits_reach() {
    // 2 * 3 * .. * 20 = 20!, and 21! does not fit.
    assert_eq!(calculate_bound_u64(2), (2_432_902_008_176_640_000, 19));
    assert_eq!(calculate_bound_u64(3), (1_216_451_004_088_320_000, 18));
    // From 2^32 on not even two factors fit.
    assert_eq!(calculate_bound_u64(1 << 32), (1 << 32, 1));
    assert_eq!(calculate_bound_u64(u64::MAX), (u64::MAX, 1));
    assert_eq!(
        calculate_bound_u64((1 << 32) - 1),
        (((1u64 << 32) - 1) * (1 << 32), 2)
    );
}

#[test]
fn increasing_uniform_deals_positions_at_or_below_each_index() {
    let mut rng = ChaChaRng::with_seed([1u8; 40]);
    let mut dealer = IncreasingUniformIter::new(0, 100);

    assert_eq!(dealer.len(), 100);

    let mut expected_index = 0;

    while let Some((index, position)) = dealer.next(&mut rng) {
        assert_eq!(index, expected_index);
        assert!(position <= index);

        expected_index += 1;
    }

    assert_eq!(expected_index, 100);
    assert_eq!(dealer.len(), 0);
    assert_eq!(dealer.next(&mut rng), None);
}

#[test]
fn shuffles_keep_the_items() {
    let mut fast = Rng::with_seed(3);
    let mut slow = ChaChaRng::with_seed([3u8; 40]);

    for len in 0..40usize {
        let original: Vec<usize> = (0..len).map(|value| value % 7).collect();

        let mut values = original.clone();
        fast.shuffle(&mut values);
        let mut sorted = values.clone();
        sorted.sort_unstable();
        let mut expected = original.clone();
        expected.sort_unstable();
        assert_eq!(sorted, expected);

        let mut values = original.clone();
        slow.shuffle(&mut values);
        let mut sorted = values.clone();
        sorted.sort_unstable();
        assert_eq!(sorted, expected);
    }
}

#[test]
fn shuffles_are_reproducible_and_differ_between_the_speed_classes() {
    let mut first = Rng::with_seed(9);
    let mut second = Rng::with_seed(9);
    let mut slow = ChaChaRng::with_seed([0u8; 40]);
    let mut slow_again = ChaChaRng::with_seed([0u8; 40]);

    let mut a: Vec<u32> = (0..50).collect();
    let mut b: Vec<u32> = (0..50).collect();
    let mut c: Vec<u32> = (0..50).collect();
    let mut d: Vec<u32> = (0..50).collect();

    first.shuffle(&mut a);
    second.shuffle(&mut b);
    slow.shuffle(&mut c);
    slow_again.shuffle(&mut d);

    assert_eq!(a, b);
    assert_eq!(c, d);
    assert_ne!(a, c);
    assert_ne!(a, (0..50).collect::<Vec<u32>>());
}

#[test]
fn partial_shuffle_splits_at_the_amount() {
    let mut rng = ChaChaRng::with_seed([5u8; 40]);

    let mut values = [1, 2, 3, 4, 5, 6, 7, 8];

    let (shuffled, rest) = rng.partial_shuffle(&mut values, 3);

    assert_eq!(shuffled.len(), 3);
    assert_eq!(rest.len(), 5);

    let mut all: Vec<i32> = shuffled.iter().chain(rest.iter()).copied().collect();
    all.sort_unstable();

    assert_eq!(all, vec![1, 2, 3, 4, 5, 6, 7, 8]);

    let (shuffled, rest) = rng.partial_shuffle(&mut values, 100);

    assert_eq!(shuffled.len(), 8);
    assert!(rest.is_empty());

    let len = values.len();
    assert_eq!(rng.shuffle_tail(&mut values, 2), len - 2);
}

#[test]
fn shuffling_one_or_no_item_changes_nothing() {
    let mut rng = Rng::with_seed(1);
    let mut reference = Rng::with_seed(1);

    let mut empty: [u8; 0] = [];
    let mut single = [42];

    rng.shuffle(&mut empty);
    rng.shuffle(&mut single);

    assert_eq!(single, [42]);
    assert_eq!(rng, reference);
    assert_eq!(rng.gen_u64(), reference.gen_u64());
}

#[test]
fn sampling_an_empty_list_gives_nothing() {
    let mut rng = Rng::with_seed(1);
    let empty: [u32; 0] = [];
    let mut no_items: [u32; 0] = [];

    assert_eq!(rng.sample(&empty), None);
    assert_eq!(rng.sample_mut(&mut no_items), None);
    assert_eq!(rng.sample_iter(empty.iter()), None);
    assert_eq!(rng.weighted_sample(&empty, |_| u64::MAX), None);
    assert_eq!(rng.weighted_sample_mut(&mut no_items, |_| u64::MAX), None);
    assert!(rng.sample_multiple(&empty, 3).is_empty());
    assert!(rng.sample_multiple_iter(empty.iter(), 3).is_empty());
}

#[test]
fn sampling_a_single_item_gives_it_whatever_its_weight() {
    let mut rng = Rng::with_seed(1);
    let mut one = [7];

    assert_eq!(rng.sample(&one), Some(&7));
    assert_eq!(rng.sample_iter(one.iter()), Some(&7));
    assert_eq!(rng.weighted_sample(&one, |_| 0), Some(&7));
    assert_eq!(rng.weighted_sample_mut(&mut one, |_| 0), Some(&mut 7));
    assert_eq!(rng.sample_mut(&mut one), Some(&mut 7));
}

#[test]
fn sample_mut_examples() {
    let mut rng = Rng::with_seed(Default::default());

    let mut values = [1, 2, 3, 4, 5, 6];

    let result1 = rng.sample_mut(&mut values);

    assert_eq!(result1, Some(&mut 5));

    let result2 = rng.sample_mut(&mut values);

    assert_eq!(result2, Some(&mut 3));

    *result2.unwrap() = 30;

    assert_eq!(values, [1, 2, 30, 4, 5, 6]);
}

#[test]
fn weighted_sample_examples() {
    const SCALE: f64 = 2.0 * (1u64 << 63) as f64;

    let mut rng = Rng::with_seed(Default::default());

    let mut values = [1, 2, 3, 4, 5, 6];

    let total = f64::from(values.iter().sum::<i32>());

    assert_eq!(
        rng.weighted_sample(&values, |(&item, _)| ((item as f64 / total) * SCALE) as u64),
        Some(&4)
    );

    let mut rng = Rng::with_seed(Default::default());

    let result1 =
        rng.weighted_sample_mut(&mut values, |(&item, _)| ((item as f64 / total) * SCALE) as u64);

    assert_eq!(result1, Some(&mut 4));

    let result2 =
        rng.weighted_sample_mut(&mut values, |(&item, _)| ((item as f64 / total) * SCALE) as u64);

    assert_eq!(result2, Some(&mut 5));

    let result3 =
        rng.weighted_sample_mut(&mut values, |(&item, _)| ((item as f64 / total) * SCALE) as u64);

    // Weighted sample in this example will favour larger numbers, so 5 gets picked
    // again.
    assert_eq!(result3, Some(&mut 5));
}

#[test]
fn weighted_sample_passes_the_index_along() {
    let mut rng = Rng::with_seed(4);
    let values = ['a', 'b', 'c', 'd'];

    for _ in 0..100 {
        let picked = rng.weighted_sample(&values, |(&item, index)| {
            assert_eq!(values[index], item);

            if index == 2 {
                u64::MAX
            } else {
                0
            }
        });

        assert_eq!(picked, Some(&'c'));
    }
}

#[test]
fn sample_iter_spread_testing() {
    let mut rng = Rng::with_seed(Default::default());

    let indexes: [usize; 8] = [0, 1, 2, 3, 4, 5, 6, 7];
    let mut sampled = [0; 8];

    for _ in 0..2000 {
        let index = rng.sample_iter(indexes.iter()).unwrap();

        sampled[*index] += 1;
    }

    assert_eq!(
        &sampled,
        &[214, 238, 267, 241, 237, 276, 261, 266],
        "samples will occur across all array items at statistically equal chance"
    );
}

#[test]
fn sample_iter_goes_through_iterators_of_unknown_length() {
    let mut rng = Rng::with_seed(21);
    let mut seen = [0u32; 10];

    for _ in 0..5000 {
        let picked = rng
            .sample_iter((0..10usize).filter(|value| value % 1 == 0))
            .unwrap();

        seen[picked] += 1;
    }

    assert!(seen.iter().all(|&count| count > 350 && count < 650));

    let mut values = [1, 2, 3, 4, 5, 6];
    let mut rng = Rng::with_seed(Default::default());

    assert_eq!(rng.sample_iter(values.iter_mut()), Some(&mut 5));
}

#[test]
fn sample_multiple_iter_spread_testing() {
    let mut rng = Rng::with_seed(Default::default());

    let indexes: [usize; 8] = [0, 1, 2, 3, 4, 5, 6, 7];
    let mut sampled = [0; 8];

    for _ in 0..1000 {
        let selected = rng.sample_multiple_iter(indexes.iter(), 3);

        selected
            .into_iter()
            .for_each(|sample| sampled[*sample] += 1);
    }

    assert_eq!(
        &sampled,
        &[390, 364, 387, 359, 407, 377, 365, 351],
        "samples will occur across all array items at statistically equal chance"
    );
}

#[test]
fn sample_multiple_picks_each_position_once() {
    let mut rng = ChaChaRng::with_seed([2u8; 40]);
    let values: Vec<usize> = (0..30).collect();

    for amount in [0usize, 1, 5, 29, 30, 31, 100] {
        let picked = rng.sample_multiple(&values, amount);

        assert_eq!(picked.len(), amount.min(30));

        let unique: HashSet<usize> = picked.iter().map(|&&v| v).collect();

        assert_eq!(unique.len(), picked.len());

        let picked = rng.sample_multiple_iter(values.iter(), amount);

        assert_eq!(picked.len(), amount.min(30));

        let unique: HashSet<usize> = picked.iter().map(|&&v| v).collect();

        assert_eq!(unique.len(), picked.len());
    }
}

#[test]
fn chance_compares_a_draw_against_the_rate() {
    let mut rng = Rng::with_seed(8);
    let mut reference = Rng::with_seed(8);

    // The extremes draw nothing.
    assert!(rng.chance(u64::MAX));
    assert!(!rng.chance(0));
    assert_eq!(rng, reference);

    let rate = 1u64 << 63;
    let draw = reference.gen_u64();

    assert_eq!(rng.chance(rate), draw < rate);

    let hits = (0..10_000).filter(|_| rng.chance(1 << 62)).count();

    assert!(hits > 2200 && hits < 2800);
}

#[test]
fn float_smoke_testing() {
    let mut rng = Rng::default();

    for _ in 0..5000 {
        let index = rng.f32_mantissa() as f32 / (1u32 << 24) as f32;

        assert!(
            (0.0..=1.0).contains(&index),
            "Must generate a number within 0.0 and 1.0, received: {index}",
        );
    }

    for _ in 0..5000 {
        let index = rng.f32_normalized_mantissa() as f32 / (1u32 << 23) as f32;

        assert!(
            (-1.0..=1.0).contains(&index),
            "Must generate a number within -1.0 and 1.0, received: {index}",
        );
    }

    for _ in 0..5000 {
        let index = rng.f64_mantissa() as f64 / (1u64 << 53) as f64;

        assert!(
            (0.0..=1.0).contains(&index),
            "Must generate a number within 0.0 and 1.0, received: {index}",
        );
    }

    for _ in 0..5000 {
        let index = rng.f64_normalized_mantissa() as f64 / (1u64 << 52) as f64;

        assert!(
            (-1.0..=1.0).contains(&index),
            "Must generate a number within -1.0 and 1.0, received: {index}",
        );
    }
}

fn f32_of(rng: &mut Rng) -> f32 {
    const SCALE: f32 = 1.0 / ((1u32 << f32::MANTISSA_DIGITS) as f32);

    SCALE * (rng.f32_mantissa() as f32)
}

fn f32_normalized_of(rng: &mut Rng) -> f32 {
    const SCALE: f32 = 2.0 / ((1i32 << f32::MANTISSA_DIGITS) as f32);

    SCALE * (rng.f32_normalized_mantissa() as f32)
}

fn f64_of(rng: &mut Rng) -> f64 {
    const SCALE: f64 = 1.0 / ((1u64 << f64::MANTISSA_DIGITS) as f64);

    SCALE * (rng.f64_mantissa() as f64)
}

fn f64_normalized_of(rng: &mut Rng) -> f64 {
    const SCALE: f64 = 2.0 / ((1i64 << f64::MANTISSA_DIGITS) as f64);

    SCALE * (rng.f64_normalized_mantissa() as f64)
}

#[test]
fn f32_range_spread_test() {
    let mut rng = Rng::with_seed(Default::default());

    let actual_histogram: BTreeMap<u32, u32> =
        repeat_with(|| f32_of(&mut rng) * 10.0)
            .take(1000)
            .fold(BTreeMap::new(), |mut histogram, key| {
                *histogram.entry(key as u32).or_default() += 1;

                histogram
            });

    let expected_histogram = BTreeMap::from_iter(vec![
        (0, 97),
        (1, 105),
        (2, 98),
        (3, 113),
        (4, 109),
        (5, 80),
        (6, 99),
        (7, 86),
        (8, 102),
        (9, 111),
    ]);

    assert_eq!(
        actual_histogram, expected_histogram,
        "unsigned samples should match in frequency to the expected histogram"
    );

    let actual_histogram: BTreeMap<i32, u32> = repeat_with(|| f32_normalized_of(&mut rng) * 10.0)
        .take(2000)
        .fold(BTreeMap::new(), |mut histogram, key| {
            *histogram.entry(key as i32).or_default() += 1;

            histogram
        });

    let expected_histogram = BTreeMap::from_iter(vec![
        (-9, 88),
        (-8, 109),
        (-7, 111),
        (-6, 119),
        (-5, 93),
        (-4, 91),
        (-3, 112),
        (-2, 101),
        (-1, 96),
        (0, 195), // twice the amount because values less than -1.0 and 1.0 round to 0, so twice the range
        (1, 109),
        (2, 97),
        (3, 125),
        (4, 93),
        (5, 102),
        (6, 79),
        (7, 92),
        (8, 98),
        (9, 90),
    ]);

    assert_eq!(
        actual_histogram, expected_histogram,
        "unsigned samples should match in frequency to the expected histogram"
    );
}

#[test]
fn f64_range_spread_test() {
    let mut rng = Rng::with_seed(Default::default());

    let actual_histogram: BTreeMap<u64, u32> =
        repeat_with(|| f64_of(&mut rng) * 10.0)
            .take(1000)
            .fold(BTreeMap::new(), |mut histogram, key| {
                *histogram.entry(key as u64).or_default() += 1;

                histogram
            });

    let expected_histogram = BTreeMap::from_iter(vec![
        (0, 98),
        (1, 95),
        (2, 101),
        (3, 102),
        (4, 96),
        (5, 103),
        (6, 94),
        (7, 99),
        (8, 102),
        (9, 110),
    ]);

    assert_eq!(
        actual_histogram, expected_histogram,
        "unsigned samples should match in frequency to the expected histogram"
    );

    let actual_histogram: BTreeMap<i64, u32> = repeat_with(|| f64_normalized_of(&mut rng) * 10.0)
        .take(2000)
        .fold(BTreeMap::new(), |mut histogram, key| {
            *histogram.entry(key as i64).or_default() += 1;

            histogram
        });

    let expected_histogram = BTreeMap::from_iter(vec![
        (-9, 93),
        (-8, 85),
        (-7, 105),
        (-6, 105),
        (-5, 109),
        (-4, 106),
        (-3, 103),
        (-2, 111),
        (-1, 103),
        (0, 197), // twice the amount because values less than -1.0 and 1.0 round to 0, so twice the range
        (1, 85),
        (2, 95),
        (3, 92),
        (4, 87),
        (5, 103),
        (6, 105),
        (7, 111),
        (8, 111),
        (9, 94),
    ]);

    assert_eq!(
        actual_histogram, expected_histogram,
        "unsigned samples should match in frequency to the expected histogram"
    );
}

#[test]
fn weighted_sample_iter_examples() {
    const SCALE: f64 = 2.0 * (1u64 << 63) as f64;

    let mut rng = Rng::with_seed(Default::default());

    let values = [1, 2, 3, 4, 5, 6];

    let total = f64::from(values.iter().sum::<i32>());

    assert_eq!(
        rng.weighted_sample_iter(values.into_iter(), |(&item, _)| {
            ((item as f64 / total) * SCALE) as u64
        }),
        Some(4)
    );

    let empty: [i32; 0] = [];

    assert_eq!(rng.weighted_sample_iter(empty.iter(), |_| u64::MAX), None);
    assert_eq!(rng.weighted_sample_iter([9].iter(), |_| 0), Some(&9));

    for _ in 0..100 {
        let picked = rng.weighted_sample_iter(values.iter(), |(&&item, index)| {
            assert_eq!(values[index], item);

            if item == 3 {
                u64::MAX
            } else {
                0
            }
        });

        assert_eq!(picked, Some(&3));
    }
}

#[test]
fn shuffling_no_item_into_the_tail_changes_nothing() {
    let mut fast = Rng::with_seed(1);
    let mut slow = ChaChaRng::with_seed([1u8; 40]);
    let reference = ChaChaRng::with_seed([1u8; 40]);

    let mut values = [1, 2, 3, 4];

    assert_eq!(fast.shuffle_tail(&mut values, 0), 4);
    assert_eq!(values, [1, 2, 3, 4]);
    assert_eq!(slow.shuffle_tail(&mut values, 0), 4);
    assert_eq!(values, [1, 2, 3, 4]);
    assert_eq!(slow, reference);
}

#[test]
fn sized_sampling_takes_the_announced_size_at_its_word() {
    let mut rng = Rng::with_seed(6);
    let values = [10, 20, 30, 40];

    assert_eq!(rng.sample_sized(values.iter(), 0), None);
    assert_eq!(rng.sample_sized(values.iter(), 1), Some(&10));
    assert_eq!(rng.sample_sized([0u8; 0].iter(), 1), None);

    for _ in 0..100 {
        let picked = rng.sample_sized(values.iter(), 2).unwrap();

        assert!(*picked == 10 || *picked == 20);
        assert!(rng.sample_sized(values.iter(), 4).is_some());
    }

    assert_eq!(rng.weighted_sample_sized(values.iter(), 0, |_| u64::MAX), None);
    assert_eq!(rng.weighted_sample_sized(values.iter(), 1, |_| 0), Some(&10));

    for _ in 0..100 {
        let picked = rng.weighted_sample_sized(values.iter(), 3, |(&&item, index)| {
            assert!(index < 3);

            if item == 20 {
                u64::MAX
            } else {
                0
            }
        });

        assert_eq!(picked, Some(&20));
    }
}

#[test]
fn a_fast_shuffle_swaps_from_the_last_position_down() {
    // One swap: the last position with a position at or below it.
    let mut rng = Rng::with_seed(12);
    let mut twin = Rng::with_seed(12);

    let mut values = [1, 2, 3, 4, 5];
    let cut = rng.shuffle_tail(&mut values, 1);
    let position = twin.index(Bound::Unbounded, Bound::Included(4));

    let mut expected = [1, 2, 3, 4, 5];
    expected.swap(4, position);

    assert_eq!(cut, 4);
    assert_eq!(values, expected);
    assert_eq!(rng, twin);

    // All positions but the first, from the last one down.
    let mut values = [1, 2, 3, 4, 5];
    let mut expected = [1, 2, 3, 4, 5];

    rng.shuffle(&mut values);

    for index in (1..5).rev() {
        let position = twin.index(Bound::Unbounded, Bound::Included(index));
        expected.swap(index, position);
    }

    assert_eq!(values, expected);
    assert_eq!(rng, twin);
}

#[test]
fn a_slow_shuffle_swaps_from_the_cut_up() {
    let mut rng = ChaChaRng::with_seed([12u8; 40]);
    let mut twin = ChaChaRng::with_seed([12u8; 40]);

    let mut values = [1, 2, 3, 4, 5, 6, 7];
    let cut = rng.shuffle_tail(&mut values, 3);

    let mut expected = [1, 2, 3, 4, 5, 6, 7];
    let mut dealer = IncreasingUniformIter::new(4, 7);

    while let Some((index, position)) = dealer.next(&mut twin) {
        expected.swap(index, position);
    }

    assert_eq!(cut, 4);
    assert_eq!(values, expected);
    assert_eq!(rng, twin);
}
