use turborand::internal::uniform::IncreasingUniformIter;
use turborand::lemire::{sample_i128, sample_u64, sample_u8};
use turborand::prelude::{Bound, ChaChaRng, GenCore, Rng, SeededCore, TurboRand};
use turborand::traits::{
    accepts, draw_u64, replaces_pick, run_step, settle_u128, settle_u16, settle_u32, settle_u64,
    settle_u8, takes_run,
    span_i128,
};

#[test]
fn accepts_keeps_draws_below_the_rate() {
    assert!(accepts(0, 1));
    assert!(accepts(4, 5));
    assert!(!accepts(5, 5));
    assert!(!accepts(0, 0));
    assert!(!accepts(u64::MAX, u64::MAX));
    assert!(accepts(u64::MAX - 1, u64::MAX));
}

#[test]
fn chance_compares_one_draw_with_the_rate() {
    let mut rng = Rng::with_seed(99);
    let mut raw = Rng::with_seed(99);

    for rate in [1u64, 2, 1 << 20, 1 << 63, u64::MAX - 1] {
        assert_eq!(rng.chance(rate), raw.gen_u64() < rate);
        assert_eq!(rng, raw);
    }
}

#[test]
fn chance_at_the_extremes_leaves_the_generator_untouched() {
    let mut rng = Rng::with_seed(99);
    let untouched = Rng::with_seed(99);

    assert!(!rng.chance(0));
    assert!(rng.chance(u64::MAX));
    assert_eq!(rng, untouched);

    let mut rng = ChaChaRng::with_seed([9u8; 40]);
    let untouched = ChaChaRng::with_seed([9u8; 40]);

    assert!(!rng.chance(0));
    assert!(rng.chance(u64::MAX));
    assert_eq!(rng, untouched);
}

#[test]
fn run_step_takes_the_item_at_the_index_and_passes_over_the_rest() {
    assert_eq!(run_step(5, 0), (Some(0), 4));
    assert_eq!(run_step(5, 3), (Some(3), 1));
    assert_eq!(run_step(5, 4), (Some(4), 0));
    assert_eq!(run_step(5, 5), (None, 5));
    assert_eq!(run_step(5, 77), (None, 5));
    assert_eq!(run_step(2, 1), (Some(1), 0));
}

#[test]
fn span_of_signed_bounds() {
    assert_eq!(span_i128(0, 0), 0);
    assert_eq!(span_i128(-1, 1), 2);
    assert_eq!(span_i128(-5, -2), 3);
    assert_eq!(span_i128(3, 10), 7);
    assert_eq!(span_i128(i128::MIN, i128::MAX), u128::MAX);
    assert_eq!(span_i128(i128::MIN, -1), (1u128 << 127) - 1);
    assert_eq!(span_i128(0, i128::MAX), (1u128 << 127) - 1);
    assert_eq!(span_i128(i128::MIN, 0), 1u128 << 127);
}

#[test]
fn settled_draws_are_the_first_kept_draw_of_the_stream() {
    let mut rng = Rng::with_seed(5);
    let mut raw = Rng::with_seed(5);

    for span in [0u64, 1, 9, 1000, u64::MAX / 2 + 7, u64::MAX - 1, u64::MAX] {
        let draw = settle_u64(&mut rng, span);
        let mut expected = raw.gen_u64();

        while !sample_u64(expected, 0, span).1 {
            expected = raw.gen_u64();
        }

        assert_eq!(draw, expected);
        assert_eq!(rng, raw);
    }

    for span in [0u8, 1, 2, 9, 100, 200, 254, 255] {
        let draw = settle_u8(&mut rng, span);
        let mut expected = raw.gen_u8();

        while !sample_u8(expected, 0, span).1 {
            expected = raw.gen_u8();
        }

        assert_eq!(draw, expected);
        assert_eq!(rng, raw);
    }
}

#[test]
fn settled_draws_of_the_full_width_take_one_draw() {
    let mut rng = ChaChaRng::with_seed([3u8; 40]);
    let mut raw = ChaChaRng::with_seed([3u8; 40]);

    assert_eq!(settle_u8(&mut rng, u8::MAX), raw.gen_u8());
    assert_eq!(settle_u16(&mut rng, u16::MAX), raw.gen_u16());
    assert_eq!(settle_u32(&mut rng, u32::MAX), raw.gen_u32());
    assert_eq!(settle_u64(&mut rng, u64::MAX), raw.gen_u64());
    assert_eq!(settle_u128(&mut rng, u128::MAX), raw.gen_u128());
    assert_eq!(rng, raw);
}

#[test]
fn samplers_give_the_candidate_of_the_settled_draw() {
    let mut rng = Rng::with_seed(1234);
    let mut raw = Rng::with_seed(1234);

    for round in 0..200u64 {
        let low = round * 3;
        let high = low + round * round + 1;

        let value = rng.u64(Bound::Included(low), Bound::Included(high));
        let draw = settle_u64(&mut raw, high - low);

        assert_eq!(value, sample_u64(draw, low, high).0);
        assert_eq!(draw_u64(&mut rng, low, high), {
            let draw = settle_u64(&mut raw, high - low);
            sample_u64(draw, low, high).0
        });
        assert_eq!(rng, raw);
    }

    let value = rng.i128(Bound::Included(-1000), Bound::Excluded(1000));
    let draw = settle_u128(&mut raw, 1999);

    assert_eq!(value, sample_i128(draw, -1000, 999).0);
    assert_eq!(rng, raw);
}

#[test]
fn full_range_samples_are_the_raw_draw() {
    let mut rng = Rng::with_seed(8);
    let mut raw = Rng::with_seed(8);

    assert_eq!(rng.u128(Bound::Unbounded, Bound::Unbounded), raw.gen_u128());
    assert_eq!(rng.i128(Bound::Unbounded, Bound::Unbounded), raw.gen_i128());
    assert_eq!(rng.u64(Bound::Unbounded, Bound::Unbounded), raw.gen_u64());
    assert_eq!(rng.i64(Bound::Unbounded, Bound::Unbounded), raw.gen_i64());
    assert_eq!(rng.u32(Bound::Unbounded, Bound::Unbounded), raw.gen_u32());
    assert_eq!(rng.i32(Bound::Unbounded, Bound::Unbounded), raw.gen_i32());
    assert_eq!(rng.u16(Bound::Unbounded, Bound::Unbounded), raw.gen_u16());
    assert_eq!(rng.i16(Bound::Unbounded, Bound::Unbounded), raw.gen_i16());
    assert_eq!(rng.u8(Bound::Unbounded, Bound::Unbounded), raw.gen_u8());
    assert_eq!(rng.i8(Bound::Unbounded, Bound::Unbounded), raw.gen_i8());
    assert_eq!(rng, raw);
}

#[test]
fn raw_integers_are_the_bytes_of_the_stream() {
    let mut rng = Rng::with_seed(21);
    let mut bytes = Rng::with_seed(21);

    assert_eq!(rng.gen_u8(), bytes.gen::<1>()[0]);
    assert_eq!(rng.gen_u16(), u16::from_le_bytes(bytes.gen::<2>()));
    assert_eq!(rng.gen_u32(), u32::from_le_bytes(bytes.gen::<4>()));
    assert_eq!(rng.gen_u64(), u64::from_le_bytes(bytes.gen::<8>()));
    assert_eq!(rng.gen_u128(), u128::from_le_bytes(bytes.gen::<16>()));
    assert_eq!(rng, bytes);

    let mut rng = ChaChaRng::with_seed([21u8; 40]);
    let mut bytes = ChaChaRng::with_seed([21u8; 40]);

    assert_eq!(rng.gen_u8(), bytes.gen::<1>()[0]);
    assert_eq!(rng.gen_u16(), u16::from_le_bytes(bytes.gen::<2>()));
    assert_eq!(rng.gen_u32(), u32::from_le_bytes(bytes.gen::<4>()));
    assert_eq!(rng.gen_u64(), u64::from_le_bytes(bytes.gen::<8>()));
    assert_eq!(rng.gen_u128(), u128::from_le_bytes(bytes.gen::<16>()));
    assert_eq!(rng, bytes);
}

#[test]
fn short_slices_are_shuffled_without_a_draw() {
    let mut fast = Rng::with_seed(4);
    let mut slow = ChaChaRng::with_seed([4u8; 40]);
    let fast_before = Rng::with_seed(4);
    let slow_before = ChaChaRng::with_seed([4u8; 40]);

    let mut empty: [u8; 0] = [];
    let mut single = [7u8];

    for amount in [0usize, 1, 5] {
        assert_eq!(fast.shuffle_tail(&mut empty, amount), 0);
        assert_eq!(slow.shuffle_tail(&mut empty, amount), 0);

        let (shuffled, rest) = fast.partial_shuffle(&mut empty, amount);
        assert!(shuffled.is_empty() && rest.is_empty());

        let (shuffled, rest) = slow.partial_shuffle(&mut empty, amount);
        assert!(shuffled.is_empty() && rest.is_empty());
    }

    assert_eq!(fast.shuffle_tail(&mut single, 0), 1);
    assert_eq!(slow.shuffle_tail(&mut single, 0), 1);
    assert_eq!(fast.shuffle_tail(&mut single, 1), 0);
    assert_eq!(slow.shuffle_tail(&mut single, 3), 0);

    let (shuffled, rest) = fast.partial_shuffle(&mut single, 1);
    assert_eq!(shuffled, &mut [7u8]);
    assert!(rest.is_empty());

    let (shuffled, rest) = slow.partial_shuffle(&mut single, 0);
    assert!(shuffled.is_empty());
    assert_eq!(rest, &mut [7u8]);

    fast.shuffle(&mut empty);
    slow.shuffle(&mut single);

    assert_eq!(single, [7u8]);
    assert_eq!(fast, fast_before);
    assert_eq!(slow, slow_before);
}

#[test]
fn an_amount_of_zero_leaves_slice_and_generator_as_they_were() {
    let mut fast = Rng::with_seed(4);
    let mut slow = ChaChaRng::with_seed([4u8; 40]);
    let mut values = [1, 2, 3, 4, 5];

    let (shuffled, rest) = fast.partial_shuffle(&mut values, 0);
    assert!(shuffled.is_empty());
    assert_eq!(rest, &mut [1, 2, 3, 4, 5]);

    let (shuffled, rest) = slow.partial_shuffle(&mut values, 0);
    assert!(shuffled.is_empty());
    assert_eq!(rest, &mut [1, 2, 3, 4, 5]);

    assert_eq!(fast, Rng::with_seed(4));
    assert_eq!(slow, ChaChaRng::with_seed([4u8; 40]));
}

#[test]
fn the_dealer_peels_positions_off_one_draw() {
    let mut rng = ChaChaRng::with_seed([6u8; 40]);
    let mut raw = ChaChaRng::with_seed([6u8; 40]);

    // From the index 1 on, the first chunk is drawn below 2 * 3 * .. * 20.
    let mut dealer = IncreasingUniformIter::new(1, 6);
    let mut chunk = draw_u64(&mut raw, 0, 2432902008176640000 - 1);

    for index in 1..6u64 {
        let position = dealer.next_swap_index(&mut rng);

        assert_eq!(position as u64, chunk % (index + 1));
        chunk /= index + 1;
        assert_eq!(rng, raw);
    }

    assert_eq!(dealer.next(&mut rng), None);
    assert_eq!(rng, raw);

    // From the index 0 on, the first position is 0 without a draw.
    let mut dealer = IncreasingUniformIter::new(0, 3);

    assert_eq!(dealer.next(&mut rng), Some((0, 0)));
    assert_eq!(rng, raw);
}

#[test]
fn samples_of_short_lists_take_no_draw() {
    let mut rng = Rng::with_seed(17);
    let before = Rng::with_seed(17);
    let empty: [u8; 0] = [];
    let mut single = [5u8];

    assert_eq!(rng.sample(&empty), None);
    assert_eq!(rng.sample(&single), Some(&5));
    assert_eq!(rng.weighted_sample(&empty, |_| 0), None);
    assert_eq!(rng.weighted_sample(&single, |_| 0), Some(&5));
    assert_eq!(rng.weighted_sample_mut(&mut single, |_| 0), Some(&mut 5));
    assert_eq!(rng.sample_mut(&mut single), Some(&mut 5));
    assert_eq!(rng.sample_sized(single.iter(), 1), Some(&5));
    assert_eq!(rng.sample_sized(single.iter(), 0), None);
    assert_eq!(rng.weighted_sample_sized(single.iter(), 1, |_| 0), Some(&5));
    assert_eq!(rng.weighted_sample_sized(single.iter(), 0, |_| 0), None);
    assert_eq!(rng, before);
}

#[test]
fn samples_take_the_item_at_the_drawn_index() {
    let mut rng = Rng::with_seed(17);
    let mut raw = Rng::with_seed(17);
    let mut values = [10, 20, 30, 40, 50, 60, 70];

    for _ in 0..50 {
        let index = draw_u64(&mut raw, 0, 6) as usize;

        assert_eq!(rng.sample(&values), Some(&values[index]));

        let index = draw_u64(&mut raw, 0, 6) as usize;
        let expected = values[index];

        assert_eq!(rng.sample_mut(&mut values), Some(&mut { expected }));

        let index = draw_u64(&mut raw, 0, 6) as usize;

        assert_eq!(rng.sample_sized(values.iter(), 7), Some(&values[index]));
        assert_eq!(rng, raw);
    }
}

#[test]
fn weighted_samples_keep_the_first_pick_that_chance_keeps() {
    let mut rng = Rng::with_seed(23);
    let mut raw = Rng::with_seed(23);
    let values = [1u64, 2, 3, 4, 5, 6];
    let weigh = |(item, _): (&u64, usize)| (*item) << 60;

    for _ in 0..50 {
        let expected = loop {
            let index = draw_u64(&mut raw, 0, 5) as usize;

            if raw.chance(weigh((&values[index], index))) {
                break values[index];
            }
        };

        assert_eq!(rng.weighted_sample(&values, weigh), Some(&expected));
        assert_eq!(rng, raw);
    }
}

#[test]
fn sample_iter_gives_an_item_of_a_list_that_has_one() {
    let mut rng = Rng::with_seed(31);

    for len in 1..40usize {
        let values: Vec<usize> = (0..len).collect();

        // An iterator that says exactly how many items it has.
        let item = rng.sample_iter(values.iter());
        assert!(matches!(item, Some(picked) if *picked < len));

        // An iterator that cannot say how many items it has.
        let item = rng.sample_iter(values.iter().filter(|value| **value % 2 == 0));
        assert!(matches!(item, Some(picked) if *picked < len && *picked % 2 == 0));
    }

    let single = [9u8];

    assert_eq!(rng.sample_iter(single.iter().filter(|value| **value > 0)), Some(&9));
}

#[test]
fn sample_multiple_gives_every_further_item_a_drawn_slot() {
    let mut rng = Rng::with_seed(41);
    let mut raw = Rng::with_seed(41);
    let values: Vec<usize> = (0..30).collect();

    for amount in [0usize, 1, 3, 10, 29, 30, 31] {
        let sampled = rng.sample_multiple(&values, amount);
        let taken = amount.min(values.len());
        let mut expected: Vec<usize> = (0..taken).collect();

        for current in taken..values.len() {
            let slot = draw_u64(&mut raw, 0, current as u64) as usize;

            if slot < taken {
                expected[slot] = current;
            }
        }

        assert_eq!(sampled, expected.iter().collect::<Vec<_>>());
        assert_eq!(rng, raw);

        let sampled = rng.sample_multiple_iter(values.iter(), amount);
        let mut expected: Vec<usize> = (0..taken).collect();

        for current in taken..values.len() {
            let slot = draw_u64(&mut raw, 0, current as u64) as usize;

            if slot < taken {
                expected[slot] = current;
            }
        }

        assert_eq!(sampled, expected.iter().collect::<Vec<_>>());
        assert_eq!(rng, raw);
    }
}

#[test]
fn weighted_samples_of_iterators_go_through_rounds_of_two_draws() {
    let mut rng = ChaChaRng::with_seed([11u8; 40]);
    let mut raw = ChaChaRng::with_seed([11u8; 40]);
    let values = [1u64, 2, 3, 4, 5, 6, 7];
    let weigh = |(item, _): (&&u64, usize)| (**item) << 60;

    for _ in 0..30 {
        let expected = loop {
            let index = draw_u64(&mut raw, 0, 6) as usize;

            if raw.chance(values[index] << 60) {
                break &values[index];
            }
        };

        assert_eq!(rng.weighted_sample_sized(values.iter(), 7, weigh), Some(expected));
        assert_eq!(rng, raw);

        let expected = loop {
            let index = draw_u64(&mut raw, 0, 6) as usize;

            if raw.chance(values[index] << 60) {
                break &values[index];
            }
        };

        assert_eq!(rng.weighted_sample_iter(values.iter(), weigh), Some(expected));
        assert_eq!(rng, raw);
    }
}

#[test]
fn a_round_that_finds_no_item_draws_only_its_position() {
    let mut rng = Rng::with_seed(3);
    let mut raw = Rng::with_seed(3);
    let values = [1u64];

    // The iterator holds one item where ten are announced: the rounds go
    // on until one falls on the first position.
    let item = rng.weighted_sample_sized(values.iter(), 10, |_| u64::MAX);

    while draw_u64(&mut raw, 0, 9) != 0 {}

    assert_eq!(item, Some(&1));
    assert_eq!(rng, raw);
}

#[test]
fn shuffles_of_a_fast_generator_swap_each_position_with_a_drawn_one() {
    let mut rng = Rng::with_seed(77);
    let mut raw = Rng::with_seed(77);

    for len in 2..40usize {
        let mut values: Vec<usize> = (0..len).collect();
        let mut expected = values.clone();

        rng.shuffle(&mut values);

        for index in (1..len).rev() {
            let other = draw_u64(&mut raw, 0, index as u64) as usize;
            expected.swap(index, other);
        }

        assert_eq!(values, expected);
        assert_eq!(rng, raw);
    }
}

#[test]
fn shuffles_of_a_slow_generator_swap_each_position_with_a_dealt_one() {
    let mut rng = ChaChaRng::with_seed([77u8; 40]);
    let mut raw = ChaChaRng::with_seed([77u8; 40]);

    for len in 2..40usize {
        for amount in [1usize, 2, len / 2 + 1, len] {
            let mut values: Vec<usize> = (0..len).collect();
            let mut expected = values.clone();
            let cut = len - amount.min(len);

            assert_eq!(rng.shuffle_tail(&mut values, amount), cut);

            let mut dealer = IncreasingUniformIter::new(cut as u64, len);

            while let Some((index, other)) = dealer.next(&mut raw) {
                expected.swap(index, other);
            }

            assert_eq!(values, expected);
            assert_eq!(rng, raw);
        }
    }
}

#[test]
fn runs_are_taken_where_their_end_can_be_counted() {
    assert!(takes_run(2, 0));
    assert!(takes_run(5, 100));
    assert!(takes_run(2, usize::MAX - 2));
    assert!(!takes_run(2, usize::MAX - 1));
    assert!(!takes_run(usize::MAX, 1));
    assert!(takes_run(usize::MAX, 0));
    assert!(!takes_run(1, 0));
    assert!(!takes_run(0, 0));
    assert!(!takes_run(0, 7));
}

#[test]
fn single_items_replace_the_pick_at_index_zero() {
    assert!(replaces_pick(1, 0));
    assert!(replaces_pick(1, 5));
    assert!(replaces_pick(2, 0));
    assert!(!replaces_pick(2, 1));
    assert!(!replaces_pick(100, 99));
    assert!(replaces_pick(usize::MAX, 0));
}
