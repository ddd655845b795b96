//! The traits that a generator implements, and the sampling methods that
//! every generator gets from them.
use crate::bounds::{
    contains, saturation_free, widen_i128, widen_i16, widen_i32, widen_i64, widen_i8,
    widen_isize, widen_u128, widen_u16, widen_u32, widen_u64, widen_u8, widen_usize,
    can_end, can_start, char_at, is_scalar, spec_expand, spec_gap, end_i128, end_i16, end_i32, end_i64, end_i8, end_isize, end_u128,
    end_u16, end_u32, end_u64, end_u8, end_usize, first_char, last_char, resolved_i128,
    resolved_i16, resolved_i32, resolved_i64, resolved_i8, resolved_isize, resolved_u128,
    resolved_u16, resolved_u32, resolved_u64, resolved_u8, resolved_usize, scalar_of,
    spec_first_char, spec_last_char, start_i128, start_i16, start_i32, start_i64, start_i8,
    start_isize, start_u128, start_u16, start_u32, start_u64, start_u8, start_usize,
    surrogate_gap, Bound,
};
use crate::bytes::{u128_from_le_bytes, u16_from_le_bytes, u32_from_le_bytes, u64_from_le_bytes};
use crate::lemire::{
    as_signed, spec_sample, width_128, width_16, width_32, width_64, width_8, sample_i128, sample_i16, sample_i32, sample_i64, sample_i8, sample_isize, sample_u128,
    sample_u16, sample_u32, sample_u64, sample_u8, sample_usize, signed_128, signed_16, signed_32,
    signed_64, signed_8,
};
use crate::internal::uniform::{
    dealt_in_turn, dealt_step, largest_product, peeled, IncreasingUniformIter,
};
use vstd::prelude::*;
use vstd::std_specs::iter::IteratorSpec;

verus! {

/// The speed class of a generator. Some algorithms pick their strategy by
/// it.
#[derive(Clone, Copy, Debug, PartialEq, Eq, Structural)]
pub enum TurboKind {
    /// Fast generators, such as WyRand.
    FAST,
    /// Slower generators, such as ChaCha8.
    SLOW,
}

/// How many times a sampling method replaces a rejected draw before it
/// settles for the last one. At this size the limit is out of reach of any
/// generator that does not repeat one rejected draw for ever.
pub const REDRAW_LIMIT: u64 = u64::MAX;

/// The letters, upper case first.
pub const ALPHABETIC: [u8; 52] = [
    65, 66, 67, 68, 69, 70, 71, 72, 73, 74, 75, 76, 77, 78, 79, 80, 81, 82, 83, 84, 85, 86, 87, 88,
    89, 90, 97, 98, 99, 100, 101, 102, 103, 104, 105, 106, 107, 108, 109, 110, 111, 112, 113, 114,
    115, 116, 117, 118, 119, 120, 121, 122,
];

/// The digits, then the letters, upper case first.
pub const ALPHANUMERIC: [u8; 62] = [
    48, 49, 50, 51, 52, 53, 54, 55, 56, 57, 65, 66, 67, 68, 69, 70, 71, 72, 73, 74, 75, 76, 77, 78,
    79, 80, 81, 82, 83, 84, 85, 86, 87, 88, 89, 90, 97, 98, 99, 100, 101, 102, 103, 104, 105, 106,
    107, 108, 109, 110, 111, 112, 113, 114, 115, 116, 117, 118, 119, 120, 121, 122,
];

/// The character that stands for the digit `num`: `0` to `9`, then `a` to
/// `z`.
pub open spec fn spec_digit(num: int) -> int {
    if num < 10 {
        '0' as int + num
    } else {
        'a' as int + num - 10
    }
}

/// The character that stands for the digit `num`.
pub fn digit_char(num: u8) -> (digit: char)
    requires
        num < 36,
    ensures
        digit as int == spec_digit(num as int),
{
    if num < 10 {
        (48 + num) as char
    } else {
        (97 + num - 10) as char
    }
}

/// `<[T]>::swap` exchanges the items at two positions of a slice and
/// leaves the others where they are. Positions outside the slice are left
/// out: the call would panic on them.
pub assume_specification<Item>[ <[Item]>::swap ](slice: &mut [Item], a: usize, b: usize)
    requires
        a < old(slice)@.len(),
        b < old(slice)@.len(),
    ensures
        final(slice)@ == old(slice)@.update(a as int, old(slice)@[b as int]).update(
            b as int,
            old(slice)@[a as int],
        ),
;

/// A sequence with the items at two positions exchanged.
pub open spec fn swapped<T>(items: Seq<T>, a: int, b: int) -> Seq<T> {
    items.update(a, items[b]).update(b, items[a])
}

/// A sequence after a row of exchanges, each of two positions, made one
/// after the other.
pub open spec fn apply_swaps<T>(items: Seq<T>, swaps: Seq<(int, int)>) -> Seq<T>
    decreases swaps.len(),
{
    if swaps.len() == 0 {
        items
    } else {
        swapped(apply_swaps(items, swaps.drop_last()), swaps.last().0, swaps.last().1)
    }
}

/// The index at which the shuffled part of a slice of `len` items starts
/// when `amount` items are shuffled into its tail.
pub open spec fn cut_at(len: nat, amount: usize) -> int {
    if amount >= len {
        0
    } else {
        len - amount
    }
}

/// Whether `swaps` are the exchanges that a generator of the given speed
/// class makes to shuffle the items from `cut` on into a slice of `len`
/// items. A fast generator goes from the last position down to `cut`, or
/// to the second position where `cut` is the first; a slow one goes from
/// `cut` up to the last position. Either exchanges every position that it
/// comes to with a position at or below it.
pub open spec fn follows_strategy(kind: TurboKind, swaps: Seq<(int, int)>, cut: int, len: int) -> bool {
    match kind {
        TurboKind::FAST => {
            let first = if cut < 1 {
                1
            } else {
                cut
            };
            &&& swaps.len() == len - first
            &&& forall|k: int|
                0 <= k < swaps.len() ==> (#[trigger] swaps[k]).0 == len - 1 - k && 0 <= swaps[k].1
                    <= swaps[k].0
        },
        TurboKind::SLOW => {
            &&& swaps.len() == len - cut
            &&& forall|k: int|
                0 <= k < swaps.len() ==> (#[trigger] swaps[k]).0 == cut + k && 0 <= swaps[k].1
                    <= swaps[k].0
        },
    }
}

/// Exchanging two items of a sequence keeps the items that it holds.
pub proof fn lemma_swap_keeps_items<T>(s: Seq<T>, a: int, b: int)
    requires
        0 <= a < s.len(),
        0 <= b < s.len(),
    ensures
        s.update(a, s[b]).update(b, s[a]).to_multiset() == s.to_multiset(),
{
    broadcast use vstd::multiset::group_multiset_axioms;

    vstd::seq_lib::to_multiset_update(s, a, s[b]);
    vstd::seq_lib::to_multiset_update(s.update(a, s[b]), b, s[a]);
    vstd::seq_lib::to_multiset_contains(s, s[a]);
    vstd::seq_lib::to_multiset_contains(s, s[b]);
    assert(s.contains(s[a]));
    assert(s.contains(s[b]));
    assert(s.update(a, s[b]).update(b, s[a]).to_multiset() =~= s.to_multiset());
}

/// The base of every generator: a source of random bytes.
pub trait TurboCore {
    /// Fills a buffer with random bytes.
    fn fill_bytes(&mut self, buffer: &mut [u8])
        ensures
            final(buffer)@.len() == old(buffer)@.len(),
    ;
}

/// Random integers of every width, built on one method that returns an
/// array of random bytes.
pub trait GenCore: TurboCore + Sized {
    /// The speed class of the generator.
    const GEN_KIND: TurboKind;

    /// Returns an array of `SIZE` random bytes.
    fn gen<const SIZE: usize>(&mut self) -> [u8; SIZE];

    /// Returns a random `u128` value.
    fn gen_u128(&mut self) -> u128 {
        u128_from_le_bytes(self.gen::<16>())
    }

    /// Returns a random `i128` value: what `gen_u128` gives, read as a
    /// two's complement number. The same holds of the other signed widths.
    fn gen_i128(&mut self) -> (value: i128)
        ensures
            exists|r: &mut Self, draw: u128|
                mut_ref_current(r) == *old(self) && mut_ref_future(r) == *final(self)
                    && #[trigger] call_ensures(Self::gen_u128, (r,), draw) && value == as_signed(
                    draw as int,
                    width_128(),
                ),
    {
        signed_128(self.gen_u128())
    }

    /// Returns a random `u64` value.
    fn gen_u64(&mut self) -> u64 {
        u64_from_le_bytes(self.gen::<8>())
    }

    /// Returns a random `i64` value.
    fn gen_i64(&mut self) -> (value: i64)
        ensures
            exists|r: &mut Self, draw: u64|
                mut_ref_current(r) == *old(self) && mut_ref_future(r) == *final(self)
                    && #[trigger] call_ensures(Self::gen_u64, (r,), draw) && value == as_signed(
                    draw as int,
                    width_64(),
                ),
    {
        signed_64(self.gen_u64())
    }

    /// Returns a random `u32` value.
    fn gen_u32(&mut self) -> u32 {
        u32_from_le_bytes(self.gen::<4>())
    }

    /// Returns a random `i32` value.
    fn gen_i32(&mut self) -> (value: i32)
        ensures
            exists|r: &mut Self, draw: u32|
                mut_ref_current(r) == *old(self) && mut_ref_future(r) == *final(self)
                    && #[trigger] call_ensures(Self::gen_u32, (r,), draw) && value == as_signed(
                    draw as int,
                    width_32(),
                ),
    {
        signed_32(self.gen_u32())
    }

    /// Returns a random `u16` value.
    fn gen_u16(&mut self) -> u16 {
        u16_from_le_bytes(self.gen::<2>())
    }

    /// Returns a random `i16` value.
    fn gen_i16(&mut self) -> (value: i16)
        ensures
            exists|r: &mut Self, draw: u16|
                mut_ref_current(r) == *old(self) && mut_ref_future(r) == *final(self)
                    && #[trigger] call_ensures(Self::gen_u16, (r,), draw) && value == as_signed(
                    draw as int,
                    width_16(),
                ),
    {
        signed_16(self.gen_u16())
    }

    /// Returns a random `u8` value.
    fn gen_u8(&mut self) -> u8 {
        let bytes = self.gen::<1>();
        bytes[0]
    }

    /// Returns a random `i8` value.
    fn gen_i8(&mut self) -> (value: i8)
        ensures
            exists|r: &mut Self, draw: u8|
                mut_ref_current(r) == *old(self) && mut_ref_future(r) == *final(self)
                    && #[trigger] call_ensures(Self::gen_u8, (r,), draw) && value == as_signed(
                    draw as int,
                    width_8(),
                ),
    {
        signed_8(self.gen_u8())
    }

    /// Returns a random `usize` value: the low bits of what `gen_u64` gives.
    fn gen_usize(&mut self) -> (value: usize)
        ensures
            exists|r: &mut Self, draw: u64|
                mut_ref_current(r) == *old(self) && mut_ref_future(r) == *final(self)
                    && #[trigger] call_ensures(Self::gen_u64, (r,), draw) && value
                    == draw as usize,
    {
        let draw = self.gen_u64();
        #[verifier::truncate]
        (draw as usize)
    }

    /// Returns a random `isize` value: the low bits of what `gen_i64` gives.
    fn gen_isize(&mut self) -> (value: isize)
        ensures
            exists|r: &mut Self, draw: i64|
                mut_ref_current(r) == *old(self) && mut_ref_future(r) == *final(self)
                    && #[trigger] call_ensures(Self::gen_i64, (r,), draw) && value
                    == draw as isize,
    {
        let draw = self.gen_i64();
        #[verifier::truncate]
        (draw as isize)
    }
}

/// Generators that start from a seed.
pub trait SeededCore: TurboCore + Sized {
    /// The seed that the generator takes.
    type Seed;

    /// Creates a generator from a seed.
    fn with_seed(seed: Self::Seed) -> Self;

    /// Starts the generator afresh from a seed.
    fn reseed(&mut self, seed: Self::Seed);
}

/// Marks a generator as cryptographically secure. It is for the implementor
/// to make sure of that.
pub trait SecureCore: TurboCore {

}

/// Generators that can derive a new generator from themselves. Forking
/// takes a step of the parent and seeds the new generator from what it
/// puts out: the raw state of the parent is never copied.
pub trait ForkableCore: TurboCore + Sized {
    /// Derives a new generator from this one.
    fn fork(&mut self) -> Self;
}

/// `Iterator::size_hint` gives bounds on the number of items that are left.
/// An iterator may give wrong bounds, so nothing is claimed of them.
#[verifier::external_body]
fn size_hint_of<I: Iterator>(list: &I) -> (usize, Option<usize>) {
    list.size_hint()
}

/// Whether `hint` is what the iterator gave when it was asked for the
/// number of items that it has left.
pub closed spec fn announces<I: Iterator>(list: I, hint: (usize, Option<usize>)) -> bool {
    call_ensures(size_hint_of::<I>, (&list,), hint)
}

/// Takes `n` items off an iterator and returns the one after them, or
/// `None` if the iterator ends before.
pub fn nth_of<I: Iterator>(list: &mut I, n: usize) -> (item: Option<I::Item>)
    ensures
        <I as IteratorSpec>::obeys_prophetic_iter_laws(final(list))
            == <I as IteratorSpec>::obeys_prophetic_iter_laws(old(list)),
        <I as IteratorSpec>::obeys_prophetic_iter_laws(old(list)) ==> {
            &&& <I as IteratorSpec>::decrease(final(list)) is Some
                <==> <I as IteratorSpec>::decrease(old(list)) is Some
            &&& item.is_some() && <I as IteratorSpec>::decrease(old(list)) is Some
                ==> <I as IteratorSpec>::decrease(final(list))->0 < <I as IteratorSpec>::decrease(
                old(list),
            )->0
            &&& n < <I as IteratorSpec>::remaining(old(list)).len() ==> item == Some(
                <I as IteratorSpec>::remaining(old(list))[n as int],
            ) && <I as IteratorSpec>::remaining(final(list)) == <I as IteratorSpec>::remaining(
                old(list),
            ).skip(n + 1)
            &&& n >= <I as IteratorSpec>::remaining(old(list)).len() ==> item.is_none()
                && <I as IteratorSpec>::remaining(final(list)).len() == 0
        },
{
    let ghost all = <I as IteratorSpec>::remaining(list);
    let ghost start = <I as IteratorSpec>::decrease(list);
    let ghost lawful = <I as IteratorSpec>::obeys_prophetic_iter_laws(list);
    let mut skipped: usize = 0;
    while skipped < n
        invariant
            skipped <= n,
            lawful == <I as IteratorSpec>::obeys_prophetic_iter_laws(list),
            lawful == <I as IteratorSpec>::obeys_prophetic_iter_laws(old(list)),
            all == <I as IteratorSpec>::remaining(old(list)),
            start == <I as IteratorSpec>::decrease(old(list)),
            lawful ==> {
                &&& <I as IteratorSpec>::decrease(list) is Some <==> start is Some
                &&& start is Some ==> <I as IteratorSpec>::decrease(list)->0 <= start->0
                &&& skipped <= all.len()
                &&& <I as IteratorSpec>::remaining(list) == all.skip(skipped as int)
            },
        decreases n - skipped,
    {
        let ghost left = <I as IteratorSpec>::remaining(list);
        match list.next() {
            Some(_) => {
                assert(lawful ==> all.skip(skipped as int).drop_first() =~= all.skip(skipped + 1));
                skipped += 1;
            },
            None => {
                assert(lawful ==> left.len() == 0);
                assert(lawful ==> left.len() == all.len() - skipped);
                return None;
            },
        }
    }
    let item = list.next();
    assert(lawful ==> all.skip(n as int).len() == all.len() - n);
    assert(lawful && n < all.len() ==> all.skip(n as int).drop_first() =~= all.skip(n + 1));
    item
}

/// Whether `item` is what sampling gives of an iterator with `items` left
/// that announces exactly `announced` items: nothing where it announces
/// none, its first item where it announces one, and else the item at a
/// position below `announced`, which is there as long as the iterator holds
/// what it announces.
pub open spec fn sized_pick<T>(items: Seq<T>, announced: usize, item: Option<T>) -> bool {
    &&& announced == 0 ==> item.is_none()
    &&& announced == 1 ==> item == if items.len() > 0 {
        Some(items[0])
    } else {
        None
    }
    &&& item matches Some(picked) ==> exists|i: int|
        0 <= i < announced && i < items.len() && picked == #[trigger] items[i]
    &&& 1 <= announced <= items.len() ==> item.is_some()
}

/// The positions of the picks after the first `taken` items were taken
/// and every further item was given one of `slots`: an item whose slot
/// lies below `taken` takes the place of the pick in that slot.
pub open spec fn reservoir_positions(taken: int, slots: Seq<int>) -> Seq<int>
    decreases slots.len(),
{
    if slots.len() == 0 {
        Seq::new(
            if taken >= 0 {
                taken as nat
            } else {
                0
            },
            |k: int| k,
        )
    } else {
        let earlier = reservoir_positions(taken, slots.drop_last());
        if 0 <= slots.last() < taken {
            earlier.update(slots.last(), taken + slots.len() - 1)
        } else {
            earlier
        }
    }
}

/// Whether an iterator with `left` items announces what it does not hold:
/// more items at least, or fewer at most, than it has left.
pub open spec fn misannounced(left: nat, hint: (usize, Option<usize>)) -> bool {
    hint.0 > left || (hint.1 matches Some(most) && most < left)
}

/// Whether the items that an iterator announces next are taken as a run:
/// it announces more than one item at least, and the position of the last
/// of them can be counted after the `consumed` items gone through so far.
/// Otherwise the next item is taken by itself.
pub fn takes_run(lower: usize, consumed: usize) -> (run: bool)
    ensures
        run == (lower > 1 && lower + consumed <= usize::MAX),
{
    lower > 1 && lower <= usize::MAX - consumed
}

/// Whether a single item, the `consumed`-th that is gone through, takes
/// the place of the pick: the first item does, and any other where the
/// index drawn for it, below `consumed`, is zero.
pub fn replaces_pick(consumed: usize, index: usize) -> (replaces: bool)
    ensures
        replaces == (consumed == 1 || index == 0),
{
    consumed == 1 || index == 0
}

/// What a run of `lower` announced items does with the index drawn for it,
/// which lies below the number of items up to the end of the run: the
/// position in the run of the item that becomes the pick, if the index
/// falls into the run, and the number of items of the run to pass over
/// after that.
pub fn run_step(lower: usize, index: usize) -> (step: (Option<usize>, usize))
    ensures
        step == if index < lower {
            (Some(index), (lower - (index + 1)) as usize)
        } else {
            (None::<usize>, lower)
        },
{
    if index < lower {
        (Some(index), lower - (index + 1))
    } else {
        (None, lower)
    }
}

/// The item at `position` of `items`, if there is one.
pub open spec fn nth_item<T>(items: Seq<T>, position: int) -> Option<T> {
    if 0 <= position < items.len() {
        Some(items[position])
    } else {
        None
    }
}

/// Whether a 64-bit draw keeps what was picked with a chance of
/// `rate / 2^64`: the draw lies below the rate.
pub fn accepts(draw: u64, rate: u64) -> (kept: bool)
    ensures
        kept == (draw < rate),
{
    draw < rate
}

/// Whether a round of stochastic acceptance on `list` may pick the item
/// at the position `round.0`: the position is drawn for the list, and
/// `round.1` is the weight that `weight_sampler` gives the item there.
pub open spec fn round_picks<G: GenCore, T, F: Fn((&T, usize)) -> u64>(
    weight_sampler: F,
    list: Seq<T>,
    round: (int, u64),
) -> bool {
    &&& 0 <= round.0 < list.len()
    &&& position_drawn::<G>(list.len() - 1, round.0)
    &&& call_ensures(weight_sampler, ((&list[round.0], round.0 as usize),), round.1)
}

/// Whether a round of stochastic acceptance on an iterator that announces
/// `lower` items went to the position `round.0`, drawn below `lower`, and
/// found there the item of `round.1` with the weight that `weight_sampler`
/// gives it, or found no item there, for which `round.1` is `None`.
pub open spec fn sized_round_picks<G: GenCore, T, F: Fn((&T, usize)) -> u64>(
    weight_sampler: F,
    lower: usize,
    round: (int, Option<(T, u64)>),
) -> bool {
    &&& 0 <= round.0 < lower
    &&& position_drawn::<G>(lower - 1, round.0)
    &&& round.1 matches Some(found) ==> call_ensures(
        weight_sampler,
        ((&found.0, round.0 as usize),),
        found.1,
    )
}

/// The weight that a round found, which is zero where it found no item.
pub open spec fn weight_found<T>(found: Option<(T, u64)>) -> u64 {
    match found {
        Some(item) => item.1,
        None => 0,
    }
}

/// Draws raw `u8` values for a range of `span + 1` values until one is
/// kept, or `REDRAW_LIMIT` draws were replaced, and returns the last draw.
/// A draw is replaced where it would favour some values of the range. The
/// generator goes from state to state through the draws, one `gen_u8`
/// each. Where the first draw is kept, it is the only one.
pub fn settle_u8<R: GenCore>(rng: &mut R, span: u8) -> (draw: u8)
    ensures
        exists|first: &mut R, a: u8, last: &mut R|
            {
                &&& mut_ref_current(first) == *old(rng)
                &&& #[trigger] call_ensures(R::gen_u8, (first,), a)
                &&& mut_ref_future(last) == *final(rng)
                &&& #[trigger] call_ensures(R::gen_u8, (last,), draw)
                &&& spec_sample(a as int, 0, span as int, width_8()).1 ==> draw == a
                    && mut_ref_future(first) == *final(rng)
            },
        exists|draws: Seq<u8>, states: Seq<R>|
            #![trigger draws.len(), states.len()]
            {
                &&& 1 <= draws.len() <= REDRAW_LIMIT + 1
                &&& draws.last() == draw
                &&& spec_sample(draw as int, 0, span as int, width_8()).1 || draws.len()
                    == REDRAW_LIMIT + 1
                &&& states.len() == draws.len() + 1
                &&& states[0] == *old(rng)
                &&& states[draws.len() as int] == *final(rng)
                &&& forall|k: int|
                    #![trigger draws[k]]
                    0 <= k < draws.len() ==> spec_sample(draws[k] as int, 0, span as int, width_8()).0
                        <= span && (k < draws.len() - 1 ==> !spec_sample(
                        draws[k] as int,
                        0,
                        span as int,
                        width_8(),
                    ).1) && exists|r: &mut R|
                        {
                            &&& mut_ref_current(r) == states[k]
                            &&& mut_ref_future(r) == states[k + 1]
                            &&& #[trigger] call_ensures(R::gen_u8, (r,), draws[k])
                        }
            },
{
    let ghost before = *rng;
    let a = rng.gen_u8();
    let mut draw = a;
    let mut kept = sample_u8(a, 0, span).1;
    let mut redraws: u64 = 0;
    let ghost mut draws: Seq<u8> = seq![a];
    let ghost mut states: Seq<R> = seq![before, *rng];
    proof {
        assert(draws.len() == 1 && states.len() == 2);
        assert(draws[0] == a);
        assert(states[0] == before);
        assert(states[1] == *rng);
    }
    while !kept && redraws < REDRAW_LIMIT
        invariant
            kept == spec_sample(draw as int, 0, span as int, width_8()).1,
            redraws > 0 ==> !spec_sample(a as int, 0, span as int, width_8()).1,
            exists|first: &mut R, last: &mut R|
                {
                    &&& mut_ref_current(first) == *old(rng)
                    &&& #[trigger] call_ensures(R::gen_u8, (first,), a)
                    &&& mut_ref_future(last) == *rng
                    &&& #[trigger] call_ensures(R::gen_u8, (last,), draw)
                    &&& redraws == 0 ==> draw == a && mut_ref_future(first) == *rng
                },
            draws.len() == redraws + 1,
            draws.last() == draw,
            states.len() == draws.len() + 1,
            states[0] == *old(rng),
            states[draws.len() as int] == *rng,
            forall|k: int|
                #![trigger draws[k]]
                0 <= k < draws.len() ==> spec_sample(draws[k] as int, 0, span as int, width_8()).0
                    <= span && (k < draws.len() - 1 ==> !spec_sample(
                    draws[k] as int,
                    0,
                    span as int,
                    width_8(),
                ).1) && exists|r: &mut R|
                    {
                        &&& mut_ref_current(r) == states[k]
                        &&& mut_ref_future(r) == states[k + 1]
                        &&& #[trigger] call_ensures(R::gen_u8, (r,), draws[k])
                    },
        decreases REDRAW_LIMIT - redraws,
    {
        let ghost draws_before = draws;
        let ghost states_before = states;
        draw = rng.gen_u8();
        kept = sample_u8(draw, 0, span).1;
        redraws += 1;
        proof {
            draws = draws.push(draw);
            states = states.push(*rng);
            assert forall|k: int|
                #![trigger draws[k]]
                0 <= k < draws.len() implies spec_sample(draws[k] as int, 0, span as int, width_8()).0
                    <= span && (k < draws.len() - 1 ==> !spec_sample(
                    draws[k] as int,
                    0,
                    span as int,
                    width_8(),
                ).1) && exists|r: &mut R|
                    {
                        &&& mut_ref_current(r) == states[k]
                        &&& mut_ref_future(r) == states[k + 1]
                        &&& #[trigger] call_ensures(R::gen_u8, (r,), draws[k])
                    } by {
                if k < draws_before.len() {
                    assert(draws[k] == draws_before[k]);
                    assert(states[k] == states_before[k]);
                    assert(states[k + 1] == states_before[k + 1]);
                } else {
                    assert(draws[k] == draw);
                    assert(states[k] == states_before[k]);
                    assert(states[k + 1] == *rng);
                }
            }
        }
    }
    proof {
        assert(states.len() == draws.len() + 1);
    }
    draw
}

/// Draws raw `u16` values for a range of `span + 1` values until one is
/// kept, or `REDRAW_LIMIT` draws were replaced, and returns the last draw.
/// A draw is replaced where it would favour some values of the range. The
/// generator goes from state to state through the draws, one `gen_u16`
/// each. Where the first draw is kept, it is the only one.
pub fn settle_u16<R: GenCore>(rng: &mut R, span: u16) -> (draw: u16)
    ensures
        exists|first: &mut R, a: u16, last: &mut R|
            {
                &&& mut_ref_current(first) == *old(rng)
                &&& #[trigger] call_ensures(R::gen_u16, (first,), a)
                &&& mut_ref_future(last) == *final(rng)
                &&& #[trigger] call_ensures(R::gen_u16, (last,), draw)
                &&& spec_sample(a as int, 0, span as int, width_16()).1 ==> draw == a
                    && mut_ref_future(first) == *final(rng)
            },
        exists|draws: Seq<u16>, states: Seq<R>|
            #![trigger draws.len(), states.len()]
            {
                &&& 1 <= draws.len() <= REDRAW_LIMIT + 1
                &&& draws.last() == draw
                &&& spec_sample(draw as int, 0, span as int, width_16()).1 || draws.len()
                    == REDRAW_LIMIT + 1
                &&& states.len() == draws.len() + 1
                &&& states[0] == *old(rng)
                &&& states[draws.len() as int] == *final(rng)
                &&& forall|k: int|
                    #![trigger draws[k]]
                    0 <= k < draws.len() ==> spec_sample(draws[k] as int, 0, span as int, width_16()).0
                        <= span && (k < draws.len() - 1 ==> !spec_sample(
                        draws[k] as int,
                        0,
                        span as int,
                        width_16(),
                    ).1) && exists|r: &mut R|
                        {
                            &&& mut_ref_current(r) == states[k]
                            &&& mut_ref_future(r) == states[k + 1]
                            &&& #[trigger] call_ensures(R::gen_u16, (r,), draws[k])
                        }
            },
{
    let ghost before = *rng;
    let a = rng.gen_u16();
    let mut draw = a;
    let mut kept = sample_u16(a, 0, span).1;
    let mut redraws: u64 = 0;
    let ghost mut draws: Seq<u16> = seq![a];
    let ghost mut states: Seq<R> = seq![before, *rng];
    proof {
        assert(draws.len() == 1 && states.len() == 2);
        assert(draws[0] == a);
        assert(states[0] == before);
        assert(states[1] == *rng);
    }
    while !kept && redraws < REDRAW_LIMIT
        invariant
            kept == spec_sample(draw as int, 0, span as int, width_16()).1,
            redraws > 0 ==> !spec_sample(a as int, 0, span as int, width_16()).1,
            exists|first: &mut R, last: &mut R|
                {
                    &&& mut_ref_current(first) == *old(rng)
                    &&& #[trigger] call_ensures(R::gen_u16, (first,), a)
                    &&& mut_ref_future(last) == *rng
                    &&& #[trigger] call_ensures(R::gen_u16, (last,), draw)
                    &&& redraws == 0 ==> draw == a && mut_ref_future(first) == *rng
                },
            draws.len() == redraws + 1,
            draws.last() == draw,
            states.len() == draws.len() + 1,
            states[0] == *old(rng),
            states[draws.len() as int] == *rng,
            forall|k: int|
                #![trigger draws[k]]
                0 <= k < draws.len() ==> spec_sample(draws[k] as int, 0, span as int, width_16()).0
                    <= span && (k < draws.len() - 1 ==> !spec_sample(
                    draws[k] as int,
                    0,
                    span as int,
                    width_16(),
                ).1) && exists|r: &mut R|
                    {
                        &&& mut_ref_current(r) == states[k]
                        &&& mut_ref_future(r) == states[k + 1]
                        &&& #[trigger] call_ensures(R::gen_u16, (r,), draws[k])
                    },
        decreases REDRAW_LIMIT - redraws,
    {
        let ghost draws_before = draws;
        let ghost states_before = states;
        draw = rng.gen_u16();
        kept = sample_u16(draw, 0, span).1;
        redraws += 1;
        proof {
            draws = draws.push(draw);
            states = states.push(*rng);
            assert forall|k: int|
                #![trigger draws[k]]
                0 <= k < draws.len() implies spec_sample(draws[k] as int, 0, span as int, width_16()).0
                    <= span && (k < draws.len() - 1 ==> !spec_sample(
                    draws[k] as int,
                    0,
                    span as int,
                    width_16(),
                ).1) && exists|r: &mut R|
                    {
                        &&& mut_ref_current(r) == states[k]
                        &&& mut_ref_future(r) == states[k + 1]
                        &&& #[trigger] call_ensures(R::gen_u16, (r,), draws[k])
                    } by {
                if k < draws_before.len() {
                    assert(draws[k] == draws_before[k]);
                    assert(states[k] == states_before[k]);
                    assert(states[k + 1] == states_before[k + 1]);
                } else {
                    assert(draws[k] == draw);
                    assert(states[k] == states_before[k]);
                    assert(states[k + 1] == *rng);
                }
            }
        }
    }
    proof {
        assert(states.len() == draws.len() + 1);
    }
    draw
}

/// Draws raw `u32` values for a range of `span + 1` values until one is
/// kept, or `REDRAW_LIMIT` draws were replaced, and returns the last draw.
/// A draw is replaced where it would favour some values of the range. The
/// generator goes from state to state through the draws, one `gen_u32`
/// each. Where the first draw is kept, it is the only one.
pub fn settle_u32<R: GenCore>(rng: &mut R, span: u32) -> (draw: u32)
    ensures
        exists|first: &mut R, a: u32, last: &mut R|
            {
                &&& mut_ref_current(first) == *old(rng)
                &&& #[trigger] call_ensures(R::gen_u32, (first,), a)
                &&& mut_ref_future(last) == *final(rng)
                &&& #[trigger] call_ensures(R::gen_u32, (last,), draw)
                &&& spec_sample(a as int, 0, span as int, width_32()).1 ==> draw == a
                    && mut_ref_future(first) == *final(rng)
            },
        exists|draws: Seq<u32>, states: Seq<R>|
            #![trigger draws.len(), states.len()]
            {
                &&& 1 <= draws.len() <= REDRAW_LIMIT + 1
                &&& draws.last() == draw
                &&& spec_sample(draw as int, 0, span as int, width_32()).1 || draws.len()
                    == REDRAW_LIMIT + 1
                &&& states.len() == draws.len() + 1
                &&& states[0] == *old(rng)
                &&& states[draws.len() as int] == *final(rng)
                &&& forall|k: int|
                    #![trigger draws[k]]
                    0 <= k < draws.len() ==> spec_sample(draws[k] as int, 0, span as int, width_32()).0
                        <= span && (k < draws.len() - 1 ==> !spec_sample(
                        draws[k] as int,
                        0,
                        span as int,
                        width_32(),
                    ).1) && exists|r: &mut R|
                        {
                            &&& mut_ref_current(r) == states[k]
                            &&& mut_ref_future(r) == states[k + 1]
                            &&& #[trigger] call_ensures(R::gen_u32, (r,), draws[k])
                        }
            },
{
    let ghost before = *rng;
    let a = rng.gen_u32();
    let mut draw = a;
    let mut kept = sample_u32(a, 0, span).1;
    let mut redraws: u64 = 0;
    let ghost mut draws: Seq<u32> = seq![a];
    let ghost mut states: Seq<R> = seq![before, *rng];
    proof {
        assert(draws.len() == 1 && states.len() == 2);
        assert(draws[0] == a);
        assert(states[0] == before);
        assert(states[1] == *rng);
    }
    while !kept && redraws < REDRAW_LIMIT
        invariant
            kept == spec_sample(draw as int, 0, span as int, width_32()).1,
            redraws > 0 ==> !spec_sample(a as int, 0, span as int, width_32()).1,
            exists|first: &mut R, last: &mut R|
                {
                    &&& mut_ref_current(first) == *old(rng)
                    &&& #[trigger] call_ensures(R::gen_u32, (first,), a)
                    &&& mut_ref_future(last) == *rng
                    &&& #[trigger] call_ensures(R::gen_u32, (last,), draw)
                    &&& redraws == 0 ==> draw == a && mut_ref_future(first) == *rng
                },
            draws.len() == redraws + 1,
            draws.last() == draw,
            states.len() == draws.len() + 1,
            states[0] == *old(rng),
            states[draws.len() as int] == *rng,
            forall|k: int|
                #![trigger draws[k]]
                0 <= k < draws.len() ==> spec_sample(draws[k] as int, 0, span as int, width_32()).0
                    <= span && (k < draws.len() - 1 ==> !spec_sample(
                    draws[k] as int,
                    0,
                    span as int,
                    width_32(),
                ).1) && exists|r: &mut R|
                    {
                        &&& mut_ref_current(r) == states[k]
                        &&& mut_ref_future(r) == states[k + 1]
                        &&& #[trigger] call_ensures(R::gen_u32, (r,), draws[k])
                    },
        decreases REDRAW_LIMIT - redraws,
    {
        let ghost draws_before = draws;
        let ghost states_before = states;
        draw = rng.gen_u32();
        kept = sample_u32(draw, 0, span).1;
        redraws += 1;
        proof {
            draws = draws.push(draw);
            states = states.push(*rng);
            assert forall|k: int|
                #![trigger draws[k]]
                0 <= k < draws.len() implies spec_sample(draws[k] as int, 0, span as int, width_32()).0
                    <= span && (k < draws.len() - 1 ==> !spec_sample(
                    draws[k] as int,
                    0,
                    span as int,
                    width_32(),
                ).1) && exists|r: &mut R|
                    {
                        &&& mut_ref_current(r) == states[k]
                        &&& mut_ref_future(r) == states[k + 1]
                        &&& #[trigger] call_ensures(R::gen_u32, (r,), draws[k])
                    } by {
                if k < draws_before.len() {
                    assert(draws[k] == draws_before[k]);
                    assert(states[k] == states_before[k]);
                    assert(states[k + 1] == states_before[k + 1]);
                } else {
                    assert(draws[k] == draw);
                    assert(states[k] == states_before[k]);
                    assert(states[k + 1] == *rng);
                }
            }
        }
    }
    proof {
        assert(states.len() == draws.len() + 1);
    }
    draw
}

/// Draws raw `u64` values for a range of `span + 1` values until one is
/// kept, or `REDRAW_LIMIT` draws were replaced, and returns the last draw.
/// A draw is replaced where it would favour some values of the range. The
/// generator goes from state to state through the draws, one `gen_u64`
/// each. Where the first draw is kept, it is the only one.
pub fn settle_u64<R: GenCore>(rng: &mut R, span: u64) -> (draw: u64)
    ensures
        exists|first: &mut R, a: u64, last: &mut R|
            {
                &&& mut_ref_current(first) == *old(rng)
                &&& #[trigger] call_ensures(R::gen_u64, (first,), a)
                &&& mut_ref_future(last) == *final(rng)
                &&& #[trigger] call_ensures(R::gen_u64, (last,), draw)
                &&& spec_sample(a as int, 0, span as int, width_64()).1 ==> draw == a
                    && mut_ref_future(first) == *final(rng)
            },
        exists|draws: Seq<u64>, states: Seq<R>|
            #![trigger draws.len(), states.len()]
            {
                &&& 1 <= draws.len() <= REDRAW_LIMIT + 1
                &&& draws.last() == draw
                &&& spec_sample(draw as int, 0, span as int, width_64()).1 || draws.len()
                    == REDRAW_LIMIT + 1
                &&& states.len() == draws.len() + 1
                &&& states[0] == *old(rng)
                &&& states[draws.len() as int] == *final(rng)
                &&& forall|k: int|
                    #![trigger draws[k]]
                    0 <= k < draws.len() ==> spec_sample(draws[k] as int, 0, span as int, width_64()).0
                        <= span && (k < draws.len() - 1 ==> !spec_sample(
                        draws[k] as int,
                        0,
                        span as int,
                        width_64(),
                    ).1) && exists|r: &mut R|
                        {
                            &&& mut_ref_current(r) == states[k]
                            &&& mut_ref_future(r) == states[k + 1]
                            &&& #[trigger] call_ensures(R::gen_u64, (r,), draws[k])
                        }
            },
{
    let ghost before = *rng;
    let a = rng.gen_u64();
    let mut draw = a;
    let mut kept = sample_u64(a, 0, span).1;
    let mut redraws: u64 = 0;
    let ghost mut draws: Seq<u64> = seq![a];
    let ghost mut states: Seq<R> = seq![before, *rng];
    proof {
        assert(draws.len() == 1 && states.len() == 2);
        assert(draws[0] == a);
        assert(states[0] == before);
        assert(states[1] == *rng);
    }
    while !kept && redraws < REDRAW_LIMIT
        invariant
            kept == spec_sample(draw as int, 0, span as int, width_64()).1,
            redraws > 0 ==> !spec_sample(a as int, 0, span as int, width_64()).1,
            exists|first: &mut R, last: &mut R|
                {
                    &&& mut_ref_current(first) == *old(rng)
                    &&& #[trigger] call_ensures(R::gen_u64, (first,), a)
                    &&& mut_ref_future(last) == *rng
                    &&& #[trigger] call_ensures(R::gen_u64, (last,), draw)
                    &&& redraws == 0 ==> draw == a && mut_ref_future(first) == *rng
                },
            draws.len() == redraws + 1,
            draws.last() == draw,
            states.len() == draws.len() + 1,
            states[0] == *old(rng),
            states[draws.len() as int] == *rng,
            forall|k: int|
                #![trigger draws[k]]
                0 <= k < draws.len() ==> spec_sample(draws[k] as int, 0, span as int, width_64()).0
                    <= span && (k < draws.len() - 1 ==> !spec_sample(
                    draws[k] as int,
                    0,
                    span as int,
                    width_64(),
                ).1) && exists|r: &mut R|
                    {
                        &&& mut_ref_current(r) == states[k]
                        &&& mut_ref_future(r) == states[k + 1]
                        &&& #[trigger] call_ensures(R::gen_u64, (r,), draws[k])
                    },
        decreases REDRAW_LIMIT - redraws,
    {
        let ghost draws_before = draws;
        let ghost states_before = states;
        draw = rng.gen_u64();
        kept = sample_u64(draw, 0, span).1;
        redraws += 1;
        proof {
            draws = draws.push(draw);
            states = states.push(*rng);
            assert forall|k: int|
                #![trigger draws[k]]
                0 <= k < draws.len() implies spec_sample(draws[k] as int, 0, span as int, width_64()).0
                    <= span && (k < draws.len() - 1 ==> !spec_sample(
                    draws[k] as int,
                    0,
                    span as int,
                    width_64(),
                ).1) && exists|r: &mut R|
                    {
                        &&& mut_ref_current(r) == states[k]
                        &&& mut_ref_future(r) == states[k + 1]
                        &&& #[trigger] call_ensures(R::gen_u64, (r,), draws[k])
                    } by {
                if k < draws_before.len() {
                    assert(draws[k] == draws_before[k]);
                    assert(states[k] == states_before[k]);
                    assert(states[k + 1] == states_before[k + 1]);
                } else {
                    assert(draws[k] == draw);
                    assert(states[k] == states_before[k]);
                    assert(states[k + 1] == *rng);
                }
            }
        }
    }
    proof {
        assert(states.len() == draws.len() + 1);
    }
    draw
}

/// Draws raw `u128` values for a range of `span + 1` values until one is
/// kept, or `REDRAW_LIMIT` draws were replaced, and returns the last draw.
/// A draw is replaced where it would favour some values of the range. The
/// generator goes from state to state through the draws, one `gen_u128`
/// each. Where the first draw is kept, it is the only one.
pub fn settle_u128<R: GenCore>(rng: &mut R, span: u128) -> (draw: u128)
    ensures
        exists|first: &mut R, a: u128, last: &mut R|
            {
                &&& mut_ref_current(first) == *old(rng)
                &&& #[trigger] call_ensures(R::gen_u128, (first,), a)
                &&& mut_ref_future(last) == *final(rng)
                &&& #[trigger] call_ensures(R::gen_u128, (last,), draw)
                &&& spec_sample(a as int, 0, span as int, width_128()).1 ==> draw == a
                    && mut_ref_future(first) == *final(rng)
            },
        exists|draws: Seq<u128>, states: Seq<R>|
            #![trigger draws.len(), states.len()]
            {
                &&& 1 <= draws.len() <= REDRAW_LIMIT + 1
                &&& draws.last() == draw
                &&& spec_sample(draw as int, 0, span as int, width_128()).1 || draws.len()
                    == REDRAW_LIMIT + 1
                &&& states.len() == draws.len() + 1
                &&& states[0] == *old(rng)
                &&& states[draws.len() as int] == *final(rng)
                &&& forall|k: int|
                    #![trigger draws[k]]
                    0 <= k < draws.len() ==> spec_sample(draws[k] as int, 0, span as int, width_128()).0
                        <= span && (k < draws.len() - 1 ==> !spec_sample(
                        draws[k] as int,
                        0,
                        span as int,
                        width_128(),
                    ).1) && exists|r: &mut R|
                        {
                            &&& mut_ref_current(r) == states[k]
                            &&& mut_ref_future(r) == states[k + 1]
                            &&& #[trigger] call_ensures(R::gen_u128, (r,), draws[k])
                        }
            },
{
    let ghost before = *rng;
    let a = rng.gen_u128();
    let mut draw = a;
    let mut kept = sample_u128(a, 0, span).1;
    let mut redraws: u64 = 0;
    let ghost mut draws: Seq<u128> = seq![a];
    let ghost mut states: Seq<R> = seq![before, *rng];
    proof {
        assert(draws.len() == 1 && states.len() == 2);
        assert(draws[0] == a);
        assert(states[0] == before);
        assert(states[1] == *rng);
    }
    while !kept && redraws < REDRAW_LIMIT
        invariant
            kept == spec_sample(draw as int, 0, span as int, width_128()).1,
            redraws > 0 ==> !spec_sample(a as int, 0, span as int, width_128()).1,
            exists|first: &mut R, last: &mut R|
                {
                    &&& mut_ref_current(first) == *old(rng)
                    &&& #[trigger] call_ensures(R::gen_u128, (first,), a)
                    &&& mut_ref_future(last) == *rng
                    &&& #[trigger] call_ensures(R::gen_u128, (last,), draw)
                    &&& redraws == 0 ==> draw == a && mut_ref_future(first) == *rng
                },
            draws.len() == redraws + 1,
            draws.last() == draw,
            states.len() == draws.len() + 1,
            states[0] == *old(rng),
            states[draws.len() as int] == *rng,
            forall|k: int|
                #![trigger draws[k]]
                0 <= k < draws.len() ==> spec_sample(draws[k] as int, 0, span as int, width_128()).0
                    <= span && (k < draws.len() - 1 ==> !spec_sample(
                    draws[k] as int,
                    0,
                    span as int,
                    width_128(),
                ).1) && exists|r: &mut R|
                    {
                        &&& mut_ref_current(r) == states[k]
                        &&& mut_ref_future(r) == states[k + 1]
                        &&& #[trigger] call_ensures(R::gen_u128, (r,), draws[k])
                    },
        decreases REDRAW_LIMIT - redraws,
    {
        let ghost draws_before = draws;
        let ghost states_before = states;
        draw = rng.gen_u128();
        kept = sample_u128(draw, 0, span).1;
        redraws += 1;
        proof {
            draws = draws.push(draw);
            states = states.push(*rng);
            assert forall|k: int|
                #![trigger draws[k]]
                0 <= k < draws.len() implies spec_sample(draws[k] as int, 0, span as int, width_128()).0
                    <= span && (k < draws.len() - 1 ==> !spec_sample(
                    draws[k] as int,
                    0,
                    span as int,
                    width_128(),
                ).1) && exists|r: &mut R|
                    {
                        &&& mut_ref_current(r) == states[k]
                        &&& mut_ref_future(r) == states[k + 1]
                        &&& #[trigger] call_ensures(R::gen_u128, (r,), draws[k])
                    } by {
                if k < draws_before.len() {
                    assert(draws[k] == draws_before[k]);
                    assert(states[k] == states_before[k]);
                    assert(states[k + 1] == states_before[k + 1]);
                } else {
                    assert(draws[k] == draw);
                    assert(states[k] == states_before[k]);
                    assert(states[k + 1] == *rng);
                }
            }
        }
    }
    proof {
        assert(states.len() == draws.len() + 1);
    }
    draw
}

/// The number of values between `low` and `high`, which no signed type of
/// 128 bits can hold.
pub fn span_i128(low: i128, high: i128) -> (span: u128)
    requires
        low <= high,
    ensures
        span == high - low,
{
    if low < 0 && high >= 0 {
        (high as u128) + ((-(low + 1)) as u128) + 1
    } else {
        (high - low) as u128
    }
}

/// Draws a random `u64` from `low..=high`, replacing a draw that would
/// favour some values of the range by a fresh one, up to `REDRAW_LIMIT`
/// times. The value is the candidate of the last draw that the generator
/// made, the generator goes from state to state through the draws, and
/// where the first draw is kept it is the only one.
pub fn draw_u64<R: GenCore>(rng: &mut R, low: u64, high: u64) -> (value: u64)
    requires
        low <= high,
    ensures
        low <= value <= high,
        exists|first: &mut R, a: u64, last: &mut R, b: u64|
            {
                &&& mut_ref_current(first) == *old(rng)
                &&& #[trigger] call_ensures(R::gen_u64, (first,), a)
                &&& mut_ref_future(last) == *final(rng)
                &&& #[trigger] call_ensures(R::gen_u64, (last,), b)
                &&& value == spec_sample(b as int, low as int, high as int, width_64()).0
                &&& spec_sample(a as int, low as int, high as int, width_64()).1 ==> b == a
                    && mut_ref_future(first) == *final(rng)
            },
        exists|draws: Seq<u64>, states: Seq<R>|
            #![trigger draws.len(), states.len()]
            {
                &&& 1 <= draws.len() <= REDRAW_LIMIT + 1
                &&& value == spec_sample(draws.last() as int, low as int, high as int, width_64()).0
                &&& spec_sample(draws.last() as int, low as int, high as int, width_64()).1 || draws.len()
                    == REDRAW_LIMIT + 1
                &&& states.len() == draws.len() + 1
                &&& states[0] == *old(rng)
                &&& states[draws.len() as int] == *final(rng)
                &&& forall|k: int|
                    #![trigger draws[k]]
                    0 <= k < draws.len() ==> low as int <= spec_sample(
                        draws[k] as int,
                        low as int,
                        high as int,
                        width_64(),
                    ).0 <= high as int && (k < draws.len() - 1 ==> !spec_sample(
                        draws[k] as int,
                        low as int,
                        high as int,
                        width_64(),
                    ).1) && exists|r: &mut R|
                        {
                            &&& mut_ref_current(r) == states[k]
                            &&& mut_ref_future(r) == states[k + 1]
                            &&& #[trigger] call_ensures(R::gen_u64, (r,), draws[k])
                        }
            },
{
    let draw = settle_u64(rng, high - low);
    sample_u64(draw, low, high).0
}

/// Whether `position` is the candidate of a draw of the generator for the
/// positions up to `upper`.
pub open spec fn position_drawn<G: GenCore>(upper: int, position: int) -> bool {
    exists|r: &mut G, draw: u64|
        #[trigger] call_ensures(G::gen_u64, (r,), draw) && position == spec_sample(
            draw as int,
            0,
            upper,
            width_64(),
        ).0
}

/// The sampling methods of every generator.
pub trait TurboRand: GenCore {

    /// Returns a random `u8` from the range between the two bounds: the
    /// candidate of the last draw that the generator made for it. A draw
    /// that would favour some values of the range is replaced by a fresh
    /// one, up to `REDRAW_LIMIT` times, and the generator goes from state
    /// to state through the draws; where the first draw is kept, it is the
    /// only one. The full range of the type takes one draw as it is.
    fn u8(&mut self, lower: Bound<u8>, upper: Bound<u8>) -> (value: u8)
        requires
            saturation_free(widen_u8(lower), widen_u8(upper), u8::MIN as int, u8::MAX as int),
            resolved_u8(lower, upper).0 <= resolved_u8(lower, upper).1,
        ensures
            contains(widen_u8(lower), widen_u8(upper), value as int),
            resolved_u8(lower, upper).0 <= value <= resolved_u8(lower, upper).1,
            exists|first: &mut Self, a: u8, last: &mut Self, b: u8|
                {
                    &&& mut_ref_current(first) == *old(self)
                    &&& #[trigger] call_ensures(Self::gen_u8, (first,), a)
                    &&& mut_ref_future(last) == *final(self)
                    &&& #[trigger] call_ensures(Self::gen_u8, (last,), b)
                    &&& value == spec_sample(b as int, resolved_u8(lower, upper).0, resolved_u8(lower, upper).1, width_8()).0
                    &&& spec_sample(a as int, resolved_u8(lower, upper).0, resolved_u8(lower, upper).1, width_8()).1 ==> b == a
                        && mut_ref_future(first) == *final(self)
                },
            exists|draws: Seq<u8>, states: Seq<Self>|
                #![trigger draws.len(), states.len()]
                {
                    &&& 1 <= draws.len() <= REDRAW_LIMIT + 1
                    &&& value == spec_sample(draws.last() as int, resolved_u8(lower, upper).0, resolved_u8(lower, upper).1, width_8()).0
                    &&& spec_sample(draws.last() as int, resolved_u8(lower, upper).0, resolved_u8(lower, upper).1, width_8()).1 || draws.len()
                        == REDRAW_LIMIT + 1
                    &&& states.len() == draws.len() + 1
                    &&& states[0] == *old(self)
                    &&& states[draws.len() as int] == *final(self)
                    &&& forall|k: int|
                        #![trigger draws[k]]
                        0 <= k < draws.len() ==> resolved_u8(lower, upper).0 <= spec_sample(
                            draws[k] as int,
                            resolved_u8(lower, upper).0,
                            resolved_u8(lower, upper).1,
                            width_8(),
                        ).0 <= resolved_u8(lower, upper).1 && (k < draws.len() - 1 ==> !spec_sample(
                            draws[k] as int,
                            resolved_u8(lower, upper).0,
                            resolved_u8(lower, upper).1,
                            width_8(),
                        ).1) && exists|r: &mut Self|
                            {
                                &&& mut_ref_current(r) == states[k]
                                &&& mut_ref_future(r) == states[k + 1]
                                &&& #[trigger] call_ensures(Self::gen_u8, (r,), draws[k])
                            }
                },
    {
        let low = start_u8(lower);
        let high = end_u8(upper);
        let draw = settle_u8(self, high - low);
        sample_u8(draw, low, high).0
    }

    /// Returns a random `i8` from the range between the two bounds: the
    /// candidate of the last draw that the generator made for it. A draw
    /// that would favour some values of the range is replaced by a fresh
    /// one, up to `REDRAW_LIMIT` times, and the generator goes from state
    /// to state through the draws; where the first draw is kept, it is the
    /// only one. The full range of the type takes one draw as it is.
    fn i8(&mut self, lower: Bound<i8>, upper: Bound<i8>) -> (value: i8)
        requires
            saturation_free(widen_i8(lower), widen_i8(upper), i8::MIN as int, i8::MAX as int),
            resolved_i8(lower, upper).0 <= resolved_i8(lower, upper).1,
        ensures
            contains(widen_i8(lower), widen_i8(upper), value as int),
            resolved_i8(lower, upper).0 <= value <= resolved_i8(lower, upper).1,
            exists|first: &mut Self, a: u8, last: &mut Self, b: u8|
                {
                    &&& mut_ref_current(first) == *old(self)
                    &&& #[trigger] call_ensures(Self::gen_u8, (first,), a)
                    &&& mut_ref_future(last) == *final(self)
                    &&& #[trigger] call_ensures(Self::gen_u8, (last,), b)
                    &&& value == spec_sample(b as int, resolved_i8(lower, upper).0, resolved_i8(lower, upper).1, width_8()).0
                    &&& spec_sample(a as int, resolved_i8(lower, upper).0, resolved_i8(lower, upper).1, width_8()).1 ==> b == a
                        && mut_ref_future(first) == *final(self)
                },
            exists|draws: Seq<u8>, states: Seq<Self>|
                #![trigger draws.len(), states.len()]
                {
                    &&& 1 <= draws.len() <= REDRAW_LIMIT + 1
                    &&& value == spec_sample(draws.last() as int, resolved_i8(lower, upper).0, resolved_i8(lower, upper).1, width_8()).0
                    &&& spec_sample(draws.last() as int, resolved_i8(lower, upper).0, resolved_i8(lower, upper).1, width_8()).1 || draws.len()
                        == REDRAW_LIMIT + 1
                    &&& states.len() == draws.len() + 1
                    &&& states[0] == *old(self)
                    &&& states[draws.len() as int] == *final(self)
                    &&& forall|k: int|
                        #![trigger draws[k]]
                        0 <= k < draws.len() ==> resolved_i8(lower, upper).0 <= spec_sample(
                            draws[k] as int,
                            resolved_i8(lower, upper).0,
                            resolved_i8(lower, upper).1,
                            width_8(),
                        ).0 <= resolved_i8(lower, upper).1 && (k < draws.len() - 1 ==> !spec_sample(
                            draws[k] as int,
                            resolved_i8(lower, upper).0,
                            resolved_i8(lower, upper).1,
                            width_8(),
                        ).1) && exists|r: &mut Self|
                            {
                                &&& mut_ref_current(r) == states[k]
                                &&& mut_ref_future(r) == states[k + 1]
                                &&& #[trigger] call_ensures(Self::gen_u8, (r,), draws[k])
                            }
                },
    {
        let low = start_i8(lower);
        let high = end_i8(upper);
        let draw = settle_u8(self, ((high as i16) - (low as i16)) as u8);
        sample_i8(draw, low, high).0
    }

    /// Returns a random `u16` from the range between the two bounds: the
    /// candidate of the last draw that the generator made for it. A draw
    /// that would favour some values of the range is replaced by a fresh
    /// one, up to `REDRAW_LIMIT` times, and the generator goes from state
    /// to state through the draws; where the first draw is kept, it is the
    /// only one. The full range of the type takes one draw as it is.
    fn u16(&mut self, lower: Bound<u16>, upper: Bound<u16>) -> (value: u16)
        requires
            saturation_free(widen_u16(lower), widen_u16(upper), u16::MIN as int, u16::MAX as int),
            resolved_u16(lower, upper).0 <= resolved_u16(lower, upper).1,
        ensures
            contains(widen_u16(lower), widen_u16(upper), value as int),
            resolved_u16(lower, upper).0 <= value <= resolved_u16(lower, upper).1,
            exists|first: &mut Self, a: u16, last: &mut Self, b: u16|
                {
                    &&& mut_ref_current(first) == *old(self)
                    &&& #[trigger] call_ensures(Self::gen_u16, (first,), a)
                    &&& mut_ref_future(last) == *final(self)
                    &&& #[trigger] call_ensures(Self::gen_u16, (last,), b)
                    &&& value == spec_sample(b as int, resolved_u16(lower, upper).0, resolved_u16(lower, upper).1, width_16()).0
                    &&& spec_sample(a as int, resolved_u16(lower, upper).0, resolved_u16(lower, upper).1, width_16()).1 ==> b == a
                        && mut_ref_future(first) == *final(self)
                },
            exists|draws: Seq<u16>, states: Seq<Self>|
                #![trigger draws.len(), states.len()]
                {
                    &&& 1 <= draws.len() <= REDRAW_LIMIT + 1
                    &&& value == spec_sample(draws.last() as int, resolved_u16(lower, upper).0, resolved_u16(lower, upper).1, width_16()).0
                    &&& spec_sample(draws.last() as int, resolved_u16(lower, upper).0, resolved_u16(lower, upper).1, width_16()).1 || draws.len()
                        == REDRAW_LIMIT + 1
                    &&& states.len() == draws.len() + 1
                    &&& states[0] == *old(self)
                    &&& states[draws.len() as int] == *final(self)
                    &&& forall|k: int|
                        #![trigger draws[k]]
                        0 <= k < draws.len() ==> resolved_u16(lower, upper).0 <= spec_sample(
                            draws[k] as int,
                            resolved_u16(lower, upper).0,
                            resolved_u16(lower, upper).1,
                            width_16(),
                        ).0 <= resolved_u16(lower, upper).1 && (k < draws.len() - 1 ==> !spec_sample(
                            draws[k] as int,
                            resolved_u16(lower, upper).0,
                            resolved_u16(lower, upper).1,
                            width_16(),
                        ).1) && exists|r: &mut Self|
                            {
                                &&& mut_ref_current(r) == states[k]
                                &&& mut_ref_future(r) == states[k + 1]
                                &&& #[trigger] call_ensures(Self::gen_u16, (r,), draws[k])
                            }
                },
    {
        let low = start_u16(lower);
        let high = end_u16(upper);
        let draw = settle_u16(self, high - low);
        sample_u16(draw, low, high).0
    }

    /// Returns a random `i16` from the range between the two bounds: the
    /// candidate of the last draw that the generator made for it. A draw
    /// that would favour some values of the range is replaced by a fresh
    /// one, up to `REDRAW_LIMIT` times, and the generator goes from state
    /// to state through the draws; where the first draw is kept, it is the
    /// only one. The full range of the type takes one draw as it is.
    fn i16(&mut self, lower: Bound<i16>, upper: Bound<i16>) -> (value: i16)
        requires
            saturation_free(widen_i16(lower), widen_i16(upper), i16::MIN as int, i16::MAX as int),
            resolved_i16(lower, upper).0 <= resolved_i16(lower, upper).1,
        ensures
            contains(widen_i16(lower), widen_i16(upper), value as int),
            resolved_i16(lower, upper).0 <= value <= resolved_i16(lower, upper).1,
            exists|first: &mut Self, a: u16, last: &mut Self, b: u16|
                {
                    &&& mut_ref_current(first) == *old(self)
                    &&& #[trigger] call_ensures(Self::gen_u16, (first,), a)
                    &&& mut_ref_future(last) == *final(self)
                    &&& #[trigger] call_ensures(Self::gen_u16, (last,), b)
                    &&& value == spec_sample(b as int, resolved_i16(lower, upper).0, resolved_i16(lower, upper).1, width_16()).0
                    &&& spec_sample(a as int, resolved_i16(lower, upper).0, resolved_i16(lower, upper).1, width_16()).1 ==> b == a
                        && mut_ref_future(first) == *final(self)
                },
            exists|draws: Seq<u16>, states: Seq<Self>|
                #![trigger draws.len(), states.len()]
                {
                    &&& 1 <= draws.len() <= REDRAW_LIMIT + 1
                    &&& value == spec_sample(draws.last() as int, resolved_i16(lower, upper).0, resolved_i16(lower, upper).1, width_16()).0
                    &&& spec_sample(draws.last() as int, resolved_i16(lower, upper).0, resolved_i16(lower, upper).1, width_16()).1 || draws.len()
                        == REDRAW_LIMIT + 1
                    &&& states.len() == draws.len() + 1
                    &&& states[0] == *old(self)
                    &&& states[draws.len() as int] == *final(self)
                    &&& forall|k: int|
                        #![trigger draws[k]]
                        0 <= k < draws.len() ==> resolved_i16(lower, upper).0 <= spec_sample(
                            draws[k] as int,
                            resolved_i16(lower, upper).0,
                            resolved_i16(lower, upper).1,
                            width_16(),
                        ).0 <= resolved_i16(lower, upper).1 && (k < draws.len() - 1 ==> !spec_sample(
                            draws[k] as int,
                            resolved_i16(lower, upper).0,
                            resolved_i16(lower, upper).1,
                            width_16(),
                        ).1) && exists|r: &mut Self|
                            {
                                &&& mut_ref_current(r) == states[k]
                                &&& mut_ref_future(r) == states[k + 1]
                                &&& #[trigger] call_ensures(Self::gen_u16, (r,), draws[k])
                            }
                },
    {
        let low = start_i16(lower);
        let high = end_i16(upper);
        let draw = settle_u16(self, ((high as i32) - (low as i32)) as u16);
        sample_i16(draw, low, high).0
    }

    /// Returns a random `u32` from the range between the two bounds: the
    /// candidate of the last draw that the generator made for it. A draw
    /// that would favour some values of the range is replaced by a fresh
    /// one, up to `REDRAW_LIMIT` times, and the generator goes from state
    /// to state through the draws; where the first draw is kept, it is the
    /// only one. The full range of the type takes one draw as it is.
    fn u32(&mut self, lower: Bound<u32>, upper: Bound<u32>) -> (value: u32)
        requires
            saturation_free(widen_u32(lower), widen_u32(upper), u32::MIN as int, u32::MAX as int),
            resolved_u32(lower, upper).0 <= resolved_u32(lower, upper).1,
        ensures
            contains(widen_u32(lower), widen_u32(upper), value as int),
            resolved_u32(lower, upper).0 <= value <= resolved_u32(lower, upper).1,
            exists|first: &mut Self, a: u32, last: &mut Self, b: u32|
                {
                    &&& mut_ref_current(first) == *old(self)
                    &&& #[trigger] call_ensures(Self::gen_u32, (first,), a)
                    &&& mut_ref_future(last) == *final(self)
                    &&& #[trigger] call_ensures(Self::gen_u32, (last,), b)
                    &&& value == spec_sample(b as int, resolved_u32(lower, upper).0, resolved_u32(lower, upper).1, width_32()).0
                    &&& spec_sample(a as int, resolved_u32(lower, upper).0, resolved_u32(lower, upper).1, width_32()).1 ==> b == a
                        && mut_ref_future(first) == *final(self)
                },
            exists|draws: Seq<u32>, states: Seq<Self>|
                #![trigger draws.len(), states.len()]
                {
                    &&& 1 <= draws.len() <= REDRAW_LIMIT + 1
                    &&& value == spec_sample(draws.last() as int, resolved_u32(lower, upper).0, resolved_u32(lower, upper).1, width_32()).0
                    &&& spec_sample(draws.last() as int, resolved_u32(lower, upper).0, resolved_u32(lower, upper).1, width_32()).1 || draws.len()
                        == REDRAW_LIMIT + 1
                    &&& states.len() == draws.len() + 1
                    &&& states[0] == *old(self)
                    &&& states[draws.len() as int] == *final(self)
                    &&& forall|k: int|
                        #![trigger draws[k]]
                        0 <= k < draws.len() ==> resolved_u32(lower, upper).0 <= spec_sample(
                            draws[k] as int,
                            resolved_u32(lower, upper).0,
                            resolved_u32(lower, upper).1,
                            width_32(),
                        ).0 <= resolved_u32(lower, upper).1 && (k < draws.len() - 1 ==> !spec_sample(
                            draws[k] as int,
                            resolved_u32(lower, upper).0,
                            resolved_u32(lower, upper).1,
                            width_32(),
                        ).1) && exists|r: &mut Self|
                            {
                                &&& mut_ref_current(r) == states[k]
                                &&& mut_ref_future(r) == states[k + 1]
                                &&& #[trigger] call_ensures(Self::gen_u32, (r,), draws[k])
                            }
                },
    {
        let low = start_u32(lower);
        let high = end_u32(upper);
        let draw = settle_u32(self, high - low);
        sample_u32(draw, low, high).0
    }

    /// Returns a random `i32` from the range between the two bounds: the
    /// candidate of the last draw that the generator made for it. A draw
    /// that would favour some values of the range is replaced by a fresh
    /// one, up to `REDRAW_LIMIT` times, and the generator goes from state
    /// to state through the draws; where the first draw is kept, it is the
    /// only one. The full range of the type takes one draw as it is.
    fn i32(&mut self, lower: Bound<i32>, upper: Bound<i32>) -> (value: i32)
        requires
            saturation_free(widen_i32(lower), widen_i32(upper), i32::MIN as int, i32::MAX as int),
            resolved_i32(lower, upper).0 <= resolved_i32(lower, upper).1,
        ensures
            contains(widen_i32(lower), widen_i32(upper), value as int),
            resolved_i32(lower, upper).0 <= value <= resolved_i32(lower, upper).1,
            exists|first: &mut Self, a: u32, last: &mut Self, b: u32|
                {
                    &&& mut_ref_current(first) == *old(self)
                    &&& #[trigger] call_ensures(Self::gen_u32, (first,), a)
                    &&& mut_ref_future(last) == *final(self)
                    &&& #[trigger] call_ensures(Self::gen_u32, (last,), b)
                    &&& value == spec_sample(b as int, resolved_i32(lower, upper).0, resolved_i32(lower, upper).1, width_32()).0
                    &&& spec_sample(a as int, resolved_i32(lower, upper).0, resolved_i32(lower, upper).1, width_32()).1 ==> b == a
                        && mut_ref_future(first) == *final(self)
                },
            exists|draws: Seq<u32>, states: Seq<Self>|
                #![trigger draws.len(), states.len()]
                {
                    &&& 1 <= draws.len() <= REDRAW_LIMIT + 1
                    &&& value == spec_sample(draws.last() as int, resolved_i32(lower, upper).0, resolved_i32(lower, upper).1, width_32()).0
                    &&& spec_sample(draws.last() as int, resolved_i32(lower, upper).0, resolved_i32(lower, upper).1, width_32()).1 || draws.len()
                        == REDRAW_LIMIT + 1
                    &&& states.len() == draws.len() + 1
                    &&& states[0] == *old(self)
                    &&& states[draws.len() as int] == *final(self)
                    &&& forall|k: int|
                        #![trigger draws[k]]
                        0 <= k < draws.len() ==> resolved_i32(lower, upper).0 <= spec_sample(
                            draws[k] as int,
                            resolved_i32(lower, upper).0,
                            resolved_i32(lower, upper).1,
                            width_32(),
                        ).0 <= resolved_i32(lower, upper).1 && (k < draws.len() - 1 ==> !spec_sample(
                            draws[k] as int,
                            resolved_i32(lower, upper).0,
                            resolved_i32(lower, upper).1,
                            width_32(),
                        ).1) && exists|r: &mut Self|
                            {
                                &&& mut_ref_current(r) == states[k]
                                &&& mut_ref_future(r) == states[k + 1]
                                &&& #[trigger] call_ensures(Self::gen_u32, (r,), draws[k])
                            }
                },
    {
        let low = start_i32(lower);
        let high = end_i32(upper);
        let draw = settle_u32(self, ((high as i64) - (low as i64)) as u32);
        sample_i32(draw, low, high).0
    }

    /// Returns a random `u64` from the range between the two bounds: the
    /// candidate of the last draw that the generator made for it. A draw
    /// that would favour some values of the range is replaced by a fresh
    /// one, up to `REDRAW_LIMIT` times, and the generator goes from state
    /// to state through the draws; where the first draw is kept, it is the
    /// only one. The full range of the type takes one draw as it is.
    fn u64(&mut self, lower: Bound<u64>, upper: Bound<u64>) -> (value: u64)
        requires
            saturation_free(widen_u64(lower), widen_u64(upper), u64::MIN as int, u64::MAX as int),
            resolved_u64(lower, upper).0 <= resolved_u64(lower, upper).1,
        ensures
            contains(widen_u64(lower), widen_u64(upper), value as int),
            resolved_u64(lower, upper).0 <= value <= resolved_u64(lower, upper).1,
            exists|first: &mut Self, a: u64, last: &mut Self, b: u64|
                {
                    &&& mut_ref_current(first) == *old(self)
                    &&& #[trigger] call_ensures(Self::gen_u64, (first,), a)
                    &&& mut_ref_future(last) == *final(self)
                    &&& #[trigger] call_ensures(Self::gen_u64, (last,), b)
                    &&& value == spec_sample(b as int, resolved_u64(lower, upper).0, resolved_u64(lower, upper).1, width_64()).0
                    &&& spec_sample(a as int, resolved_u64(lower, upper).0, resolved_u64(lower, upper).1, width_64()).1 ==> b == a
                        && mut_ref_future(first) == *final(self)
                },
            exists|draws: Seq<u64>, states: Seq<Self>|
                #![trigger draws.len(), states.len()]
                {
                    &&& 1 <= draws.len() <= REDRAW_LIMIT + 1
                    &&& value == spec_sample(draws.last() as int, resolved_u64(lower, upper).0, resolved_u64(lower, upper).1, width_64()).0
                    &&& spec_sample(draws.last() as int, resolved_u64(lower, upper).0, resolved_u64(lower, upper).1, width_64()).1 || draws.len()
                        == REDRAW_LIMIT + 1
                    &&& states.len() == draws.len() + 1
                    &&& states[0] == *old(self)
                    &&& states[draws.len() as int] == *final(self)
                    &&& forall|k: int|
                        #![trigger draws[k]]
                        0 <= k < draws.len() ==> resolved_u64(lower, upper).0 <= spec_sample(
                            draws[k] as int,
                            resolved_u64(lower, upper).0,
                            resolved_u64(lower, upper).1,
                            width_64(),
                        ).0 <= resolved_u64(lower, upper).1 && (k < draws.len() - 1 ==> !spec_sample(
                            draws[k] as int,
                            resolved_u64(lower, upper).0,
                            resolved_u64(lower, upper).1,
                            width_64(),
                        ).1) && exists|r: &mut Self|
                            {
                                &&& mut_ref_current(r) == states[k]
                                &&& mut_ref_future(r) == states[k + 1]
                                &&& #[trigger] call_ensures(Self::gen_u64, (r,), draws[k])
                            }
                },
    {
        let low = start_u64(lower);
        let high = end_u64(upper);
        let draw = settle_u64(self, high - low);
        sample_u64(draw, low, high).0
    }

    /// Returns a random `i64` from the range between the two bounds: the
    /// candidate of the last draw that the generator made for it. A draw
    /// that would favour some values of the range is replaced by a fresh
    /// one, up to `REDRAW_LIMIT` times, and the generator goes from state
    /// to state through the draws; where the first draw is kept, it is the
    /// only one. The full range of the type takes one draw as it is.
    fn i64(&mut self, lower: Bound<i64>, upper: Bound<i64>) -> (value: i64)
        requires
            saturation_free(widen_i64(lower), widen_i64(upper), i64::MIN as int, i64::MAX as int),
            resolved_i64(lower, upper).0 <= resolved_i64(lower, upper).1,
        ensures
            contains(widen_i64(lower), widen_i64(upper), value as int),
            resolved_i64(lower, upper).0 <= value <= resolved_i64(lower, upper).1,
            exists|first: &mut Self, a: u64, last: &mut Self, b: u64|
                {
                    &&& mut_ref_current(first) == *old(self)
                    &&& #[trigger] call_ensures(Self::gen_u64, (first,), a)
                    &&& mut_ref_future(last) == *final(self)
                    &&& #[trigger] call_ensures(Self::gen_u64, (last,), b)
                    &&& value == spec_sample(b as int, resolved_i64(lower, upper).0, resolved_i64(lower, upper).1, width_64()).0
                    &&& spec_sample(a as int, resolved_i64(lower, upper).0, resolved_i64(lower, upper).1, width_64()).1 ==> b == a
                        && mut_ref_future(first) == *final(self)
                },
            exists|draws: Seq<u64>, states: Seq<Self>|
                #![trigger draws.len(), states.len()]
                {
                    &&& 1 <= draws.len() <= REDRAW_LIMIT + 1
                    &&& value == spec_sample(draws.last() as int, resolved_i64(lower, upper).0, resolved_i64(lower, upper).1, width_64()).0
                    &&& spec_sample(draws.last() as int, resolved_i64(lower, upper).0, resolved_i64(lower, upper).1, width_64()).1 || draws.len()
                        == REDRAW_LIMIT + 1
                    &&& states.len() == draws.len() + 1
                    &&& states[0] == *old(self)
                    &&& states[draws.len() as int] == *final(self)
                    &&& forall|k: int|
                        #![trigger draws[k]]
                        0 <= k < draws.len() ==> resolved_i64(lower, upper).0 <= spec_sample(
                            draws[k] as int,
                            resolved_i64(lower, upper).0,
                            resolved_i64(lower, upper).1,
                            width_64(),
                        ).0 <= resolved_i64(lower, upper).1 && (k < draws.len() - 1 ==> !spec_sample(
                            draws[k] as int,
                            resolved_i64(lower, upper).0,
                            resolved_i64(lower, upper).1,
                            width_64(),
                        ).1) && exists|r: &mut Self|
                            {
                                &&& mut_ref_current(r) == states[k]
                                &&& mut_ref_future(r) == states[k + 1]
                                &&& #[trigger] call_ensures(Self::gen_u64, (r,), draws[k])
                            }
                },
    {
        let low = start_i64(lower);
        let high = end_i64(upper);
        let draw = settle_u64(self, ((high as i128) - (low as i128)) as u64);
        sample_i64(draw, low, high).0
    }

    /// Returns a random `u128` from the range between the two bounds: the
    /// candidate of the last draw that the generator made for it. A draw
    /// that would favour some values of the range is replaced by a fresh
    /// one, up to `REDRAW_LIMIT` times, and the generator goes from state
    /// to state through the draws; where the first draw is kept, it is the
    /// only one. The full range of the type takes one draw as it is.
    fn u128(&mut self, lower: Bound<u128>, upper: Bound<u128>) -> (value: u128)
        requires
            saturation_free(widen_u128(lower), widen_u128(upper), u128::MIN as int, u128::MAX as int),
            resolved_u128(lower, upper).0 <= resolved_u128(lower, upper).1,
        ensures
            contains(widen_u128(lower), widen_u128(upper), value as int),
            resolved_u128(lower, upper).0 <= value <= resolved_u128(lower, upper).1,
            exists|first: &mut Self, a: u128, last: &mut Self, b: u128|
                {
                    &&& mut_ref_current(first) == *old(self)
                    &&& #[trigger] call_ensures(Self::gen_u128, (first,), a)
                    &&& mut_ref_future(last) == *final(self)
                    &&& #[trigger] call_ensures(Self::gen_u128, (last,), b)
                    &&& value == spec_sample(b as int, resolved_u128(lower, upper).0, resolved_u128(lower, upper).1, width_128()).0
                    &&& spec_sample(a as int, resolved_u128(lower, upper).0, resolved_u128(lower, upper).1, width_128()).1 ==> b == a
                        && mut_ref_future(first) == *final(self)
                },
            exists|draws: Seq<u128>, states: Seq<Self>|
                #![trigger draws.len(), states.len()]
                {
                    &&& 1 <= draws.len() <= REDRAW_LIMIT + 1
                    &&& value == spec_sample(draws.last() as int, resolved_u128(lower, upper).0, resolved_u128(lower, upper).1, width_128()).0
                    &&& spec_sample(draws.last() as int, resolved_u128(lower, upper).0, resolved_u128(lower, upper).1, width_128()).1 || draws.len()
                        == REDRAW_LIMIT + 1
                    &&& states.len() == draws.len() + 1
                    &&& states[0] == *old(self)
                    &&& states[draws.len() as int] == *final(self)
                    &&& forall|k: int|
                        #![trigger draws[k]]
                        0 <= k < draws.len() ==> resolved_u128(lower, upper).0 <= spec_sample(
                            draws[k] as int,
                            resolved_u128(lower, upper).0,
                            resolved_u128(lower, upper).1,
                            width_128(),
                        ).0 <= resolved_u128(lower, upper).1 && (k < draws.len() - 1 ==> !spec_sample(
                            draws[k] as int,
                            resolved_u128(lower, upper).0,
                            resolved_u128(lower, upper).1,
                            width_128(),
                        ).1) && exists|r: &mut Self|
                            {
                                &&& mut_ref_current(r) == states[k]
                                &&& mut_ref_future(r) == states[k + 1]
                                &&& #[trigger] call_ensures(Self::gen_u128, (r,), draws[k])
                            }
                },
    {
        let low = start_u128(lower);
        let high = end_u128(upper);
        let draw = settle_u128(self, high - low);
        sample_u128(draw, low, high).0
    }

    /// Returns a random `i128` from the range between the two bounds: the
    /// candidate of the last draw that the generator made for it. A draw
    /// that would favour some values of the range is replaced by a fresh
    /// one, up to `REDRAW_LIMIT` times, and the generator goes from state
    /// to state through the draws; where the first draw is kept, it is the
    /// only one. The full range of the type takes one draw as it is.
    fn i128(&mut self, lower: Bound<i128>, upper: Bound<i128>) -> (value: i128)
        requires
            saturation_free(widen_i128(lower), widen_i128(upper), i128::MIN as int, i128::MAX as int),
            resolved_i128(lower, upper).0 <= resolved_i128(lower, upper).1,
        ensures
            contains(widen_i128(lower), widen_i128(upper), value as int),
            resolved_i128(lower, upper).0 <= value <= resolved_i128(lower, upper).1,
            exists|first: &mut Self, a: u128, last: &mut Self, b: u128|
                {
                    &&& mut_ref_current(first) == *old(self)
                    &&& #[trigger] call_ensures(Self::gen_u128, (first,), a)
                    &&& mut_ref_future(last) == *final(self)
                    &&& #[trigger] call_ensures(Self::gen_u128, (last,), b)
                    &&& value == spec_sample(b as int, resolved_i128(lower, upper).0, resolved_i128(lower, upper).1, width_128()).0
                    &&& spec_sample(a as int, resolved_i128(lower, upper).0, resolved_i128(lower, upper).1, width_128()).1 ==> b == a
                        && mut_ref_future(first) == *final(self)
                },
            exists|draws: Seq<u128>, states: Seq<Self>|
                #![trigger draws.len(), states.len()]
                {
                    &&& 1 <= draws.len() <= REDRAW_LIMIT + 1
                    &&& value == spec_sample(draws.last() as int, resolved_i128(lower, upper).0, resolved_i128(lower, upper).1, width_128()).0
                    &&& spec_sample(draws.last() as int, resolved_i128(lower, upper).0, resolved_i128(lower, upper).1, width_128()).1 || draws.len()
                        == REDRAW_LIMIT + 1
                    &&& states.len() == draws.len() + 1
                    &&& states[0] == *old(self)
                    &&& states[draws.len() as int] == *final(self)
                    &&& forall|k: int|
                        #![trigger draws[k]]
                        0 <= k < draws.len() ==> resolved_i128(lower, upper).0 <= spec_sample(
                            draws[k] as int,
                            resolved_i128(lower, upper).0,
                            resolved_i128(lower, upper).1,
                            width_128(),
                        ).0 <= resolved_i128(lower, upper).1 && (k < draws.len() - 1 ==> !spec_sample(
                            draws[k] as int,
                            resolved_i128(lower, upper).0,
                            resolved_i128(lower, upper).1,
                            width_128(),
                        ).1) && exists|r: &mut Self|
                            {
                                &&& mut_ref_current(r) == states[k]
                                &&& mut_ref_future(r) == states[k + 1]
                                &&& #[trigger] call_ensures(Self::gen_u128, (r,), draws[k])
                            }
                },
    {
        let low = start_i128(lower);
        let high = end_i128(upper);
        let draw = settle_u128(self, span_i128(low, high));
        sample_i128(draw, low, high).0
    }

    /// Returns a random `usize` from the range between the two bounds: the
    /// candidate of the last draw that the generator made for it. A draw
    /// that would favour some values of the range is replaced by a fresh
    /// one, up to `REDRAW_LIMIT` times, and the generator goes from state
    /// to state through the draws; where the first draw is kept, it is the
    /// only one. The full range of the type takes one draw as it is.
    fn usize(&mut self, lower: Bound<usize>, upper: Bound<usize>) -> (value: usize)
        requires
            saturation_free(widen_usize(lower), widen_usize(upper), usize::MIN as int, usize::MAX as int),
            resolved_usize(lower, upper).0 <= resolved_usize(lower, upper).1,
        ensures
            contains(widen_usize(lower), widen_usize(upper), value as int),
            resolved_usize(lower, upper).0 <= value <= resolved_usize(lower, upper).1,
            exists|first: &mut Self, a: u64, last: &mut Self, b: u64|
                {
                    &&& mut_ref_current(first) == *old(self)
                    &&& #[trigger] call_ensures(Self::gen_u64, (first,), a)
                    &&& mut_ref_future(last) == *final(self)
                    &&& #[trigger] call_ensures(Self::gen_u64, (last,), b)
                    &&& value == spec_sample(b as int, resolved_usize(lower, upper).0, resolved_usize(lower, upper).1, width_64()).0
                    &&& spec_sample(a as int, resolved_usize(lower, upper).0, resolved_usize(lower, upper).1, width_64()).1 ==> b == a
                        && mut_ref_future(first) == *final(self)
                },
            exists|draws: Seq<u64>, states: Seq<Self>|
                #![trigger draws.len(), states.len()]
                {
                    &&& 1 <= draws.len() <= REDRAW_LIMIT + 1
                    &&& value == spec_sample(draws.last() as int, resolved_usize(lower, upper).0, resolved_usize(lower, upper).1, width_64()).0
                    &&& spec_sample(draws.last() as int, resolved_usize(lower, upper).0, resolved_usize(lower, upper).1, width_64()).1 || draws.len()
                        == REDRAW_LIMIT + 1
                    &&& states.len() == draws.len() + 1
                    &&& states[0] == *old(self)
                    &&& states[draws.len() as int] == *final(self)
                    &&& forall|k: int|
                        #![trigger draws[k]]
                        0 <= k < draws.len() ==> resolved_usize(lower, upper).0 <= spec_sample(
                            draws[k] as int,
                            resolved_usize(lower, upper).0,
                            resolved_usize(lower, upper).1,
                            width_64(),
                        ).0 <= resolved_usize(lower, upper).1 && (k < draws.len() - 1 ==> !spec_sample(
                            draws[k] as int,
                            resolved_usize(lower, upper).0,
                            resolved_usize(lower, upper).1,
                            width_64(),
                        ).1) && exists|r: &mut Self|
                            {
                                &&& mut_ref_current(r) == states[k]
                                &&& mut_ref_future(r) == states[k + 1]
                                &&& #[trigger] call_ensures(Self::gen_u64, (r,), draws[k])
                            }
                },
    {
        let low = start_usize(lower);
        let high = end_usize(upper);
        let draw = settle_u64(self, (high - low) as u64);
        sample_usize(draw, low, high).0
    }

    /// Returns a random `isize` from the range between the two bounds: the
    /// candidate of the last draw that the generator made for it. A draw
    /// that would favour some values of the range is replaced by a fresh
    /// one, up to `REDRAW_LIMIT` times, and the generator goes from state
    /// to state through the draws; where the first draw is kept, it is the
    /// only one. The full range of the type takes one draw as it is.
    fn isize(&mut self, lower: Bound<isize>, upper: Bound<isize>) -> (value: isize)
        requires
            saturation_free(widen_isize(lower), widen_isize(upper), isize::MIN as int, isize::MAX as int),
            resolved_isize(lower, upper).0 <= resolved_isize(lower, upper).1,
        ensures
            contains(widen_isize(lower), widen_isize(upper), value as int),
            resolved_isize(lower, upper).0 <= value <= resolved_isize(lower, upper).1,
            exists|first: &mut Self, a: u64, last: &mut Self, b: u64|
                {
                    &&& mut_ref_current(first) == *old(self)
                    &&& #[trigger] call_ensures(Self::gen_u64, (first,), a)
                    &&& mut_ref_future(last) == *final(self)
                    &&& #[trigger] call_ensures(Self::gen_u64, (last,), b)
                    &&& value == spec_sample(b as int, resolved_isize(lower, upper).0, resolved_isize(lower, upper).1, width_64()).0
                    &&& spec_sample(a as int, resolved_isize(lower, upper).0, resolved_isize(lower, upper).1, width_64()).1 ==> b == a
                        && mut_ref_future(first) == *final(self)
                },
            exists|draws: Seq<u64>, states: Seq<Self>|
                #![trigger draws.len(), states.len()]
                {
                    &&& 1 <= draws.len() <= REDRAW_LIMIT + 1
                    &&& value == spec_sample(draws.last() as int, resolved_isize(lower, upper).0, resolved_isize(lower, upper).1, width_64()).0
                    &&& spec_sample(draws.last() as int, resolved_isize(lower, upper).0, resolved_isize(lower, upper).1, width_64()).1 || draws.len()
                        == REDRAW_LIMIT + 1
                    &&& states.len() == draws.len() + 1
                    &&& states[0] == *old(self)
                    &&& states[draws.len() as int] == *final(self)
                    &&& forall|k: int|
                        #![trigger draws[k]]
                        0 <= k < draws.len() ==> resolved_isize(lower, upper).0 <= spec_sample(
                            draws[k] as int,
                            resolved_isize(lower, upper).0,
                            resolved_isize(lower, upper).1,
                            width_64(),
                        ).0 <= resolved_isize(lower, upper).1 && (k < draws.len() - 1 ==> !spec_sample(
                            draws[k] as int,
                            resolved_isize(lower, upper).0,
                            resolved_isize(lower, upper).1,
                            width_64(),
                        ).1) && exists|r: &mut Self|
                            {
                                &&& mut_ref_current(r) == states[k]
                                &&& mut_ref_future(r) == states[k + 1]
                                &&& #[trigger] call_ensures(Self::gen_u64, (r,), draws[k])
                            }
                },
    {
        let low = start_isize(lower);
        let high = end_isize(upper);
        let draw = settle_u64(self, ((high as i128) - (low as i128)) as u64);
        sample_isize(draw, low, high).0
    }

    /// Returns a random index from the range between the two bounds. It is
    /// computed in 64 bits on every platform, so that a seed gives the same
    /// indices everywhere: the candidate of the last 64-bit draw that the
    /// generator made for it, as `usize` takes it.
    fn index(&mut self, lower: Bound<usize>, upper: Bound<usize>) -> (value: usize)
        requires
            saturation_free(widen_usize(lower), widen_usize(upper), usize::MIN as int, usize::MAX as int),
            resolved_usize(lower, upper).0 <= resolved_usize(lower, upper).1,
        ensures
            contains(widen_usize(lower), widen_usize(upper), value as int),
            resolved_usize(lower, upper).0 <= value <= resolved_usize(lower, upper).1,
            exists|first: &mut Self, a: u64, last: &mut Self, b: u64|
                {
                    &&& mut_ref_current(first) == *old(self)
                    &&& #[trigger] call_ensures(Self::gen_u64, (first,), a)
                    &&& mut_ref_future(last) == *final(self)
                    &&& #[trigger] call_ensures(Self::gen_u64, (last,), b)
                    &&& value == spec_sample(b as int, resolved_usize(lower, upper).0, resolved_usize(lower, upper).1, width_64()).0
                    &&& spec_sample(a as int, resolved_usize(lower, upper).0, resolved_usize(lower, upper).1, width_64()).1 ==> b == a
                        && mut_ref_future(first) == *final(self)
                },
            exists|draws: Seq<u64>, states: Seq<Self>|
                #![trigger draws.len(), states.len()]
                {
                    &&& 1 <= draws.len() <= REDRAW_LIMIT + 1
                    &&& value == spec_sample(draws.last() as int, resolved_usize(lower, upper).0, resolved_usize(lower, upper).1, width_64()).0
                    &&& spec_sample(draws.last() as int, resolved_usize(lower, upper).0, resolved_usize(lower, upper).1, width_64()).1 || draws.len()
                        == REDRAW_LIMIT + 1
                    &&& states.len() == draws.len() + 1
                    &&& states[0] == *old(self)
                    &&& states[draws.len() as int] == *final(self)
                    &&& forall|k: int|
                        #![trigger draws[k]]
                        0 <= k < draws.len() ==> resolved_usize(lower, upper).0 <= spec_sample(
                            draws[k] as int,
                            resolved_usize(lower, upper).0,
                            resolved_usize(lower, upper).1,
                            width_64(),
                        ).0 <= resolved_usize(lower, upper).1 && (k < draws.len() - 1 ==> !spec_sample(
                            draws[k] as int,
                            resolved_usize(lower, upper).0,
                            resolved_usize(lower, upper).1,
                            width_64(),
                        ).1) && exists|r: &mut Self|
                            {
                                &&& mut_ref_current(r) == states[k]
                                &&& mut_ref_future(r) == states[k + 1]
                                &&& #[trigger] call_ensures(Self::gen_u64, (r,), draws[k])
                            }
                },
    {
        let low = start_usize(lower);
        let high = end_usize(upper);
        let draw = settle_u64(self, (high - low) as u64);
        sample_usize(draw, low, high).0
    }

    /// Returns the 24 random bits that make up a random `f32` between `0.0`
    /// and `1.0`: the float is this number divided by `2^24`.
    fn f32_mantissa(&mut self) -> (bits: u32)
        ensures
            bits < 0x100_0000,
            exists|r: &mut Self, draw: u32|
                mut_ref_current(r) == *old(self) && mut_ref_future(r) == *final(self)
                    && #[trigger] call_ensures(Self::gen_u32, (r,), draw) && bits == draw / 0x100,
    {
        self.gen_u32() / 0x100
    }

    /// Returns the 24 random bits, read as a signed number, that make up a
    /// random `f32` between `-1.0` and `1.0`: the float is this number
    /// divided by `2^23`.
    fn f32_normalized_mantissa(&mut self) -> (bits: i32)
        ensures
            -0x80_0000 <= bits < 0x80_0000,
            exists|r: &mut Self, draw: i32|
                mut_ref_current(r) == *old(self) && mut_ref_future(r) == *final(self)
                    && #[trigger] call_ensures(Self::gen_i32, (r,), draw) && bits == draw as int / 0x100,
    {
        let raw = self.gen_i32();
        if raw >= 0 {
            raw / 0x100
        } else {
            (raw + 1) / 0x100 - 1
        }
    }

    /// Returns the 53 random bits that make up a random `f64` between `0.0`
    /// and `1.0`: the float is this number divided by `2^53`.
    fn f64_mantissa(&mut self) -> (bits: u64)
        ensures
            bits < 0x20_0000_0000_0000,
            exists|r: &mut Self, draw: u64|
                mut_ref_current(r) == *old(self) && mut_ref_future(r) == *final(self)
                    && #[trigger] call_ensures(Self::gen_u64, (r,), draw) && bits == draw / 0x800,
    {
        self.gen_u64() / 0x800
    }

    /// Returns the 53 random bits, read as a signed number, that make up a
    /// random `f64` between `-1.0` and `1.0`: the float is this number
    /// divided by `2^52`.
    fn f64_normalized_mantissa(&mut self) -> (bits: i64)
        ensures
            -0x10_0000_0000_0000 <= bits < 0x10_0000_0000_0000,
            exists|r: &mut Self, draw: i64|
                mut_ref_current(r) == *old(self) && mut_ref_future(r) == *final(self)
                    && #[trigger] call_ensures(Self::gen_i64, (r,), draw) && bits == draw as int / 0x800,
    {
        let raw = self.gen_i64();
        if raw >= 0 {
            raw / 0x800
        } else {
            (raw + 1) / 0x800 - 1
        }
    }

    /// Returns a random boolean: whether the byte that `gen_u8` gives is
    /// even.
    fn bool(&mut self) -> (even: bool)
        ensures
            exists|r: &mut Self, draw: u8|
                mut_ref_current(r) == *old(self) && mut_ref_future(r) == *final(self)
                    && #[trigger] call_ensures(Self::gen_u8, (r,), draw) && even == (draw % 2 == 0),
    {
        self.gen_u8() % 2 == 0
    }

    /// Returns `true` with the probability `rate / 2^64`: a rate of zero
    /// never gives `true`, the largest rate always does, and any other rate
    /// is compared against a fresh 64-bit draw.
    fn chance(&mut self, rate: u64) -> (hit: bool)
        ensures
            rate == u64::MAX ==> hit,
            rate == 0 ==> !hit,
            rate == 0 || rate == u64::MAX ==> *final(self) == *old(self),
            0 < rate < u64::MAX ==> exists|r: &mut Self, draw: u64|
                mut_ref_current(r) == *old(self) && mut_ref_future(r) == *final(self)
                    && #[trigger] call_ensures(Self::gen_u64, (r,), draw) && hit == (draw < rate),
    {
        if rate == u64::MAX {
            true
        } else if rate == 0 {
            false
        } else {
            accepts(self.gen_u64(), rate)
        }
    }

    /// Samples a random item from a slice: `None` from an empty slice, the
    /// only item of a slice of one, and else the item at a random index, as
    /// `index` draws it below the length. Only the last takes anything from
    /// the generator.
    fn sample<'a, T>(&mut self, list: &'a [T]) -> (item: Option<&'a T>)
        ensures
            item.is_none() <==> list@.len() == 0,
            item matches Some(picked) ==> exists|i: int|
                0 <= i < list@.len() && *picked == #[trigger] list@[i],
            list@.len() < 2 ==> *final(self) == *old(self),
            list@.len() == 1 ==> (item matches Some(picked) && *picked == list@[0]),
            list@.len() >= 2 ==> exists|first: &mut Self, a: u64, last: &mut Self, b: u64|
                {
                    &&& mut_ref_current(first) == *old(self)
                    &&& #[trigger] call_ensures(Self::gen_u64, (first,), a)
                    &&& mut_ref_future(last) == *final(self)
                    &&& #[trigger] call_ensures(Self::gen_u64, (last,), b)
                    &&& spec_sample(a as int, 0, list@.len() - 1, width_64()).1 ==> b == a
                        && mut_ref_future(first) == *final(self)
                    &&& (item matches Some(picked) && *picked == list@[spec_sample(b as int, 0, list@.len() - 1, width_64()).0])
                },
    {
        let len = list.len();
        if len == 0 {
            None
        } else if len == 1 {
            Some(&list[0])
        } else {
            let index = self.index(Bound::Unbounded, Bound::Excluded(len));
            Some(&list[index])
        }
    }

    /// Samples a random item from an iterator that announces exactly
    /// `announced` items: nothing where it announces none, its first item
    /// where it announces one, and else the item at a random position, as
    /// `index` draws it below `announced`. Only the last takes anything
    /// from the generator.
    fn sample_sized<I: Iterator>(&mut self, list: I, announced: usize) -> (item: Option<I::Item>)
        requires
            list.obeys_prophetic_iter_laws(),
        ensures
            sized_pick(list.remaining(), announced, item),
            announced < 2 ==> *final(self) == *old(self),
            announced >= 2 ==> exists|first: &mut Self, a: u64, last: &mut Self, b: u64|
                {
                    &&& mut_ref_current(first) == *old(self)
                    &&& #[trigger] call_ensures(Self::gen_u64, (first,), a)
                    &&& mut_ref_future(last) == *final(self)
                    &&& #[trigger] call_ensures(Self::gen_u64, (last,), b)
                    &&& spec_sample(a as int, 0, announced - 1, width_64()).1 ==> b == a
                        && mut_ref_future(first) == *final(self)
                    &&& item == nth_item(list.remaining(), spec_sample(b as int, 0, announced - 1, width_64()).0)
                },
    {
        let ghost all = list.remaining();
        let mut list = list;
        if announced == 0 {
            None
        } else if announced == 1 {
            list.next()
        } else {
            let index = self.index(Bound::Unbounded, Bound::Excluded(announced));
            let item = nth_of(&mut list, index);
            assert(index < all.len() ==> item == Some(all[index as int]));
            item
        }
    }

    /// Samples a random item from an iterator. Where the iterator says how
    /// many items it has, the item at a random position is taken at once,
    /// as `sample_sized` takes it.
    /// Otherwise the items are gone through to the end, in runs as long as
    /// the iterator announces them, and each one replaces the pick with a
    /// chance that leaves all items equally likely: `takes_run` says
    /// whether a run is taken, `run_step` decides for a run and
    /// `replaces_pick` for a single item. An iterator with items left gives
    /// one of them, unless the iterator has announced what it did not hold.
    #[verifier::loop_isolation(false)]
    fn sample_iter<I: Iterator>(&mut self, list: I) -> (item: Option<I::Item>)
        requires
            list.obeys_prophetic_iter_laws(),
            list.decrease() is Some,
        ensures
            list.remaining().len() == 0 ==> item.is_none(),
            item matches Some(picked) ==> list.remaining().contains(picked),
            exists|hint: (usize, Option<usize>)|
                #[trigger] announces(list, hint) && (hint.1 == Some(hint.0) ==> sized_pick(
                    list.remaining(),
                    hint.0,
                    item,
                )),
            list.remaining().len() > 0 && item.is_none() ==> exists|
                rest: I,
                hint: (usize, Option<usize>),
            |
                #[trigger] announces(rest, hint) && misannounced(rest.remaining().len(), hint),
    {
        let ghost all = list.remaining();
        let (hinted, mut upper) = size_hint_of(&list);
        assert(announces(list, (hinted, upper)));
        let mut lower = hinted;
        if upper == Some(lower) {
            let item = self.sample_sized(list, lower);
            assert(item matches Some(picked) ==> all.contains(picked));
            assert(all.len() > 0 && item.is_none() ==> misannounced(all.len(), (hinted, upper)));
            return item;
        }
        let mut list = list;
        let mut result: Option<I::Item> = None;
        // The number of items gone through, as far as it can be counted.
        let mut consumed: usize = 0;
        let ghost mut passed: nat = 0;
        let ghost mut announcer: I = list;
        // Continue until the iterator is exhausted
        loop
            invariant
                list.obeys_prophetic_iter_laws(),
                list.decrease() is Some,
                passed <= all.len(),
                list.remaining() == all.skip(passed as int),
                result matches Some(picked) ==> all.contains(picked),
                announces(announcer, (lower, upper)),
                announcer.remaining() == list.remaining(),
                consumed == 0 <==> passed == 0,
                passed > 0 ==> result.is_some(),
            decreases list.decrease()->0,
        {
            let ghost before = list.remaining();
            if takes_run(lower, consumed) {
                let index = self.index(Bound::Unbounded, Bound::Excluded(lower + consumed));
                let (take, skip) = run_step(lower, index);
                match take {
                    Some(at) => {
                        result = nth_of(&mut list, at);
                        if result.is_none() {
                            assert(misannounced(announcer.remaining().len(), (lower, upper)));
                            return None;
                        }
                        assert(before[index as int] == all[passed + index]);
                        assert(all.contains(before[index as int]));
                    },
                    None => {},
                }
                if upper == Some(lower) {
                    return result;
                }
                if skip > 0 {
                    let last = nth_of(&mut list, skip - 1);
                    if last.is_none() {
                        return result;
                    }
                }
                proof {
                    assert(before.skip(lower as int) =~= all.skip(passed + lower));
                    if index < lower {
                        assert(before.skip(index + 1).skip(skip as int) =~= before.skip(
                            lower as int,
                        ));
                    }
                    passed = passed + lower as nat;
                }
                consumed += lower;
            } else {
                let elem = list.next();
                if elem.is_none() {
                    return result;
                }
                proof {
                    assert(before.drop_first() =~= all.skip(passed as int + 1));
                    assert(all.contains(before[0]));
                    passed = passed + 1;
                }
                consumed = consumed.saturating_add(1);
                // The first item is the pick without a draw.
                let index = if consumed == 1 {
                    0
                } else {
                    self.index(Bound::Unbounded, Bound::Excluded(consumed))
                };
                if replaces_pick(consumed, index) {
                    result = elem;
                }
            }
            let hint = size_hint_of(&list);
            lower = hint.0;
            upper = hint.1;
            proof {
                announcer = list;
            }
        }
    }

    /// Samples a random item from a slice for the caller to change: `None`
    /// from an empty slice, the only item of a slice of one, and else the
    /// item at a random index, as `index` draws it below the length. Only
    /// the last takes anything from the generator.
    fn sample_mut<'a, T>(&mut self, list: &'a mut [T]) -> (item: Option<&'a mut T>)
        ensures
            item.is_none() <==> old(list)@.len() == 0,
            item.is_none() ==> final(list)@ == old(list)@,
            item matches Some(picked) ==> exists|i: int|
                {
                    &&& 0 <= i < old(list)@.len()
                    &&& *picked == #[trigger] old(list)@[i]
                    &&& final(list)@ == old(list)@.update(i, *final(picked))
                },
            old(list)@.len() < 2 ==> *final(self) == *old(self),
            old(list)@.len() == 1 ==> (item matches Some(picked) && *picked == old(list)@[0]
                && final(list)@ == old(list)@.update(0, *final(picked))),
            old(list)@.len() >= 2 ==> exists|first: &mut Self, a: u64, last: &mut Self, b: u64|
                {
                    &&& mut_ref_current(first) == *old(self)
                    &&& #[trigger] call_ensures(Self::gen_u64, (first,), a)
                    &&& mut_ref_future(last) == *final(self)
                    &&& #[trigger] call_ensures(Self::gen_u64, (last,), b)
                    &&& spec_sample(a as int, 0, old(list)@.len() - 1, width_64()).1 ==> b == a
                        && mut_ref_future(first) == *final(self)
                    &&& (item matches Some(picked) && *picked == old(list)@[spec_sample(b as int, 0, old(list)@.len() - 1, width_64()).0] && final(list)@ == old(list)@.update(spec_sample(b as int, 0, old(list)@.len() - 1, width_64()).0, *final(picked)))
                },
    {
        let len = list.len();
        if len == 0 {
            None
        } else if len == 1 {
            Some(&mut list[0])
        } else {
            let index = self.index(Bound::Unbounded, Bound::Excluded(len));
            Some(&mut list[index])
        }
    }

    /// Samples up to `amount` items from a slice, each from a position of
    /// its own. A slice with fewer items gives them all and takes nothing
    /// from the generator. Of a longer slice the first `amount` items are
    /// taken, and every further item gets a slot, drawn as `index` draws it
    /// up to the position of the item: where the slot lies below `amount`,
    /// the item takes the place of the pick in that slot.
    fn sample_multiple<'a, T>(&mut self, list: &'a [T], amount: usize) -> (sampled: Vec<&'a T>)
        ensures
            sampled@.len() == vstd::math::min(amount as int, list@.len() as int),
            exists|positions: Seq<int>|
                {
                    &&& positions.len() == sampled@.len()
                    &&& positions.no_duplicates()
                    &&& forall|k: int|
                        0 <= k < positions.len() ==> 0 <= #[trigger] positions[k] < list@.len()
                            && *sampled@[k] == list@[positions[k]]
                },
            exists|slots: Seq<int>, states: Seq<Self>|
                #![trigger reservoir_positions(sampled@.len() as int, slots), states.len()]
                {
                    &&& slots.len() == list@.len() - sampled@.len()
                    &&& forall|k: int|
                        0 <= k < sampled@.len() ==> *(#[trigger] sampled@[k])
                            == list@[reservoir_positions(sampled@.len() as int, slots)[k]]
                    &&& states.len() == slots.len() + 1
                    &&& states[0] == *old(self)
                    &&& states[slots.len() as int] == *final(self)
                    &&& forall|k: int|
                        #![trigger slots[k]]
                        0 <= k < slots.len() ==> 0 <= slots[k] <= sampled@.len() + k && exists|first: &mut Self, a: u64, last: &mut Self, b: u64|
                            {
                                &&& mut_ref_current(first) == states[k]
                                &&& #[trigger] call_ensures(Self::gen_u64, (first,), a)
                                &&& mut_ref_future(last) == states[k + 1]
                                &&& #[trigger] call_ensures(Self::gen_u64, (last,), b)
                                &&& slots[k] == spec_sample(b as int, 0, sampled@.len() + k, width_64()).0
                                &&& spec_sample(a as int, 0, sampled@.len() + k, width_64()).1 ==> b == a
                                    && mut_ref_future(first) == states[k + 1]
                            }
                },
    {
        let len = list.len();
        let mut sampled: Vec<&'a T> = Vec::new();
        let ghost mut positions: Seq<int> = Seq::empty();
        let mut taken: usize = 0;
        while taken < len && taken < amount
            invariant
                len == list@.len(),
                taken <= len,
                taken <= amount,
                sampled@.len() == taken,
                positions.len() == taken,
                forall|k: int| 0 <= k < taken ==> #[trigger] positions[k] == k,
                forall|k: int| 0 <= k < taken ==> *(#[trigger] sampled@[k]) == list@[k],
            decreases len - taken,
        {
            sampled.push(&list[taken]);
            proof {
                positions = positions.push(taken as int);
            }
            taken += 1;
        }
        // Every further item takes the place of a random earlier pick,
        // or of none.
        let mut current = taken;
        let ghost mut slots: Seq<int> = Seq::empty();
        let ghost mut states: Seq<Self> = seq![*self];
        proof {
            assert(positions =~= reservoir_positions(taken as int, slots));
        }
        while current < len
            invariant
                len == list@.len(),
                taken <= current <= len,
                taken == vstd::math::min(amount as int, len as int),
                current > taken ==> taken == amount,
                sampled@.len() == taken,
                positions.len() == taken,
                positions.no_duplicates(),
                forall|k: int|
                    0 <= k < taken ==> 0 <= #[trigger] positions[k] < current && *sampled@[k]
                        == list@[positions[k]],
                slots.len() == current - taken,
                positions == reservoir_positions(taken as int, slots),
                states.len() == slots.len() + 1,
                states[0] == *old(self),
                states[slots.len() as int] == *self,
                forall|k: int|
                    #![trigger slots[k]]
                    0 <= k < slots.len() ==> 0 <= slots[k] <= taken + k && exists|first: &mut Self, a: u64, last: &mut Self, b: u64|
                        {
                            &&& mut_ref_current(first) == states[k]
                            &&& #[trigger] call_ensures(Self::gen_u64, (first,), a)
                            &&& mut_ref_future(last) == states[k + 1]
                            &&& #[trigger] call_ensures(Self::gen_u64, (last,), b)
                            &&& slots[k] == spec_sample(b as int, 0, taken + k, width_64()).0
                            &&& spec_sample(a as int, 0, taken + k, width_64()).1 ==> b == a
                                && mut_ref_future(first) == states[k + 1]
                        },
            decreases len - current,
        {
            let ghost slots_before = slots;
            let ghost states_before = states;
            let slot = self.index(Bound::Unbounded, Bound::Included(current));
            proof {
                slots = slots.push(slot as int);
                states = states.push(*self);
                assert(slots.drop_last() =~= slots_before);
                assert forall|k: int|
                    #![trigger slots[k]]
                    0 <= k < slots.len() implies 0 <= slots[k] <= taken + k && exists|first: &mut Self, a: u64, last: &mut Self, b: u64|
                        {
                            &&& mut_ref_current(first) == states[k]
                            &&& #[trigger] call_ensures(Self::gen_u64, (first,), a)
                            &&& mut_ref_future(last) == states[k + 1]
                            &&& #[trigger] call_ensures(Self::gen_u64, (last,), b)
                            &&& slots[k] == spec_sample(b as int, 0, taken + k, width_64()).0
                            &&& spec_sample(a as int, 0, taken + k, width_64()).1 ==> b == a
                                && mut_ref_future(first) == states[k + 1]
                        } by {
                    if k < slots_before.len() {
                        assert(slots[k] == slots_before[k]);
                        assert(states[k] == states_before[k]);
                        assert(states[k + 1] == states_before[k + 1]);
                    }
                }
            }
            if slot < sampled.len() {
                sampled[slot] = &list[current];
                proof {
                    positions = positions.update(slot as int, current as int);
                }
            }
            current += 1;
        }
        sampled
    }

    /// Samples up to `amount` items from an iterator, each from a position
    /// of its own. An iterator with fewer items gives them all and takes
    /// nothing from the generator. Of a longer one the first `amount` items
    /// are taken, and every further item gets a slot, drawn as `index` draws
    /// it up to the position of the item, as far as a `usize` counts:
    /// where the slot lies below `amount`, the item takes the place of the
    /// pick in that slot.
    #[verifier::loop_isolation(false)]
    fn sample_multiple_iter<I: Iterator>(&mut self, list: I, amount: usize) -> (sampled: Vec<
        I::Item,
    >)
        requires
            list.obeys_prophetic_iter_laws(),
            list.decrease() is Some,
        ensures
            sampled@.len() == vstd::math::min(amount as int, list.remaining().len() as int),
            exists|positions: Seq<int>|
                {
                    &&& positions.len() == sampled@.len()
                    &&& positions.no_duplicates()
                    &&& forall|k: int|
                        0 <= k < positions.len() ==> 0 <= #[trigger] positions[k]
                            < list.remaining().len() && sampled@[k] == list.remaining()[positions[k]]
                },
            exists|slots: Seq<int>, states: Seq<Self>|
                #![trigger reservoir_positions(sampled@.len() as int, slots), states.len()]
                {
                    &&& slots.len() == list.remaining().len() - sampled@.len()
                    &&& forall|k: int|
                        0 <= k < sampled@.len() ==> #[trigger] sampled@[k]
                            == list.remaining()[reservoir_positions(sampled@.len() as int, slots)[k]]
                    &&& states.len() == slots.len() + 1
                    &&& states[0] == *old(self)
                    &&& states[slots.len() as int] == *final(self)
                    &&& forall|k: int|
                        #![trigger slots[k]]
                        0 <= k < slots.len() ==> 0 <= slots[k] <= vstd::math::min(sampled@.len() + k, usize::MAX as int) && exists|first: &mut Self, a: u64, last: &mut Self, b: u64|
                            {
                                &&& mut_ref_current(first) == states[k]
                                &&& #[trigger] call_ensures(Self::gen_u64, (first,), a)
                                &&& mut_ref_future(last) == states[k + 1]
                                &&& #[trigger] call_ensures(Self::gen_u64, (last,), b)
                                &&& slots[k] == spec_sample(b as int, 0, vstd::math::min(sampled@.len() + k, usize::MAX as int), width_64()).0
                                &&& spec_sample(a as int, 0, vstd::math::min(sampled@.len() + k, usize::MAX as int), width_64()).1 ==> b == a
                                    && mut_ref_future(first) == states[k + 1]
                            }
                },
    {
        let ghost all = list.remaining();
        let mut list = list;
        let mut sampled: Vec<I::Item> = Vec::new();
        let ghost mut positions: Seq<int> = Seq::empty();
        let mut exhausted = false;
        while sampled.len() < amount && !exhausted
            invariant
                list.obeys_prophetic_iter_laws(),
                list.decrease() is Some,
                sampled@.len() <= amount,
                sampled@.len() <= all.len(),
                exhausted ==> list.remaining().len() == 0,
                list.remaining() == all.skip(sampled@.len() as int),
                positions.len() == sampled@.len(),
                forall|k: int| 0 <= k < sampled@.len() ==> #[trigger] positions[k] == k,
                forall|k: int| 0 <= k < sampled@.len() ==> #[trigger] sampled@[k] == all[k],
            decreases
                    (if exhausted {
                        0nat
                    } else {
                        1nat
                    }),
                    list.decrease()->0,
        {
            let ghost left = list.remaining();
            match list.next() {
                Some(elem) => {
                    assert(left.drop_first() =~= all.skip(sampled@.len() as int + 1));
                    assert(left[0] == all[sampled@.len() as int]);
                    sampled.push(elem);
                    proof {
                        positions = positions.push(sampled@.len() as int - 1);
                    }
                },
                None => {
                    exhausted = true;
                },
            }
        }
        assert(all.skip(sampled@.len() as int).len() == all.len() - sampled@.len());
        // Every further item takes the place of a random earlier pick,
        // or of none.
        let taken = sampled.len();
        // The position of the next item, as far as it can be counted.
        let mut len: usize = taken;
        let ghost mut index: nat = 0;
        let ghost mut slots: Seq<int> = Seq::empty();
        let ghost mut states: Seq<Self> = seq![*self];
        proof {
            assert(positions =~= reservoir_positions(taken as int, slots));
        }
        while !exhausted
            invariant
                list.obeys_prophetic_iter_laws(),
                list.decrease() is Some,
                taken == sampled@.len(),
                !exhausted ==> taken == amount,
                taken + index <= all.len(),
                exhausted ==> list.remaining().len() == 0,
                list.remaining() == all.skip(taken + index),
                positions.len() == taken,
                positions.no_duplicates(),
                forall|k: int|
                    0 <= k < taken ==> 0 <= #[trigger] positions[k] < taken + index && sampled@[k]
                        == all[positions[k]],
                len == vstd::math::min(taken + index, usize::MAX as int),
                slots.len() == index,
                positions == reservoir_positions(taken as int, slots),
                states.len() == slots.len() + 1,
                states[0] == *old(self),
                states[slots.len() as int] == *self,
                forall|k: int|
                    #![trigger slots[k]]
                    0 <= k < slots.len() ==> 0 <= slots[k] <= vstd::math::min(taken + k, usize::MAX as int) && exists|first: &mut Self, a: u64, last: &mut Self, b: u64|
                        {
                            &&& mut_ref_current(first) == states[k]
                            &&& #[trigger] call_ensures(Self::gen_u64, (first,), a)
                            &&& mut_ref_future(last) == states[k + 1]
                            &&& #[trigger] call_ensures(Self::gen_u64, (last,), b)
                            &&& slots[k] == spec_sample(b as int, 0, vstd::math::min(taken + k, usize::MAX as int), width_64()).0
                            &&& spec_sample(a as int, 0, vstd::math::min(taken + k, usize::MAX as int), width_64()).1 ==> b == a
                                && mut_ref_future(first) == states[k + 1]
                        },
            decreases
                    (if exhausted {
                        0nat
                    } else {
                        1nat
                    }),
                    list.decrease()->0,
        {
            let ghost left = list.remaining();
            let ghost slots_before = slots;
            let ghost states_before = states;
            match list.next() {
                Some(elem) => {
                    assert(left.drop_first() =~= all.skip(taken as int + index as int + 1));
                    assert(left[0] == all[taken + index]);
                    let slot = self.index(Bound::Unbounded, Bound::Included(len));
                    proof {
                        slots = slots.push(slot as int);
                        states = states.push(*self);
                        assert(slots.drop_last() =~= slots_before);
                        assert forall|k: int|
                            #![trigger slots[k]]
                            0 <= k < slots.len() implies 0 <= slots[k] <= vstd::math::min(taken + k, usize::MAX as int) && exists|first: &mut Self, a: u64, last: &mut Self, b: u64|
                                {
                                    &&& mut_ref_current(first) == states[k]
                                    &&& #[trigger] call_ensures(Self::gen_u64, (first,), a)
                                    &&& mut_ref_future(last) == states[k + 1]
                                    &&& #[trigger] call_ensures(Self::gen_u64, (last,), b)
                                    &&& slots[k] == spec_sample(b as int, 0, vstd::math::min(taken + k, usize::MAX as int), width_64()).0
                                    &&& spec_sample(a as int, 0, vstd::math::min(taken + k, usize::MAX as int), width_64()).1 ==> b == a
                                        && mut_ref_future(first) == states[k + 1]
                                } by {
                            if k < slots_before.len() {
                                assert(slots[k] == slots_before[k]);
                                assert(states[k] == states_before[k]);
                                assert(states[k + 1] == states_before[k + 1]);
                            }
                        }
                    }
                    if slot < sampled.len() {
                        sampled[slot] = elem;
                        proof {
                            positions = positions.update(slot as int, (taken + index) as int);
                        }
                    }
                    len = len.saturating_add(1);
                    proof {
                        index = index + 1;
                    }
                },
                None => {
                    exhausted = true;
                },
            }
        }
        assert(all.skip(taken + index).len() == all.len() - (taken + index));
        sampled
    }

    /// Samples an item by stochastic acceptance, in rounds: a round picks
    /// an item at a random index, as `index` draws it, asks `weight_sampler`
    /// for its weight and keeps the item where `chance` says so for that
    /// weight; otherwise the next round picks again. The generator goes
    /// from state to state through the draws of the rounds. An empty slice
    /// gives `None`, and a slice of one gives its item whatever its weight;
    /// neither takes anything from the generator. Of two or more items
    /// `None` is the answer only when `REDRAW_LIMIT` rounds have each
    /// refused their pick, which needs weights that are all but zero.
    fn weighted_sample<'a, T, F>(&mut self, list: &'a [T], weight_sampler: F) -> (item: Option<
        &'a T,
    >) where F: Fn((&T, usize)) -> u64
        requires
            forall|i: int|
                0 <= i < list@.len() ==> call_requires(
                    weight_sampler,
                    ((&#[trigger] list@[i], i as usize),),
                ),
        ensures
            list@.len() < 2 ==> *final(self) == *old(self),
            list@.len() == 0 ==> item.is_none(),
            list@.len() == 1 ==> item == Some(&list@[0]),
            list@.len() >= 2 ==> exists|rounds: Seq<(int, u64)>, states: Seq<Self>|
                #![trigger rounds.len(), states.len()]
                {
                    &&& rounds.len() >= 1
                    &&& match item {
                        None => rounds.len() == REDRAW_LIMIT,
                        Some(picked) => *picked == list@[rounds.last().0],
                    }
                    &&& states.len() == 2 * rounds.len() + 1
                    &&& states[0] == *old(self)
                    &&& states[2 * rounds.len() as int] == *final(self)
                    &&& forall|k: int|
                        #![trigger rounds[k]]
                        0 <= k < rounds.len() ==> round_picks::<Self, T, F>(weight_sampler, list@, rounds[k]) && (exists|
                            first: &mut Self,
                            a: u64,
                            last: &mut Self,
                            b: u64,
                        |
                            {
                                &&& mut_ref_current(first) == states[2 * k]
                                &&& #[trigger] call_ensures(Self::gen_u64, (first,), a)
                                &&& mut_ref_future(last) == states[2 * k + 1]
                                &&& #[trigger] call_ensures(Self::gen_u64, (last,), b)
                                &&& rounds[k].0 == spec_sample(b as int, 0, list@.len() - 1, width_64()).0
                                &&& spec_sample(a as int, 0, list@.len() - 1, width_64()).1 ==> b == a
                                    && mut_ref_future(first) == states[2 * k + 1]
                            }) && (rounds[k].1 == 0 ==> !(k == rounds.len() - 1 && item.is_some()) && states[2 * k + 2] == states[2 * k + 1]) && (
                        rounds[k].1 == u64::MAX ==> (k == rounds.len() - 1 && item.is_some()) && states[2 * k + 2] == states[2 * k + 1]) && (0
                            < rounds[k].1 < u64::MAX ==> exists|r: &mut Self, draw: u64|
                            {
                                &&& mut_ref_current(r) == states[2 * k + 1]
                                &&& mut_ref_future(r) == states[2 * k + 2]
                                &&& #[trigger] call_ensures(Self::gen_u64, (r,), draw)
                                &&& (k == rounds.len() - 1 && item.is_some()) == (draw < rounds[k].1)
                            })
                },
    {
        let len = list.len();
        if len == 0 {
            return None;
        }
        if len == 1 {
            return Some(&list[0]);
        }
        let mut count: u64 = 0;
        let ghost mut rounds: Seq<(int, u64)> = Seq::empty();
        let ghost mut states: Seq<Self> = seq![*self];
        while count < REDRAW_LIMIT
            invariant
                len == list@.len(),
                len > 1,
                forall|i: int|
                    0 <= i < list@.len() ==> call_requires(
                        weight_sampler,
                        ((&#[trigger] list@[i], i as usize),),
                    ),
                rounds.len() == count,
                states.len() == 2 * rounds.len() + 1,
                states[0] == *old(self),
                states[2 * rounds.len() as int] == *self,
                forall|k: int|
                    #![trigger rounds[k]]
                    0 <= k < rounds.len() ==> round_picks::<Self, T, F>(weight_sampler, list@, rounds[k]) && (exists|
                        first: &mut Self,
                        a: u64,
                        last: &mut Self,
                        b: u64,
                    |
                        {
                            &&& mut_ref_current(first) == states[2 * k]
                            &&& #[trigger] call_ensures(Self::gen_u64, (first,), a)
                            &&& mut_ref_future(last) == states[2 * k + 1]
                            &&& #[trigger] call_ensures(Self::gen_u64, (last,), b)
                            &&& rounds[k].0 == spec_sample(b as int, 0, list@.len() - 1, width_64()).0
                            &&& spec_sample(a as int, 0, list@.len() - 1, width_64()).1 ==> b == a
                                && mut_ref_future(first) == states[2 * k + 1]
                        }) && (rounds[k].1 == 0 ==> !false && states[2 * k + 2] == states[2 * k + 1]) && (
                    rounds[k].1 == u64::MAX ==> false && states[2 * k + 2] == states[2 * k + 1]) && (0
                        < rounds[k].1 < u64::MAX ==> exists|r: &mut Self, draw: u64|
                        {
                            &&& mut_ref_current(r) == states[2 * k + 1]
                            &&& mut_ref_future(r) == states[2 * k + 2]
                            &&& #[trigger] call_ensures(Self::gen_u64, (r,), draw)
                            &&& false == (draw < rounds[k].1)
                        }),
            decreases REDRAW_LIMIT - count,
        {
            let ghost rounds_before = rounds;
            let ghost states_before = states;
            let index = self.index(Bound::Unbounded, Bound::Excluded(len));
            assert(position_drawn::<Self>(len - 1, index as int));
            let ghost drawn = *self;
            let item = &list[index];
            assert(*item == list@[index as int]);
            let weight = weight_sampler((item, index));
            assert(round_picks::<Self, T, F>(weight_sampler, list@, (index as int, weight)));
            let kept = self.chance(weight);
            proof {
                rounds = rounds.push((index as int, weight));
                states = states.push(drawn).push(*self);
                assert forall|k: int| 0 <= k < rounds_before.len() implies #[trigger] rounds[k]
                    == rounds_before[k] && states[2 * k] == states_before[2 * k] && states[2 * k
                    + 1] == states_before[2 * k + 1] && states[2 * k + 2] == states_before[2 * k
                    + 2] by {}
                assert(states[2 * count] == states_before[2 * count]);
                assert(states[2 * count + 1] == drawn);
                assert(states[2 * count + 2] == *self);
            }
            if kept {
                proof {
                    assert(states.len() == 2 * rounds.len() + 1);
                    assert(rounds.last() == (index as int, weight));
                    assert forall|k: int|
                        #![trigger rounds[k]]
                        0 <= k < rounds.len() implies round_picks::<Self, T, F>(weight_sampler, list@, rounds[k]) && (exists|
                            first: &mut Self,
                            a: u64,
                            last: &mut Self,
                            b: u64,
                        |
                            {
                                &&& mut_ref_current(first) == states[2 * k]
                                &&& #[trigger] call_ensures(Self::gen_u64, (first,), a)
                                &&& mut_ref_future(last) == states[2 * k + 1]
                                &&& #[trigger] call_ensures(Self::gen_u64, (last,), b)
                                &&& rounds[k].0 == spec_sample(b as int, 0, list@.len() - 1, width_64()).0
                                &&& spec_sample(a as int, 0, list@.len() - 1, width_64()).1 ==> b == a
                                    && mut_ref_future(first) == states[2 * k + 1]
                            }) && (rounds[k].1 == 0 ==> !(k == rounds.len() - 1) && states[2 * k + 2] == states[2 * k + 1]) && (
                        rounds[k].1 == u64::MAX ==> (k == rounds.len() - 1) && states[2 * k + 2] == states[2 * k + 1]) && (0
                            < rounds[k].1 < u64::MAX ==> exists|r: &mut Self, draw: u64|
                            {
                                &&& mut_ref_current(r) == states[2 * k + 1]
                                &&& mut_ref_future(r) == states[2 * k + 2]
                                &&& #[trigger] call_ensures(Self::gen_u64, (r,), draw)
                                &&& (k == rounds.len() - 1) == (draw < rounds[k].1)
                            }) by {
                        if k < rounds_before.len() {
                            assert(rounds[k] == rounds_before[k]);
                        }
                    }
                }
                return Some(item);
            }
            count += 1;
        }
        None
    }

    /// Samples an item from an iterator by stochastic acceptance, as
    /// `weighted_sample_sized` does for the number of items that the
    /// iterator announces at least.
    fn weighted_sample_iter<I, F>(&mut self, list: I, weight_sampler: F) -> (item: Option<
        I::Item,
    >) where I: Iterator + Clone, F: Fn((&I::Item, usize)) -> u64
        requires
            forall|candidate: I::Item, index: usize, hint: (usize, Option<usize>)|
                #![trigger call_requires(weight_sampler, ((&candidate, index),)), announces(list, hint)]
                announces(list, hint) && index < hint.0 ==> call_requires(
                    weight_sampler,
                    ((&candidate, index),),
                ),
        ensures
            exists|hint: (usize, Option<usize>)|
                {
                    &&& #[trigger] announces(list, hint)
                    &&& hint.0 < 2 ==> *final(self) == *old(self)
                    &&& hint.0 == 0 ==> item.is_none()
                    &&& hint.0 == 1 && list.obeys_prophetic_iter_laws() ==> item == nth_item(
                        list.remaining(),
                        0,
                    )
                    &&& hint.0 >= 2 ==> exists|
                        rounds: Seq<(int, Option<(I::Item, u64)>)>,
                        states: Seq<Self>,
                    |
                        #![trigger rounds.len(), states.len()]
                        {
                            &&& rounds.len() >= 1
                            &&& match item {
                                None => rounds.len() == REDRAW_LIMIT,
                                Some(picked) => rounds.last().1 matches Some(found) && found.0 == picked,
                            }
                            &&& states.len() == 2 * rounds.len() + 1
                            &&& states[0] == *old(self)
                            &&& states[2 * rounds.len() as int] == *final(self)
                            &&& forall|k: int|
                                #![trigger rounds[k]]
                                0 <= k < rounds.len() ==> sized_round_picks::<Self, I::Item, F>(
                                    weight_sampler,
                                    hint.0,
                                    rounds[k],
                                ) && (exists|first: &mut Self, a: u64, last: &mut Self, b: u64|
                                    {
                                        &&& mut_ref_current(first) == states[2 * k]
                                        &&& #[trigger] call_ensures(Self::gen_u64, (first,), a)
                                        &&& mut_ref_future(last) == states[2 * k + 1]
                                        &&& #[trigger] call_ensures(Self::gen_u64, (last,), b)
                                        &&& rounds[k].0 == spec_sample(b as int, 0, hint.0 - 1, width_64()).0
                                        &&& spec_sample(a as int, 0, hint.0 - 1, width_64()).1 ==> b == a
                                            && mut_ref_future(first) == states[2 * k + 1]
                                    }) && (weight_found(rounds[k].1) == 0 ==> !(k == rounds.len() - 1 && item.is_some()) && states[2 * k + 2] == states[2 * k
                                    + 1]) && (weight_found(rounds[k].1) == u64::MAX ==> (k == rounds.len() - 1 && item.is_some()) && states[2 * k + 2]
                                    == states[2 * k + 1]) && (0 < weight_found(rounds[k].1) < u64::MAX ==> exists|
                                    r: &mut Self,
                                    draw: u64,
                                |
                                    {
                                        &&& mut_ref_current(r) == states[2 * k + 1]
                                        &&& mut_ref_future(r) == states[2 * k + 2]
                                        &&& #[trigger] call_ensures(Self::gen_u64, (r,), draw)
                                        &&& (k == rounds.len() - 1 && item.is_some()) == (draw < weight_found(rounds[k].1))
                                    })
                        }
                },
    {
        let (lower, upper) = size_hint_of(&list);
        assert(announces(list, (lower, upper)));
        self.weighted_sample_sized(list, lower, weight_sampler)
    }

    /// Samples an item by stochastic acceptance from an iterator that
    /// announces at least `lower` items: nothing where it announces none,
    /// its first item where it announces one, and neither takes anything
    /// from the generator. Else it goes in rounds: a round goes to a random
    /// position below `lower` of a fresh copy of the iterator, as `index`
    /// draws it, asks `weight_sampler` for the weight of the item there and
    /// keeps the item where `chance` says so for that weight. A round that
    /// finds no item there draws no more. The generator goes from state to
    /// state through the draws of the rounds. `None` is the answer only
    /// when `REDRAW_LIMIT` rounds have each found no item or refused the
    /// one they found.
    fn weighted_sample_sized<I, F>(&mut self, list: I, lower: usize, weight_sampler: F) -> (item:
        Option<I::Item>) where I: Iterator + Clone, F: Fn((&I::Item, usize)) -> u64
        requires
            forall|candidate: I::Item, index: usize|
                index < lower ==> call_requires(weight_sampler, ((&candidate, index),)),
        ensures
            lower < 2 ==> *final(self) == *old(self),
            lower == 0 ==> item.is_none(),
            lower == 1 && list.obeys_prophetic_iter_laws() ==> item == nth_item(
                list.remaining(),
                0,
            ),
            lower >= 2 ==> exists|
                rounds: Seq<(int, Option<(I::Item, u64)>)>,
                states: Seq<Self>,
            |
                #![trigger rounds.len(), states.len()]
                {
                    &&& rounds.len() >= 1
                    &&& match item {
                        None => rounds.len() == REDRAW_LIMIT,
                        Some(picked) => rounds.last().1 matches Some(found) && found.0 == picked,
                    }
                    &&& states.len() == 2 * rounds.len() + 1
                    &&& states[0] == *old(self)
                    &&& states[2 * rounds.len() as int] == *final(self)
                    &&& forall|k: int|
                        #![trigger rounds[k]]
                        0 <= k < rounds.len() ==> sized_round_picks::<Self, I::Item, F>(
                            weight_sampler,
                            lower,
                            rounds[k],
                        ) && (exists|first: &mut Self, a: u64, last: &mut Self, b: u64|
                            {
                                &&& mut_ref_current(first) == states[2 * k]
                                &&& #[trigger] call_ensures(Self::gen_u64, (first,), a)
                                &&& mut_ref_future(last) == states[2 * k + 1]
                                &&& #[trigger] call_ensures(Self::gen_u64, (last,), b)
                                &&& rounds[k].0 == spec_sample(b as int, 0, lower - 1, width_64()).0
                                &&& spec_sample(a as int, 0, lower - 1, width_64()).1 ==> b == a
                                    && mut_ref_future(first) == states[2 * k + 1]
                            }) && (weight_found(rounds[k].1) == 0 ==> !(k == rounds.len() - 1 && item.is_some()) && states[2 * k + 2] == states[2 * k
                            + 1]) && (weight_found(rounds[k].1) == u64::MAX ==> (k == rounds.len() - 1 && item.is_some()) && states[2 * k + 2]
                            == states[2 * k + 1]) && (0 < weight_found(rounds[k].1) < u64::MAX ==> exists|
                            r: &mut Self,
                            draw: u64,
                        |
                            {
                                &&& mut_ref_current(r) == states[2 * k + 1]
                                &&& mut_ref_future(r) == states[2 * k + 2]
                                &&& #[trigger] call_ensures(Self::gen_u64, (r,), draw)
                                &&& (k == rounds.len() - 1 && item.is_some()) == (draw < weight_found(rounds[k].1))
                            })
                },
    {
        let mut list = list;
        if lower == 0 {
            return None;
        }
        if lower == 1 {
            return list.next();
        }
        let mut count: u64 = 0;
        let ghost mut rounds: Seq<(int, Option<(I::Item, u64)>)> = Seq::empty();
        let ghost mut states: Seq<Self> = seq![*self];
        while count < REDRAW_LIMIT
            invariant
                lower > 1,
                forall|candidate: I::Item, index: usize|
                    index < lower ==> call_requires(weight_sampler, ((&candidate, index),)),
                rounds.len() == count,
                states.len() == 2 * rounds.len() + 1,
                states[0] == *old(self),
                states[2 * rounds.len() as int] == *self,
                forall|k: int|
                    #![trigger rounds[k]]
                    0 <= k < rounds.len() ==> sized_round_picks::<Self, I::Item, F>(
                        weight_sampler,
                        lower,
                        rounds[k],
                    ) && (exists|first: &mut Self, a: u64, last: &mut Self, b: u64|
                        {
                            &&& mut_ref_current(first) == states[2 * k]
                            &&& #[trigger] call_ensures(Self::gen_u64, (first,), a)
                            &&& mut_ref_future(last) == states[2 * k + 1]
                            &&& #[trigger] call_ensures(Self::gen_u64, (last,), b)
                            &&& rounds[k].0 == spec_sample(b as int, 0, lower - 1, width_64()).0
                            &&& spec_sample(a as int, 0, lower - 1, width_64()).1 ==> b == a
                                && mut_ref_future(first) == states[2 * k + 1]
                        }) && (weight_found(rounds[k].1) == 0 ==> !false && states[2 * k + 2] == states[2 * k
                        + 1]) && (weight_found(rounds[k].1) == u64::MAX ==> false && states[2 * k + 2]
                        == states[2 * k + 1]) && (0 < weight_found(rounds[k].1) < u64::MAX ==> exists|
                        r: &mut Self,
                        draw: u64,
                    |
                        {
                            &&& mut_ref_current(r) == states[2 * k + 1]
                            &&& mut_ref_future(r) == states[2 * k + 2]
                            &&& #[trigger] call_ensures(Self::gen_u64, (r,), draw)
                            &&& false == (draw < weight_found(rounds[k].1))
                        }),
            decreases REDRAW_LIMIT - count,
        {
            let ghost rounds_before = rounds;
            let ghost states_before = states;
            let mut sampler = list.clone();
            let selected = self.index(Bound::Unbounded, Bound::Excluded(lower));
            assert(position_drawn::<Self>(lower - 1, selected as int));
            let ghost drawn = *self;
            match nth_of(&mut sampler, selected) {
                Some(candidate) => {
                    let weight = weight_sampler((&candidate, selected));
                    let kept = self.chance(weight);
                    proof {
                        rounds = rounds.push((selected as int, Some((candidate, weight))));
                        states = states.push(drawn).push(*self);
                        assert forall|k: int| 0 <= k < rounds_before.len() implies #[trigger] rounds[k]
                            == rounds_before[k] && states[2 * k] == states_before[2 * k]
                            && states[2 * k + 1] == states_before[2 * k + 1] && states[2 * k + 2]
                            == states_before[2 * k + 2] by {}
                        assert(states[2 * count] == states_before[2 * count]);
                        assert(states[2 * count + 1] == drawn);
                        assert(states[2 * count + 2] == *self);
                        assert(rounds.last() == (selected as int, Some((candidate, weight))));
                        assert(sized_round_picks::<Self, I::Item, F>(
                            weight_sampler,
                            lower,
                            rounds[count as int],
                        ));
                    }
                    if kept {
                        proof {
                            assert(states.len() == 2 * rounds.len() + 1);
                            assert forall|k: int|
                                #![trigger rounds[k]]
                                0 <= k < rounds.len() implies sized_round_picks::<Self, I::Item, F>(
                                    weight_sampler,
                                    lower,
                                    rounds[k],
                                ) && (exists|first: &mut Self, a: u64, last: &mut Self, b: u64|
                                    {
                                        &&& mut_ref_current(first) == states[2 * k]
                                        &&& #[trigger] call_ensures(Self::gen_u64, (first,), a)
                                        &&& mut_ref_future(last) == states[2 * k + 1]
                                        &&& #[trigger] call_ensures(Self::gen_u64, (last,), b)
                                        &&& rounds[k].0 == spec_sample(b as int, 0, lower - 1, width_64()).0
                                        &&& spec_sample(a as int, 0, lower - 1, width_64()).1 ==> b == a
                                            && mut_ref_future(first) == states[2 * k + 1]
                                    }) && (weight_found(rounds[k].1) == 0 ==> !(k == rounds.len() - 1) && states[2 * k + 2] == states[2 * k
                                    + 1]) && (weight_found(rounds[k].1) == u64::MAX ==> (k == rounds.len() - 1) && states[2 * k + 2]
                                    == states[2 * k + 1]) && (0 < weight_found(rounds[k].1) < u64::MAX ==> exists|
                                    r: &mut Self,
                                    draw: u64,
                                |
                                    {
                                        &&& mut_ref_current(r) == states[2 * k + 1]
                                        &&& mut_ref_future(r) == states[2 * k + 2]
                                        &&& #[trigger] call_ensures(Self::gen_u64, (r,), draw)
                                        &&& (k == rounds.len() - 1) == (draw < weight_found(rounds[k].1))
                                    }) by {
                                if k < rounds_before.len() {
                                    assert(rounds[k] == rounds_before[k]);
                                }
                            }
                        }
                        return Some(candidate);
                    }
                },
                None => {
                    proof {
                        rounds = rounds.push((selected as int, None));
                        states = states.push(drawn).push(drawn);
                        assert forall|k: int| 0 <= k < rounds_before.len() implies #[trigger] rounds[k]
                            == rounds_before[k] && states[2 * k] == states_before[2 * k]
                            && states[2 * k + 1] == states_before[2 * k + 1] && states[2 * k + 2]
                            == states_before[2 * k + 2] by {}
                        assert(states[2 * count] == states_before[2 * count]);
                        assert(states[2 * count + 1] == drawn);
                        assert(states[2 * count + 2] == *self);
                        assert(sized_round_picks::<Self, I::Item, F>(
                            weight_sampler,
                            lower,
                            rounds[count as int],
                        ));
                    }
                },
            }
            count += 1;
        }
        None
    }

    /// Samples an item by stochastic acceptance, as `weighted_sample` does,
    /// for the caller to change.
    fn weighted_sample_mut<'a, T, F>(&mut self, list: &'a mut [T], weight_sampler: F) -> (item:
        Option<&'a mut T>) where F: Fn((&T, usize)) -> u64
        requires
            forall|i: int|
                0 <= i < old(list)@.len() ==> call_requires(
                    weight_sampler,
                    ((&#[trigger] old(list)@[i], i as usize),),
                ),
        ensures
            old(list)@.len() < 2 ==> *final(self) == *old(self),
            old(list)@.len() == 0 ==> item.is_none(),
            old(list)@.len() == 1 ==> (item matches Some(picked) && *picked == old(list)@[0]
                && final(list)@ == old(list)@.update(0, *final(picked))),
            item.is_none() ==> final(list)@ == old(list)@,
            old(list)@.len() >= 2 ==> exists|rounds: Seq<(int, u64)>, states: Seq<Self>|
                #![trigger rounds.len(), states.len()]
                {
                    &&& rounds.len() >= 1
                    &&& match item {
                        None => rounds.len() == REDRAW_LIMIT,
                        Some(picked) => *picked == old(list)@[rounds.last().0] && final(list)@ == old(list)@.update(rounds.last().0, *final(picked)),
                    }
                    &&& states.len() == 2 * rounds.len() + 1
                    &&& states[0] == *old(self)
                    &&& states[2 * rounds.len() as int] == *final(self)
                    &&& forall|k: int|
                        #![trigger rounds[k]]
                        0 <= k < rounds.len() ==> round_picks::<Self, T, F>(weight_sampler, old(list)@, rounds[k]) && (exists|
                            first: &mut Self,
                            a: u64,
                            last: &mut Self,
                            b: u64,
                        |
                            {
                                &&& mut_ref_current(first) == states[2 * k]
                                &&& #[trigger] call_ensures(Self::gen_u64, (first,), a)
                                &&& mut_ref_future(last) == states[2 * k + 1]
                                &&& #[trigger] call_ensures(Self::gen_u64, (last,), b)
                                &&& rounds[k].0 == spec_sample(b as int, 0, old(list)@.len() - 1, width_64()).0
                                &&& spec_sample(a as int, 0, old(list)@.len() - 1, width_64()).1 ==> b == a
                                    && mut_ref_future(first) == states[2 * k + 1]
                            }) && (rounds[k].1 == 0 ==> !(k == rounds.len() - 1 && item.is_some()) && states[2 * k + 2] == states[2 * k + 1]) && (
                        rounds[k].1 == u64::MAX ==> (k == rounds.len() - 1 && item.is_some()) && states[2 * k + 2] == states[2 * k + 1]) && (0
                            < rounds[k].1 < u64::MAX ==> exists|r: &mut Self, draw: u64|
                            {
                                &&& mut_ref_current(r) == states[2 * k + 1]
                                &&& mut_ref_future(r) == states[2 * k + 2]
                                &&& #[trigger] call_ensures(Self::gen_u64, (r,), draw)
                                &&& (k == rounds.len() - 1 && item.is_some()) == (draw < rounds[k].1)
                            })
                },
    {
        let len = list.len();
        if len == 0 {
            return None;
        }
        if len == 1 {
            return Some(&mut list[0]);
        }
        let mut count: u64 = 0;
        let ghost mut rounds: Seq<(int, u64)> = Seq::empty();
        let ghost mut states: Seq<Self> = seq![*self];
        while count < REDRAW_LIMIT
            invariant
                len == list@.len(),
                len > 1,
                list@ == old(list)@,
                forall|i: int|
                    0 <= i < list@.len() ==> call_requires(
                        weight_sampler,
                        ((&#[trigger] list@[i], i as usize),),
                    ),
                rounds.len() == count,
                states.len() == 2 * rounds.len() + 1,
                states[0] == *old(self),
                states[2 * rounds.len() as int] == *self,
                forall|k: int|
                    #![trigger rounds[k]]
                    0 <= k < rounds.len() ==> round_picks::<Self, T, F>(weight_sampler, list@, rounds[k]) && (exists|
                        first: &mut Self,
                        a: u64,
                        last: &mut Self,
                        b: u64,
                    |
                        {
                            &&& mut_ref_current(first) == states[2 * k]
                            &&& #[trigger] call_ensures(Self::gen_u64, (first,), a)
                            &&& mut_ref_future(last) == states[2 * k + 1]
                            &&& #[trigger] call_ensures(Self::gen_u64, (last,), b)
                            &&& rounds[k].0 == spec_sample(b as int, 0, list@.len() - 1, width_64()).0
                            &&& spec_sample(a as int, 0, list@.len() - 1, width_64()).1 ==> b == a
                                && mut_ref_future(first) == states[2 * k + 1]
                        }) && (rounds[k].1 == 0 ==> !false && states[2 * k + 2] == states[2 * k + 1]) && (
                    rounds[k].1 == u64::MAX ==> false && states[2 * k + 2] == states[2 * k + 1]) && (0
                        < rounds[k].1 < u64::MAX ==> exists|r: &mut Self, draw: u64|
                        {
                            &&& mut_ref_current(r) == states[2 * k + 1]
                            &&& mut_ref_future(r) == states[2 * k + 2]
                            &&& #[trigger] call_ensures(Self::gen_u64, (r,), draw)
                            &&& false == (draw < rounds[k].1)
                        }),
            decreases REDRAW_LIMIT - count,
        {
            let ghost rounds_before = rounds;
            let ghost states_before = states;
            let index = self.index(Bound::Unbounded, Bound::Excluded(len));
            assert(position_drawn::<Self>(len - 1, index as int));
            let ghost drawn = *self;
            let weight = weight_sampler((&list[index], index));
            assert(round_picks::<Self, T, F>(weight_sampler, list@, (index as int, weight)));
            let kept = self.chance(weight);
            proof {
                rounds = rounds.push((index as int, weight));
                states = states.push(drawn).push(*self);
                assert forall|k: int| 0 <= k < rounds_before.len() implies #[trigger] rounds[k]
                    == rounds_before[k] && states[2 * k] == states_before[2 * k] && states[2 * k
                    + 1] == states_before[2 * k + 1] && states[2 * k + 2] == states_before[2 * k
                    + 2] by {}
                assert(states[2 * count] == states_before[2 * count]);
                assert(states[2 * count + 1] == drawn);
                assert(states[2 * count + 2] == *self);
            }
            if kept {
                proof {
                    assert(states.len() == 2 * rounds.len() + 1);
                    assert(rounds.last() == (index as int, weight));
                    assert forall|k: int|
                        #![trigger rounds[k]]
                        0 <= k < rounds.len() implies round_picks::<Self, T, F>(weight_sampler, list@, rounds[k]) && (exists|
                            first: &mut Self,
                            a: u64,
                            last: &mut Self,
                            b: u64,
                        |
                            {
                                &&& mut_ref_current(first) == states[2 * k]
                                &&& #[trigger] call_ensures(Self::gen_u64, (first,), a)
                                &&& mut_ref_future(last) == states[2 * k + 1]
                                &&& #[trigger] call_ensures(Self::gen_u64, (last,), b)
                                &&& rounds[k].0 == spec_sample(b as int, 0, list@.len() - 1, width_64()).0
                                &&& spec_sample(a as int, 0, list@.len() - 1, width_64()).1 ==> b == a
                                    && mut_ref_future(first) == states[2 * k + 1]
                            }) && (rounds[k].1 == 0 ==> !(k == rounds.len() - 1) && states[2 * k + 2] == states[2 * k + 1]) && (
                        rounds[k].1 == u64::MAX ==> (k == rounds.len() - 1) && states[2 * k + 2] == states[2 * k + 1]) && (0
                            < rounds[k].1 < u64::MAX ==> exists|r: &mut Self, draw: u64|
                            {
                                &&& mut_ref_current(r) == states[2 * k + 1]
                                &&& mut_ref_future(r) == states[2 * k + 2]
                                &&& #[trigger] call_ensures(Self::gen_u64, (r,), draw)
                                &&& (k == rounds.len() - 1) == (draw < rounds[k].1)
                            }) by {
                        if k < rounds_before.len() {
                            assert(rounds[k] == rounds_before[k]);
                        }
                    }
                }
                return Some(&mut list[index]);
            }
            count += 1;
        }
        None
    }

    /// Shuffles a slice: a slice of fewer than two items stays as it is and
    /// takes nothing from the generator, and any other is shuffled as
    /// `shuffle_tail` shuffles all of its items, by the exchanges that the
    /// speed class of the generator asks for.
    fn shuffle<T>(&mut self, slice: &mut [T])
        ensures
            final(slice)@.to_multiset() == old(slice)@.to_multiset(),
            final(slice)@.len() == old(slice)@.len(),
            old(slice)@.len() < 2 ==> final(slice)@ == old(slice)@ && *final(self) == *old(self),
            exists|swaps: Seq<(int, int)>, states: Seq<Self>|
                #![trigger apply_swaps(old(slice)@, swaps), states.len()]
                {
                    &&& final(slice)@ == apply_swaps(old(slice)@, swaps)
                    &&& old(slice)@.len() < 2 ==> swaps.len() == 0
                    &&& old(slice)@.len() >= 2 ==> follows_strategy(
                        Self::GEN_KIND,
                        swaps,
                        0,
                        old(slice)@.len() as int,
                    )
                    &&& states.len() == swaps.len() + 1
                    &&& states[0] == *old(self)
                    &&& states[swaps.len() as int] == *final(self)
                    &&& Self::GEN_KIND == TurboKind::FAST ==> forall|k: int|
                        #![trigger swaps[k]]
                        0 <= k < swaps.len() ==> 0 <= swaps[k].1 <= swaps[k].0 && exists|first: &mut Self, a: u64, last: &mut Self, b: u64|
                            {
                                &&& mut_ref_current(first) == states[k]
                                &&& #[trigger] call_ensures(Self::gen_u64, (first,), a)
                                &&& mut_ref_future(last) == states[k + 1]
                                &&& #[trigger] call_ensures(Self::gen_u64, (last,), b)
                                &&& swaps[k].1 == spec_sample(b as int, 0, swaps[k].0, width_64()).0
                                &&& spec_sample(a as int, 0, swaps[k].0, width_64()).1 ==> b == a
                                    && mut_ref_future(first) == states[k + 1]
                            }
                    &&& Self::GEN_KIND == TurboKind::SLOW ==> exists|
                        chunks: Seq<int>,
                        lefts: Seq<int>,
                    |
                        {
                            &&& #[trigger] dealt_in_turn::<Self>(swaps, 0, chunks, lefts)
                            &&& forall|k: int|
                                #![trigger swaps[k]]
                                0 <= k < swaps.len() ==> 0 <= swaps[k].1 <= swaps[k].0 && (lefts[k] > 0 ==> states[k + 1]
                                    == states[k]) && (lefts[k] == 0 ==> exists|top: u64, first: &mut Self, a: u64, last: &mut Self, b: u64|
                                    {
                                        &&& #[trigger] largest_product(swaps[k].0, top as int, lefts[k + 1] + 1)
                                        &&& mut_ref_current(first) == states[k]
                                        &&& #[trigger] call_ensures(Self::gen_u64, (first,), a)
                                        &&& mut_ref_future(last) == states[k + 1]
                                        &&& #[trigger] call_ensures(Self::gen_u64, (last,), b)
                                        &&& spec_sample(a as int, 0, top as int, width_64()).1 ==> b == a
                                            && mut_ref_future(first) == states[k + 1]
                                        &&& peeled(
                                            spec_sample(b as int, 0, top as int, width_64()).0,
                                            swaps[k].0,
                                            lefts[k + 1],
                                            swaps[k].1,
                                            chunks[k + 1],
                                        )
                                    })
                        }
                },
    {
        let len = slice.len();
        assert(cut_at(old(slice)@.len(), len) == 0);
        self.shuffle_tail(slice, len);
    }

    /// Shuffles `amount` items into the tail of a slice and returns the
    /// index at which the shuffled part starts: the items from there on are
    /// a random pick of all items in random order. The slice is changed by
    /// a row of exchanges, and the generator goes through a row of states,
    /// one exchange from each state to the next. Fast generators swap each
    /// position of the tail, from the last one down, with a position at or
    /// below it that is drawn as `draw_u64` draws it. Slow generators swap
    /// each position from the cut up with a position that a dealer peels
    /// off its chunk, which it draws afresh, as `draw_u64` draws it, when
    /// no factor is left in it. A slice of fewer than two items, and an
    /// amount of zero, leave the slice and the generator as they were.
    fn shuffle_tail<T>(&mut self, slice: &mut [T], amount: usize) -> (cut: usize)
        ensures
            cut == if amount >= old(slice)@.len() {
                0
            } else {
                old(slice)@.len() - amount
            },
            final(slice)@.to_multiset() == old(slice)@.to_multiset(),
            final(slice)@.len() == old(slice)@.len(),
            amount == 0 || old(slice)@.len() < 2 ==> final(slice)@ == old(slice)@ && *final(self)
                == *old(self),
            exists|swaps: Seq<(int, int)>, states: Seq<Self>|
                #![trigger apply_swaps(old(slice)@, swaps), states.len()]
                {
                    &&& final(slice)@ == apply_swaps(old(slice)@, swaps)
                    &&& old(slice)@.len() < 2 ==> swaps.len() == 0
                    &&& old(slice)@.len() >= 2 ==> follows_strategy(
                        Self::GEN_KIND,
                        swaps,
                        cut_at(old(slice)@.len(), amount),
                        old(slice)@.len() as int,
                    )
                    &&& states.len() == swaps.len() + 1
                    &&& states[0] == *old(self)
                    &&& states[swaps.len() as int] == *final(self)
                    &&& Self::GEN_KIND == TurboKind::FAST ==> forall|k: int|
                        #![trigger swaps[k]]
                        0 <= k < swaps.len() ==> 0 <= swaps[k].1 <= swaps[k].0 && exists|first: &mut Self, a: u64, last: &mut Self, b: u64|
                            {
                                &&& mut_ref_current(first) == states[k]
                                &&& #[trigger] call_ensures(Self::gen_u64, (first,), a)
                                &&& mut_ref_future(last) == states[k + 1]
                                &&& #[trigger] call_ensures(Self::gen_u64, (last,), b)
                                &&& swaps[k].1 == spec_sample(b as int, 0, swaps[k].0, width_64()).0
                                &&& spec_sample(a as int, 0, swaps[k].0, width_64()).1 ==> b == a
                                    && mut_ref_future(first) == states[k + 1]
                            }
                    &&& Self::GEN_KIND == TurboKind::SLOW ==> exists|
                        chunks: Seq<int>,
                        lefts: Seq<int>,
                    |
                        {
                            &&& #[trigger] dealt_in_turn::<Self>(
                                swaps,
                                cut_at(old(slice)@.len(), amount),
                                chunks,
                                lefts,
                            )
                            &&& forall|k: int|
                                #![trigger swaps[k]]
                                0 <= k < swaps.len() ==> 0 <= swaps[k].1 <= swaps[k].0 && (lefts[k] > 0 ==> states[k + 1]
                                    == states[k]) && (lefts[k] == 0 ==> exists|top: u64, first: &mut Self, a: u64, last: &mut Self, b: u64|
                                    {
                                        &&& #[trigger] largest_product(swaps[k].0, top as int, lefts[k + 1] + 1)
                                        &&& mut_ref_current(first) == states[k]
                                        &&& #[trigger] call_ensures(Self::gen_u64, (first,), a)
                                        &&& mut_ref_future(last) == states[k + 1]
                                        &&& #[trigger] call_ensures(Self::gen_u64, (last,), b)
                                        &&& spec_sample(a as int, 0, top as int, width_64()).1 ==> b == a
                                            && mut_ref_future(first) == states[k + 1]
                                        &&& peeled(
                                            spec_sample(b as int, 0, top as int, width_64()).0,
                                            swaps[k].0,
                                            lefts[k + 1],
                                            swaps[k].1,
                                            chunks[k + 1],
                                        )
                                    })
                        }
                },
    {
        let len = slice.len();
        let n = if amount >= len {
            0
        } else {
            len - amount
        };
        assert(n as int == cut_at(old(slice)@.len(), amount));
        let ghost mut swaps: Seq<(int, int)> = Seq::empty();
        let ghost mut states: Seq<Self> = seq![*self];
        if len < 2 {
            proof {
                let start: int = if n == 0 {
                    1
                } else {
                    0
                };
                assert(dealt_in_turn::<Self>(swaps, n as int, seq![0int], seq![start]));
                assert(slice@ == apply_swaps(old(slice)@, swaps));
                assert(states.len() == swaps.len() + 1);
            }
            return n;
        }
        match Self::GEN_KIND {
            TurboKind::FAST => {
                let first = if n < 1 {
                    1
                } else {
                    n
                };
                let mut index = len;
                while index > first
                    invariant
                        first <= index <= len,
                        first >= 1,
                        len == slice@.len(),
                        slice@.to_multiset() == old(slice)@.to_multiset(),
                        first == len ==> slice@ == old(slice)@ && *self == *old(self),
                        slice@ == apply_swaps(old(slice)@, swaps),
                        swaps.len() == len - index,
                        forall|k: int|
                            0 <= k < swaps.len() ==> (#[trigger] swaps[k]).0 == len - 1 - k && 0
                                <= swaps[k].1 <= swaps[k].0,
                        states.len() == swaps.len() + 1,
                        states[0] == *old(self),
                        states[swaps.len() as int] == *self,
                        forall|k: int|
                            #![trigger swaps[k]]
                            0 <= k < swaps.len() ==> 0 <= swaps[k].1 <= swaps[k].0 && exists|first: &mut Self, a: u64, last: &mut Self, b: u64|
                                {
                                    &&& mut_ref_current(first) == states[k]
                                    &&& #[trigger] call_ensures(Self::gen_u64, (first,), a)
                                    &&& mut_ref_future(last) == states[k + 1]
                                    &&& #[trigger] call_ensures(Self::gen_u64, (last,), b)
                                    &&& swaps[k].1 == spec_sample(b as int, 0, swaps[k].0, width_64()).0
                                    &&& spec_sample(a as int, 0, swaps[k].0, width_64()).1 ==> b == a
                                        && mut_ref_future(first) == states[k + 1]
                                },
                    decreases index,
                {
                    let ghost swaps_before = swaps;
                    let ghost states_before = states;
                    index -= 1;
                    let other = draw_u64(self, 0, index as u64) as usize;
                    proof {
                        lemma_swap_keeps_items(slice@, index as int, other as int);
                        assert(swaps.push((index as int, other as int)).drop_last() =~= swaps);
                        swaps = swaps.push((index as int, other as int));
                        states = states.push(*self);
                        assert forall|k: int|
                            #![trigger swaps[k]]
                            0 <= k < swaps.len() implies 0 <= swaps[k].1 <= swaps[k].0 && exists|first: &mut Self, a: u64, last: &mut Self, b: u64|
                                {
                                    &&& mut_ref_current(first) == states[k]
                                    &&& #[trigger] call_ensures(Self::gen_u64, (first,), a)
                                    &&& mut_ref_future(last) == states[k + 1]
                                    &&& #[trigger] call_ensures(Self::gen_u64, (last,), b)
                                    &&& swaps[k].1 == spec_sample(b as int, 0, swaps[k].0, width_64()).0
                                    &&& spec_sample(a as int, 0, swaps[k].0, width_64()).1 ==> b == a
                                        && mut_ref_future(first) == states[k + 1]
                                } by {
                            if k < swaps_before.len() {
                                assert(swaps[k] == swaps_before[k]);
                                assert(states[k] == states_before[k]);
                                assert(states[k + 1] == states_before[k + 1]);
                            }
                        }
                    }
                    slice.swap(index, other);
                }
                assert(follows_strategy(Self::GEN_KIND, swaps, n as int, len as int));
            },
            TurboKind::SLOW => {
                let mut dealer = IncreasingUniformIter::new(n as u64, len);
                let ghost mut chunks: Seq<int> = seq![0int];
                let ghost mut lefts: Seq<int> = seq![dealer.chunk_remaining() as int];
                loop
                    invariant
                        dealer.limit() == len,
                        dealer.position() >= n,
                        len == slice@.len(),
                        slice@.to_multiset() == old(slice)@.to_multiset(),
                        n == len ==> slice@ == old(slice)@ && *self == *old(self),
                        slice@ == apply_swaps(old(slice)@, swaps),
                        dealer.position() == n + swaps.len(),
                        forall|k: int|
                            0 <= k < swaps.len() ==> (#[trigger] swaps[k]).0 == n + k && 0
                                <= swaps[k].1 <= swaps[k].0,
                        chunks.last() == dealer.chunk(),
                        lefts.last() == dealer.chunk_remaining(),
                        dealt_in_turn::<Self>(swaps, n as int, chunks, lefts),
                        states.len() == swaps.len() + 1,
                        states[0] == *old(self),
                        states[swaps.len() as int] == *self,
                        forall|k: int|
                            #![trigger swaps[k]]
                            0 <= k < swaps.len() ==> 0 <= swaps[k].1 <= swaps[k].0 && (lefts[k] > 0 ==> states[k + 1]
                                == states[k]) && (lefts[k] == 0 ==> exists|top: u64, first: &mut Self, a: u64, last: &mut Self, b: u64|
                                {
                                    &&& #[trigger] largest_product(swaps[k].0, top as int, lefts[k + 1] + 1)
                                    &&& mut_ref_current(first) == states[k]
                                    &&& #[trigger] call_ensures(Self::gen_u64, (first,), a)
                                    &&& mut_ref_future(last) == states[k + 1]
                                    &&& #[trigger] call_ensures(Self::gen_u64, (last,), b)
                                    &&& spec_sample(a as int, 0, top as int, width_64()).1 ==> b == a
                                        && mut_ref_future(first) == states[k + 1]
                                    &&& peeled(
                                        spec_sample(b as int, 0, top as int, width_64()).0,
                                        swaps[k].0,
                                        lefts[k + 1],
                                        swaps[k].1,
                                        chunks[k + 1],
                                    )
                                }),
                    ensures
                        swaps.len() == len - n,
                    decreases dealer.limit() - dealer.position(),
                {
                    let ghost before = swaps;
                    let ghost chunks_before = chunks;
                    let ghost lefts_before = lefts;
                    let ghost states_before = states;
                    match dealer.next(self) {
                        Some((current_index, swap_index)) => {
                            proof {
                                lemma_swap_keeps_items(
                                    slice@,
                                    current_index as int,
                                    swap_index as int,
                                );
                                assert(swaps.push(
                                    (current_index as int, swap_index as int),
                                ).drop_last() =~= swaps);
                                swaps = swaps.push((current_index as int, swap_index as int));
                                chunks = chunks.push(dealer.chunk() as int);
                                lefts = lefts.push(dealer.chunk_remaining() as int);
                                states = states.push(*self);
                                assert forall|k: int| 0 <= k < swaps.len() implies dealt_step::<
                                    Self,
                                >(
                                    chunks[k],
                                    lefts[k],
                                    (#[trigger] swaps[k]).0,
                                    swaps[k].1,
                                    chunks[k + 1],
                                    lefts[k + 1],
                                ) by {
                                    if k < before.len() {
                                        assert(swaps[k] == before[k]);
                                        assert(chunks[k] == chunks_before[k]);
                                        assert(chunks[k + 1] == chunks_before[k + 1]);
                                        assert(lefts[k] == lefts_before[k]);
                                        assert(lefts[k + 1] == lefts_before[k + 1]);
                                    }
                                }
                                assert forall|k: int|
                                    #![trigger swaps[k]]
                                    0 <= k < swaps.len() implies 0 <= swaps[k].1 <= swaps[k].0 && (lefts[k] > 0 ==> states[k + 1]
                                        == states[k]) && (lefts[k] == 0 ==> exists|top: u64, first: &mut Self, a: u64, last: &mut Self, b: u64|
                                        {
                                            &&& #[trigger] largest_product(swaps[k].0, top as int, lefts[k + 1] + 1)
                                            &&& mut_ref_current(first) == states[k]
                                            &&& #[trigger] call_ensures(Self::gen_u64, (first,), a)
                                            &&& mut_ref_future(last) == states[k + 1]
                                            &&& #[trigger] call_ensures(Self::gen_u64, (last,), b)
                                            &&& spec_sample(a as int, 0, top as int, width_64()).1 ==> b == a
                                                && mut_ref_future(first) == states[k + 1]
                                            &&& peeled(
                                                spec_sample(b as int, 0, top as int, width_64()).0,
                                                swaps[k].0,
                                                lefts[k + 1],
                                                swaps[k].1,
                                                chunks[k + 1],
                                            )
                                        }) by {
                                    if k < before.len() {
                                        assert(swaps[k] == before[k]);
                                        assert(chunks[k] == chunks_before[k]);
                                        assert(chunks[k + 1] == chunks_before[k + 1]);
                                        assert(lefts[k] == lefts_before[k]);
                                        assert(lefts[k + 1] == lefts_before[k + 1]);
                                        assert(states[k] == states_before[k]);
                                        assert(states[k + 1] == states_before[k + 1]);
                                    } else {
                                        assert(swaps[k] == (current_index as int, swap_index as int));
                                        assert(lefts[k] == lefts_before.last());
                                        assert(lefts[k + 1] == dealer.chunk_remaining());
                                        assert(chunks[k + 1] == dealer.chunk());
                                        assert(states[k] == states_before[k]);
                                        assert(states[k + 1] == *self);
                                    }
                                }
                            }
                            slice.swap(current_index, swap_index);
                        },
                        None => {
                            break ;
                        },
                    }
                }
                assert(follows_strategy(Self::GEN_KIND, swaps, n as int, len as int));
                assert(dealt_in_turn::<Self>(swaps, n as int, chunks, lefts));
            },
        }
        n
    }

    /// Partially shuffles a slice by `amount` and returns the shuffled part
    /// and the rest, as `shuffle_tail` shuffles it. A slice of fewer than
    /// two items, and an amount of zero, leave the slice and the generator
    /// as they were.
    fn partial_shuffle<'a, T>(&mut self, slice: &'a mut [T], amount: usize) -> (parts: (
        &'a mut [T],
        &'a mut [T],
    ))
        ensures
            parts.1@.len() == if amount >= old(slice)@.len() {
                0
            } else {
                old(slice)@.len() - amount
            },
            parts.0@.len() + parts.1@.len() == old(slice)@.len(),
            (parts.1@ + parts.0@).to_multiset() == old(slice)@.to_multiset(),
            final(slice)@ == final(parts.1)@ + final(parts.0)@,
            amount == 0 || old(slice)@.len() < 2 ==> parts.1@ + parts.0@ == old(slice)@
                && *final(self) == *old(self),
            exists|swaps: Seq<(int, int)>, states: Seq<Self>|
                #![trigger apply_swaps(old(slice)@, swaps), states.len()]
                {
                    &&& parts.1@ + parts.0@ == apply_swaps(old(slice)@, swaps)
                    &&& old(slice)@.len() < 2 ==> swaps.len() == 0
                    &&& old(slice)@.len() >= 2 ==> follows_strategy(
                        Self::GEN_KIND,
                        swaps,
                        cut_at(old(slice)@.len(), amount),
                        old(slice)@.len() as int,
                    )
                    &&& states.len() == swaps.len() + 1
                    &&& states[0] == *old(self)
                    &&& states[swaps.len() as int] == *final(self)
                    &&& Self::GEN_KIND == TurboKind::FAST ==> forall|k: int|
                        #![trigger swaps[k]]
                        0 <= k < swaps.len() ==> 0 <= swaps[k].1 <= swaps[k].0 && exists|first: &mut Self, a: u64, last: &mut Self, b: u64|
                            {
                                &&& mut_ref_current(first) == states[k]
                                &&& #[trigger] call_ensures(Self::gen_u64, (first,), a)
                                &&& mut_ref_future(last) == states[k + 1]
                                &&& #[trigger] call_ensures(Self::gen_u64, (last,), b)
                                &&& swaps[k].1 == spec_sample(b as int, 0, swaps[k].0, width_64()).0
                                &&& spec_sample(a as int, 0, swaps[k].0, width_64()).1 ==> b == a
                                    && mut_ref_future(first) == states[k + 1]
                            }
                    &&& Self::GEN_KIND == TurboKind::SLOW ==> exists|
                        chunks: Seq<int>,
                        lefts: Seq<int>,
                    |
                        {
                            &&& #[trigger] dealt_in_turn::<Self>(
                                swaps,
                                cut_at(old(slice)@.len(), amount),
                                chunks,
                                lefts,
                            )
                            &&& forall|k: int|
                                #![trigger swaps[k]]
                                0 <= k < swaps.len() ==> 0 <= swaps[k].1 <= swaps[k].0 && (lefts[k] > 0 ==> states[k + 1]
                                    == states[k]) && (lefts[k] == 0 ==> exists|top: u64, first: &mut Self, a: u64, last: &mut Self, b: u64|
                                    {
                                        &&& #[trigger] largest_product(swaps[k].0, top as int, lefts[k + 1] + 1)
                                        &&& mut_ref_current(first) == states[k]
                                        &&& #[trigger] call_ensures(Self::gen_u64, (first,), a)
                                        &&& mut_ref_future(last) == states[k + 1]
                                        &&& #[trigger] call_ensures(Self::gen_u64, (last,), b)
                                        &&& spec_sample(a as int, 0, top as int, width_64()).1 ==> b == a
                                            && mut_ref_future(first) == states[k + 1]
                                        &&& peeled(
                                            spec_sample(b as int, 0, top as int, width_64()).0,
                                            swaps[k].0,
                                            lefts[k + 1],
                                            swaps[k].1,
                                            chunks[k + 1],
                                        )
                                    })
                        }
                },
    {
        let cut = self.shuffle_tail(slice, amount);
        let ghost mixed = slice@;
        let (rest, shuffled) = slice.split_at_mut(cut);
        assert(rest@ + shuffled@ =~= mixed);
        assert(rest@ + shuffled@ == mixed);
        (shuffled, rest)
    }

    /// Returns a random letter, upper or lower case: the one at a random
    /// index of `ALPHABETIC`, as `index` draws it.
    fn alphabetic(&mut self) -> (letter: char)
        ensures
            exists|i: int| 0 <= i < 52 && letter as int == ALPHABETIC@[i] as int,
            exists|first: &mut Self, a: u64, last: &mut Self, b: u64|
                {
                    &&& mut_ref_current(first) == *old(self)
                    &&& #[trigger] call_ensures(Self::gen_u64, (first,), a)
                    &&& mut_ref_future(last) == *final(self)
                    &&& #[trigger] call_ensures(Self::gen_u64, (last,), b)
                    &&& spec_sample(a as int, 0, 51, width_64()).1 ==> b == a
                        && mut_ref_future(first) == *final(self)
                    &&& letter as int == ALPHABETIC@[spec_sample(b as int, 0, 51, width_64()).0] as int
                },
    {
        let index = self.index(Bound::Unbounded, Bound::Excluded(52));
        ALPHABETIC[index] as char
    }

    /// Returns a random digit or letter, upper or lower case: the one at a
    /// random index of `ALPHANUMERIC`, as `index` draws it.
    fn alphanumeric(&mut self) -> (letter: char)
        ensures
            exists|i: int| 0 <= i < 62 && letter as int == ALPHANUMERIC@[i] as int,
            exists|first: &mut Self, a: u64, last: &mut Self, b: u64|
                {
                    &&& mut_ref_current(first) == *old(self)
                    &&& #[trigger] call_ensures(Self::gen_u64, (first,), a)
                    &&& mut_ref_future(last) == *final(self)
                    &&& #[trigger] call_ensures(Self::gen_u64, (last,), b)
                    &&& spec_sample(a as int, 0, 61, width_64()).1 ==> b == a
                        && mut_ref_future(first) == *final(self)
                    &&& letter as int == ALPHANUMERIC@[spec_sample(b as int, 0, 61, width_64()).0] as int
                },
    {
        let index = self.index(Bound::Unbounded, Bound::Excluded(62));
        ALPHANUMERIC[index] as char
    }

    /// Returns a random lower case letter: `a` moved on by a random index
    /// below 26, as `index` draws it.
    fn lowercase(&mut self) -> (letter: char)
        ensures
            'a' as int <= letter as int <= 'z' as int,
            exists|first: &mut Self, a: u64, last: &mut Self, b: u64|
                {
                    &&& mut_ref_current(first) == *old(self)
                    &&& #[trigger] call_ensures(Self::gen_u64, (first,), a)
                    &&& mut_ref_future(last) == *final(self)
                    &&& #[trigger] call_ensures(Self::gen_u64, (last,), b)
                    &&& spec_sample(a as int, 0, 25, width_64()).1 ==> b == a
                        && mut_ref_future(first) == *final(self)
                    &&& letter as int == 97 + spec_sample(b as int, 0, 25, width_64()).0
                },
    {
        let index = self.index(Bound::Unbounded, Bound::Excluded(26));
        (97 + index as u8) as char
    }

    /// Returns a random upper case letter: `A` moved on by a random index
    /// below 26, as `index` draws it.
    fn uppercase(&mut self) -> (letter: char)
        ensures
            'A' as int <= letter as int <= 'Z' as int,
            exists|first: &mut Self, a: u64, last: &mut Self, b: u64|
                {
                    &&& mut_ref_current(first) == *old(self)
                    &&& #[trigger] call_ensures(Self::gen_u64, (first,), a)
                    &&& mut_ref_future(last) == *final(self)
                    &&& #[trigger] call_ensures(Self::gen_u64, (last,), b)
                    &&& spec_sample(a as int, 0, 25, width_64()).1 ==> b == a
                        && mut_ref_future(first) == *final(self)
                    &&& letter as int == 65 + spec_sample(b as int, 0, 25, width_64()).0
                },
    {
        let index = self.index(Bound::Unbounded, Bound::Excluded(26));
        (65 + index as u8) as char
    }

    /// Returns a random digit of the given radix, `0` to `9`, then `a` to
    /// `z`: the digit of a random number below the radix, as `u8` draws it.
    fn digit(&mut self, radix: u8) -> (digit: char)
        requires
            1 <= radix <= 36,
        ensures
            exists|num: int| 0 <= num < radix && digit as int == spec_digit(num),
            exists|first: &mut Self, a: u8, last: &mut Self, b: u8|
                {
                    &&& mut_ref_current(first) == *old(self)
                    &&& #[trigger] call_ensures(Self::gen_u8, (first,), a)
                    &&& mut_ref_future(last) == *final(self)
                    &&& #[trigger] call_ensures(Self::gen_u8, (last,), b)
                    &&& spec_sample(a as int, 0, radix - 1, width_8()).1 ==> b == a
                        && mut_ref_future(first) == *final(self)
                    &&& digit as int == spec_digit(spec_sample(b as int, 0, radix - 1, width_8()).0)
                },
    {
        let num = self.u8(Bound::Unbounded, Bound::Excluded(radix));
        digit_char(num)
    }

    /// Returns a random character from the range between the two bounds.
    /// The surrogate code points, which are no characters, are squeezed out
    /// of the range before a value is drawn from it, as `u32` draws it, and
    /// put back after.
    fn char(&mut self, lower: Bound<char>, upper: Bound<char>) -> (character: char)
        requires
            can_start(lower),
            can_end(upper),
            spec_first_char(lower) <= spec_last_char(upper),
        ensures
            spec_first_char(lower) <= character as int <= spec_last_char(upper),
            is_scalar(character as int),
            exists|first: &mut Self, a: u32, last: &mut Self, b: u32|
                {
                    &&& mut_ref_current(first) == *old(self)
                    &&& #[trigger] call_ensures(Self::gen_u32, (first,), a)
                    &&& mut_ref_future(last) == *final(self)
                    &&& #[trigger] call_ensures(Self::gen_u32, (last,), b)
                    &&& spec_sample(a as int, spec_first_char(lower), spec_last_char(upper) - spec_gap(spec_first_char(lower), spec_last_char(upper)), width_32()).1 ==> b == a
                        && mut_ref_future(first) == *final(self)
                    &&& character as int == spec_expand(spec_sample(b as int, spec_first_char(lower), spec_last_char(upper) - spec_gap(spec_first_char(lower), spec_last_char(upper)), width_32()).0, spec_gap(spec_first_char(lower), spec_last_char(upper)))
                },
    {
        let lower = first_char(lower);
        let upper = last_char(upper);
        let lower_scalar = scalar_of(lower);
        let upper_scalar = scalar_of(upper);
        let gap = surrogate_gap(lower, upper);
        let range = upper_scalar - gap;
        let val = self.u32(Bound::Included(lower_scalar), Bound::Included(range));
        char_at(val, lower, upper)
    }
}

impl<T: GenCore> TurboRand for T {

}

impl<T: TurboCore + ?Sized> TurboCore for Box<T> {
    /// Fills the buffer as the generator in the box does.
    fn fill_bytes(&mut self, buffer: &mut [u8])
        ensures
            exists|r: &mut T, b: &mut [u8]|
                &*r == &**old(self) && &*final(r) == &**final(self) && b@ == old(buffer)@
                    && final(b)@ == final(buffer)@
                    && #[trigger] call_ensures(T::fill_bytes, (r, b), ()),
    {
        let inner: &mut T = &mut **self;
        inner.fill_bytes(buffer);
    }
}

impl<T: GenCore> GenCore for Box<T> {
    const GEN_KIND: TurboKind = T::GEN_KIND;

    fn gen<const SIZE: usize>(&mut self) -> [u8; SIZE] {
        (**self).gen()
    }
}

impl<'a, T: TurboCore + ?Sized> TurboCore for &'a mut T {
    /// Fills the buffer as the generator behind the reference does.
    fn fill_bytes(&mut self, buffer: &mut [u8])
        ensures
            exists|r: &mut T, b: &mut [u8]|
                &*r == &**old(self) && &*final(r) == &**final(self) && b@ == old(buffer)@
                    && final(b)@ == final(buffer)@
                    && #[trigger] call_ensures(T::fill_bytes, (r, b), ()),
    {
        (**self).fill_bytes(buffer);
    }
}

impl<'a, T: GenCore> GenCore for &'a mut T {
    const GEN_KIND: TurboKind = T::GEN_KIND;

    fn gen<const SIZE: usize>(&mut self) -> [u8; SIZE] {
        (**self).gen()
    }
}

impl<T: SecureCore + ?Sized> SecureCore for Box<T> {

}

/// A boxed generator, and one behind a mutable reference, is of the speed
/// class of the generator itself.
pub proof fn lemma_kind_carries_over<T: GenCore>()
    ensures
        <Box<T> as GenCore>::GEN_KIND == <T as GenCore>::GEN_KIND,
        <&mut T as GenCore>::GEN_KIND == <T as GenCore>::GEN_KIND,
{
}

} // verus!
