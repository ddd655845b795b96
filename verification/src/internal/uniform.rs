//! Swap positions for a shuffle, several from each random draw.
use crate::lemire::{spec_sample, width_64};
use crate::traits::{draw_u64, position_drawn, GenCore};
use vstd::arithmetic::power2::{lemma2_to64, lemma_pow2_strictly_increases, lemma_pow2_unfold, pow2};
use vstd::prelude::*;

verus! {

/// The product of `count` numbers in a row, starting at `min`.
pub open spec fn rising(min: int, count: nat) -> int
    decreases count,
{
    if count == 0 {
        1
    } else {
        rising(min, (count - 1) as nat) * (min + count - 1)
    }
}

/// A product of numbers in a row can be split off at its first factor.
pub proof fn lemma_rising_front(min: int, count: nat)
    requires
        count > 0,
    ensures
        rising(min, count) == min * rising(min + 1, (count - 1) as nat),
    decreases count,
{
    if count == 1 {
        assert(rising(min, 1) == rising(min, 0) * min);
        assert(rising(min + 1, 0) == 1);
    } else {
        lemma_rising_front(min, (count - 1) as nat);
        let shorter = rising(min + 1, (count - 2) as nat);
        assert(rising(min + 1, (count - 1) as nat) == shorter * (min + count - 1));
        assert((min * shorter) * (min + count - 1) == min * (shorter * (min + count - 1)))
            by (nonlinear_arith);
    }
}

/// A product of `count` numbers from two on is at least two to the power
/// of `count`.
pub proof fn lemma_rising_grows(min: int, count: nat)
    requires
        min >= 2,
    ensures
        rising(min, count) >= pow2(count),
        rising(min, count) >= 1,
    decreases count,
{
    if count == 0 {
        lemma2_to64();
    } else {
        lemma_rising_grows(min, (count - 1) as nat);
        lemma_pow2_unfold(count);
        let shorter = rising(min, (count - 1) as nat);
        assert(shorter * (min + count - 1) >= shorter * 2) by (nonlinear_arith)
            requires
                shorter >= 1,
                min + count - 1 >= 2,
        ;
    }
}

/// The product of the numbers from 2 to 20 fits in 64 bits, and the
/// product of the numbers from 2 to 21 does not.
proof fn lemma_factorial_of_twenty()
    ensures
        rising(2, 19) == 2_432_902_008_176_640_000,
        rising(2, 20) > u64::MAX,
{
    assert(rising(2, 0) == 1);
    assert(rising(2, 1) == rising(2, 0) * 2);
    assert(rising(2, 2) == rising(2, 1) * 3);
    assert(rising(2, 3) == rising(2, 2) * 4);
    assert(rising(2, 4) == rising(2, 3) * 5);
    assert(rising(2, 5) == rising(2, 4) * 6);
    assert(rising(2, 6) == rising(2, 5) * 7);
    assert(rising(2, 7) == rising(2, 6) * 8);
    assert(rising(2, 8) == rising(2, 7) * 9);
    assert(rising(2, 9) == rising(2, 8) * 10);
    assert(rising(2, 10) == rising(2, 9) * 11);
    assert(rising(2, 11) == rising(2, 10) * 12);
    assert(rising(2, 12) == rising(2, 11) * 13);
    assert(rising(2, 13) == rising(2, 12) * 14);
    assert(rising(2, 14) == rising(2, 13) * 15);
    assert(rising(2, 15) == rising(2, 14) * 16);
    assert(rising(2, 16) == rising(2, 15) * 17);
    assert(rising(2, 17) == rising(2, 16) * 18);
    assert(rising(2, 18) == rising(2, 17) * 19);
    assert(rising(2, 19) == rising(2, 18) * 20);
    assert(rising(2, 20) == rising(2, 19) * 21);
}

/// Returns the largest product `min * (min + 1) * ...` of numbers in a row
/// that fits in 64 bits, and the number of its factors.
pub fn calculate_bound_u64(min: u64) -> (bound: (u64, u8))
    requires
        1 < min,
    ensures
        bound.1 >= 1,
        bound.0 == rising(min as int, bound.1 as nat),
        rising(min as int, (bound.1 + 1) as nat) > u64::MAX,
{
    proof {
        assert(rising(min as int, 1) == rising(min as int, 0) * min);
        assert(rising(min as int, 2) == rising(min as int, 1) * (min + 1));
    }
    if min == u64::MAX {
        assert(min * (min + 1) > u64::MAX) by (nonlinear_arith)
            requires
                min == u64::MAX,
        ;
        return (min, 1);
    }
    if min == 2 {
        // Small shuffles start here every time: the product of the
        // numbers from 2 to 20 is written out to save them the loop.
        proof {
            lemma_factorial_of_twenty();
        }
        return (2_432_902_008_176_640_000, 19);
    }
    let mut product = min;
    let mut current = min + 1;
    let ghost mut count: nat = 1;
    loop
        invariant
            1 < min,
            count >= 1,
            current == min + count,
            product == rising(min as int, count),
            product >= 2,
            count < 64,
        decreases u64::MAX - current,
    {
        proof {
            lemma_rising_grows(min as int, count);
            lemma_rising_grows(min as int, count + 1);
            lemma2_to64();
            assert(rising(min as int, count + 1) == product * current);
        }
        match product.checked_mul(current) {
            Some(larger) => {
                proof {
                    if count + 1 >= 64 {
                        if count + 1 > 64 {
                            lemma_pow2_strictly_increases(64, count + 1);
                        }
                    }
                    assert(product * current >= 2 * current) by (nonlinear_arith)
                        requires
                            product >= 2,
                            current >= 0,
                    ;
                    assert(larger >= 2);
                    count = count + 1;
                }
                product = larger;
                current += 1;
            },
            None => {
                return (product, (current - min) as u8);
            },
        }
    }
}

/// Whether `top + 1` is the largest product of numbers in a row from
/// `after + 1` on that fits in 64 bits, and `count` the number of its
/// factors.
pub open spec fn largest_product(after: int, top: int, count: int) -> bool {
    &&& count >= 1
    &&& top + 1 == rising(after + 1, count as nat)
    &&& top < u64::MAX
    &&& rising(after + 1, (count + 1) as nat) > u64::MAX
}

/// Whether a chunk gives up `position` for the factor `after + 1` and
/// leaves `rest`, where `left` factors stay in it: the chunk itself on its
/// last factor, and else its remainder by the factor, with the quotient
/// left.
pub open spec fn peeled(chunk: int, after: int, left: int, position: int, rest: int) -> bool {
    if left == 0 {
        position == chunk && rest == chunk
    } else {
        position == chunk % (after + 1) && rest == chunk / (after + 1)
    }
}

/// Whether a dealer that holds `chunk` with `left` factors deals `position`
/// for the index `after` and holds `next_chunk` with `next_left` factors
/// afterwards. With factors left the position is peeled off the chunk.
/// With none, a fresh chunk is drawn first, below the largest product of
/// numbers in a row from `after + 1` on that fits in 64 bits.
pub open spec fn dealt_step<G: GenCore>(
    chunk: int,
    left: int,
    after: int,
    position: int,
    next_chunk: int,
    next_left: int,
) -> bool {
    if left > 0 {
        next_left == left - 1 && peeled(chunk, after, next_left, position, next_chunk)
    } else {
        exists|top: int, count: int, fresh: int|
            {
                &&& #[trigger] largest_product(after, top, count)
                &&& #[trigger] position_drawn::<G>(top, fresh)
                &&& next_left == count - 1
                &&& peeled(fresh, after, next_left, position, next_chunk)
            }
    }
}

/// Whether a dealer that starts at the index `start` deals the positions
/// of `swaps` one after the other, holding `chunks[k]` with `lefts[k]`
/// factors before it deals the position of `swaps[k]`.
pub open spec fn dealt_in_turn<G: GenCore>(
    swaps: Seq<(int, int)>,
    start: int,
    chunks: Seq<int>,
    lefts: Seq<int>,
) -> bool {
    &&& chunks.len() == swaps.len() + 1
    &&& lefts.len() == swaps.len() + 1
    &&& chunks[0] == 0
    &&& lefts[0] == if start == 0 {
        1int
    } else {
        0int
    }
    &&& forall|k: int|
        0 <= k < swaps.len() ==> dealt_step::<G>(
            chunks[k],
            lefts[k],
            (#[trigger] swaps[k]).0,
            swaps[k].1,
            chunks[k + 1],
            lefts[k + 1],
        )
}

/// Deals out swap positions for a shuffle, several from each random draw.
///
/// The `n`-th position dealt lies in `0..=n`. A fresh draw is a number
/// below a product `(n + 1) * (n + 2) * ...` of as many factors as fit in 64
/// bits; each position is then split off as the remainder by the next
/// factor.
pub struct IncreasingUniformIter {
    n: u64,
    // A random number below (n + 1) * (n + 2) * .. * (n + chunk_remaining)
    chunk: u64,
    chunk_remaining: u8,
    len: usize,
}

impl IncreasingUniformIter {
    #[verifier::type_invariant]
    spec fn well_formed(self) -> bool {
        &&& self.n <= self.len
        &&& self.chunk_remaining > 0 ==> self.chunk < rising(
            self.n + 1,
            self.chunk_remaining as nat,
        )
        &&& self.chunk_remaining == 0 ==> self.n >= 1
    }

    /// The index that the next position is dealt for.
    pub closed spec fn position(self) -> nat {
        self.n as nat
    }

    /// The index at which the dealing ends.
    pub closed spec fn limit(self) -> nat {
        self.len as nat
    }

    /// The random number that is left of the last draw.
    pub closed spec fn chunk(self) -> u64 {
        self.chunk
    }

    /// The number of positions that the chunk still holds.
    pub closed spec fn chunk_remaining(self) -> u8 {
        self.chunk_remaining
    }

    /// Starts dealing at index `n`: the first position dealt lies in
    /// `0..=n`. The dealing ends when the index reaches `len`.
    pub fn new(n: u64, len: usize) -> (dealer: Self)
        requires
            n <= len,
        ensures
            dealer.position() == n,
            dealer.limit() == len,
            dealer.chunk() == 0,
            dealer.chunk_remaining() == if n == 0 {
                1u8
            } else {
                0u8
            },
    {
        // For n = 0 the first position is always 0: no random number is
        // needed for it.
        let chunk_remaining: u8 = if n == 0 {
            1
        } else {
            0
        };
        proof {
            assert(rising(1, 1) == rising(1, 0) * 1);
        }
        Self { n, chunk: 0, chunk_remaining, len }
    }

    /// Deals a position in `0..=n` and moves on to the index `n + 1`. With
    /// positions left in the chunk the generator is not touched: the
    /// position is the chunk itself on its last factor, and else its
    /// remainder by `n + 1`, with the quotient left as the chunk. With none
    /// left, a chunk is drawn first as `draw_u64` draws it, below the
    /// largest product of numbers in a row from `n + 1` on that fits in 64
    /// bits.
    pub fn next_swap_index<R: GenCore>(&mut self, rng: &mut R) -> (position: usize)
        requires
            old(self).position() < old(self).limit(),
        ensures
            position <= old(self).position(),
            final(self).position() == old(self).position() + 1,
            final(self).limit() == old(self).limit(),
            dealt_step::<R>(
                old(self).chunk() as int,
                old(self).chunk_remaining() as int,
                old(self).position() as int,
                position as int,
                final(self).chunk() as int,
                final(self).chunk_remaining() as int,
            ),
            old(self).chunk_remaining() > 0 ==> *final(rng) == *old(rng),
            old(self).chunk_remaining() == 0 ==> exists|
                top: u64,
                first: &mut R,
                a: u64,
                last: &mut R,
                b: u64,
            |
                {
                    &&& #[trigger] largest_product(
                        old(self).position() as int,
                        top as int,
                        final(self).chunk_remaining() + 1,
                    )
                    &&& mut_ref_current(first) == *old(rng)
                    &&& #[trigger] call_ensures(R::gen_u64, (first,), a)
                    &&& mut_ref_future(last) == *final(rng)
                    &&& #[trigger] call_ensures(R::gen_u64, (last,), b)
                    &&& spec_sample(a as int, 0, top as int, width_64()).1 ==> b == a
                        && mut_ref_future(first) == *final(rng)
                    &&& peeled(
                        spec_sample(b as int, 0, top as int, width_64()).0,
                        old(self).position() as int,
                        final(self).chunk_remaining() as int,
                        position as int,
                        final(self).chunk() as int,
                    )
                },
    {
        proof {
            use_type_invariant(&*self);
        }
        let next_n = self.n + 1;
        let len = self.len;
        let mut chunk = self.chunk;

        let next_chunk_remaining = if self.chunk_remaining == 0 {
            // The chunk is used up: draw a new one.
            let (bound, remaining) = calculate_bound_u64(next_n);
            proof {
                lemma_rising_grows(next_n as int, remaining as nat);
            }
            chunk = draw_u64(rng, 0, bound - 1);
            proof {
                assert(largest_product(self.n as int, (bound - 1) as int, remaining as int));
                assert(position_drawn::<R>((bound - 1) as int, chunk as int));
            }
            remaining - 1
        } else {
            self.chunk_remaining - 1
        };
        let ghost rest = rising(next_n + 1, next_chunk_remaining as nat);
        proof {
            lemma_rising_front(next_n as int, (next_chunk_remaining + 1) as nat);
            lemma_rising_grows(next_n + 1, next_chunk_remaining as nat);
            assert(chunk < rising(next_n as int, (next_chunk_remaining + 1) as nat));
            assert(chunk < next_n * rest);
        }
        let result = if next_chunk_remaining == 0 {
            // The chunk is a random number below n + 1 by now.
            assert(next_n * rest == next_n) by (nonlinear_arith)
                requires
                    rest == 1,
            ;
            chunk
        } else {
            // The chunk is a random number below a multiple of n + 1.
            let random = chunk % next_n;
            proof {
                assert(chunk / next_n < rest) by (nonlinear_arith)
                    requires
                        chunk < next_n * rest,
                        next_n > 0,
                ;
            }
            chunk = chunk / next_n;
            random
        };
        *self = Self { n: next_n, chunk, chunk_remaining: next_chunk_remaining, len };
        result as usize
    }

    /// Deals the next pair of an index and a position at or below it, as
    /// `next_swap_index` deals it, or `None` once the index has reached the
    /// limit, which leaves the dealer and the generator as they were.
    pub fn next<R: GenCore>(&mut self, rng: &mut R) -> (dealt: Option<(usize, usize)>)
        ensures
            final(self).limit() == old(self).limit(),
            old(self).position() <= old(self).limit(),
            match dealt {
                Some((index, position)) => {
                    &&& index == old(self).position()
                    &&& index < old(self).limit()
                    &&& position <= index
                    &&& final(self).position() == index + 1
                    &&& dealt_step::<R>(
                        old(self).chunk() as int,
                        old(self).chunk_remaining() as int,
                        index as int,
                        position as int,
                        final(self).chunk() as int,
                        final(self).chunk_remaining() as int,
                    )
                    &&& old(self).chunk_remaining() > 0 ==> *final(rng) == *old(rng)
                    &&& old(self).chunk_remaining() == 0 ==> exists|
                        top: u64,
                        first: &mut R,
                        a: u64,
                        last: &mut R,
                        b: u64,
                    |
                        {
                            &&& #[trigger] largest_product(
                                index as int,
                                top as int,
                                final(self).chunk_remaining() + 1,
                            )
                            &&& mut_ref_current(first) == *old(rng)
                            &&& #[trigger] call_ensures(R::gen_u64, (first,), a)
                            &&& mut_ref_future(last) == *final(rng)
                            &&& #[trigger] call_ensures(R::gen_u64, (last,), b)
                            &&& spec_sample(a as int, 0, top as int, width_64()).1 ==> b == a
                                && mut_ref_future(first) == *final(rng)
                            &&& peeled(
                                spec_sample(b as int, 0, top as int, width_64()).0,
                                index as int,
                                final(self).chunk_remaining() as int,
                                position as int,
                                final(self).chunk() as int,
                            )
                        }
                },
                None => {
                    &&& old(self).position() == old(self).limit()
                    &&& final(self).position() == old(self).position()
                    &&& final(self).chunk() == old(self).chunk()
                    &&& final(self).chunk_remaining() == old(self).chunk_remaining()
                    &&& *final(rng) == *old(rng)
                },
            },
    {
        proof {
            use_type_invariant(&*self);
        }
        if self.len == self.n as usize {
            None
        } else {
            let index = self.n as usize;
            let position = self.next_swap_index(rng);
            Some((index, position))
        }
    }

    /// The number of pairs still to be dealt.
    pub fn len(&self) -> (remaining: usize)
        ensures
            remaining == self.limit() - self.position(),
    {
        proof {
            use_type_invariant(self);
        }
        self.len - self.n as usize
    }
}

} // verus!
