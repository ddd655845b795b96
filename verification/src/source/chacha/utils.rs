//! The ChaCha state: how a seed lays it out, how the block function mixes
//! it and how its block counter advances.
use crate::bytes::{lemma_le_value_4, pack_into_u32, seq_le_words};
use vstd::prelude::*;
use vstd::wrapping::u32_specs::wrapping_add;

verus! {

/// The sixteen bytes `expand 32-byte k` that open every ChaCha state.
pub const INITIAL_STATE: [u8; 16] = [
    0x65, 0x78, 0x70, 0x61, 0x6e, 0x64, 0x20, 0x33, 0x32, 0x2d, 0x62, 0x79, 0x74, 0x65, 0x20, 0x6b,
];

/// A 40-byte seed read as ten little-endian words: eight key words, then two
/// nonce words.
pub struct AlignedSeed(pub [u32; 10]);

impl AlignedSeed {
    /// Reads the seed bytes as little-endian words.
    pub fn from(seed: [u8; 40]) -> (aligned: Self)
        ensures
            aligned.0@ == seq_le_words(seed@),
    {
        let mut words = [0u32; 10];
        let mut i: usize = 0;
        while i < 10
            invariant
                i <= 10,
                forall|k: int| 0 <= k < i ==> words@[k] == seq_le_words(seed@)[k],
            decreases 10 - i,
        {
            words[i] = pack_into_u32(
                vstd::slice::slice_subrange(seed.as_slice(), 4 * i, 4 * i + 4),
            );
            i += 1;
        }
        assert(words@ =~= seq_le_words(seed@));
        AlignedSeed(words)
    }
}

/// `x` rotated left by `n` bits, for `0 < n < 32`.
pub open spec fn rotl32(x: u32, n: u32) -> u32 {
    (x << n) | (x >> ((32 - n) as u32))
}

/// The 64-bit block counter held in words 12 (low half) and 13 (high half).
pub open spec fn counter_of(state: Seq<u32>) -> int {
    state[13] as int * 0x1_0000_0000 + state[12] as int
}

/// The state with its block counter advanced by one, or `None` when the
/// counter already holds its largest value.
pub open spec fn spec_increment_counter(state: Seq<u32>) -> Option<Seq<u32>> {
    if counter_of(state) == u64::MAX as int {
        None
    } else {
        Some(
            state.update(12, ((counter_of(state) + 1) % 0x1_0000_0000) as u32).update(
                13,
                ((counter_of(state) + 1) / 0x1_0000_0000) as u32,
            ),
        )
    }
}

/// The state that a seed of ten words starts from: four constant words,
/// eight key words, a zero counter and two nonce words.
pub open spec fn spec_init_state(seed: Seq<u32>) -> Seq<u32> {
    seq![
        0x61707865u32,
        0x3320646eu32,
        0x79622d32u32,
        0x6b206574u32,
        seed[0],
        seed[1],
        seed[2],
        seed[3],
        seed[4],
        seed[5],
        seed[6],
        seed[7],
        0u32,
        0u32,
        seed[8],
        seed[9],
    ]
}

/// One add-xor-rotate step: word `a` gains word `b`, and word `c` is xored
/// with the new word `a` and rotated left by `left` bits.
pub open spec fn spec_add_xor_rotate(s: Seq<u32>, a: int, b: int, c: int, left: u32) -> Seq<u32> {
    let s1 = s.update(a, wrapping_add(s[a], s[b]));
    s1.update(c, rotl32(s1[c] ^ s1[a], left))
}

/// The ChaCha quarter round on words `a`, `b`, `c`, `d`, with the rotation
/// amounts 16, 12, 8 and 7.
pub open spec fn spec_quarter_round(s: Seq<u32>, a: int, b: int, c: int, d: int) -> Seq<u32> {
    let s1 = spec_add_xor_rotate(s, a, b, d, 16);
    let s2 = spec_add_xor_rotate(s1, c, d, b, 12);
    let s3 = spec_add_xor_rotate(s2, a, b, d, 8);
    spec_add_xor_rotate(s3, c, d, b, 7)
}

/// Four column rounds followed by four diagonal rounds.
pub open spec fn spec_double_round(s: Seq<u32>) -> Seq<u32> {
    let s = spec_quarter_round(s, 0, 4, 8, 12);
    let s = spec_quarter_round(s, 1, 5, 9, 13);
    let s = spec_quarter_round(s, 2, 6, 10, 14);
    let s = spec_quarter_round(s, 3, 7, 11, 15);
    let s = spec_quarter_round(s, 0, 5, 10, 15);
    let s = spec_quarter_round(s, 1, 6, 11, 12);
    let s = spec_quarter_round(s, 2, 7, 8, 13);
    spec_quarter_round(s, 3, 4, 9, 14)
}

/// `n` double rounds applied in turn.
pub open spec fn spec_rounds(s: Seq<u32>, n: nat) -> Seq<u32>
    decreases n,
{
    if n == 0 {
        s
    } else {
        spec_double_round(spec_rounds(s, (n - 1) as nat))
    }
}

/// The ChaCha block of a state: `double_rounds` double rounds, then the
/// input state added back word by word.
pub open spec fn spec_block(state: Seq<u32>, double_rounds: nat) -> Seq<u32> {
    Seq::new(16, |i: int| wrapping_add(spec_rounds(state, double_rounds)[i], state[i]))
}

/// Advances the 64-bit block counter in words 12 and 13 by one. Returns
/// `None` when the counter is exhausted: it never wraps.
pub fn increment_counter(state: [u32; 16]) -> (next: Option<[u32; 16]>)
    ensures
        match spec_increment_counter(state@) {
            Some(s) => next.is_some() && next.unwrap()@ == s,
            None => next.is_none(),
        },
{
    let mut state = state;
    let counter: u64 = (state[13] as u64) * 0x1_0000_0000 + (state[12] as u64);
    match counter.checked_add(1) {
        Some(updated_counter) => {
            state[12] = (updated_counter % 0x1_0000_0000) as u32;
            state[13] = (updated_counter / 0x1_0000_0000) as u32;
            Some(state)
        },
        None => None,
    }
}

/// Builds the initial state for a seed.
pub fn init_state(seed: AlignedSeed) -> (state: [u32; 16])
    ensures
        state@ == spec_init_state(seed.0@),
{
    let seed = seed.0;
    let state = [
        pack_into_u32(slice_of(&INITIAL_STATE, 0)),
        pack_into_u32(slice_of(&INITIAL_STATE, 4)),
        pack_into_u32(slice_of(&INITIAL_STATE, 8)),
        pack_into_u32(slice_of(&INITIAL_STATE, 12)),
        seed[0],
        seed[1],
        seed[2],
        seed[3],
        seed[4],
        seed[5],
        seed[6],
        seed[7],
        0,
        0,
        seed[8],
        seed[9],
    ];
    proof {
        lemma_le_value_4(INITIAL_STATE@.subrange(0, 4));
        lemma_le_value_4(INITIAL_STATE@.subrange(4, 8));
        lemma_le_value_4(INITIAL_STATE@.subrange(8, 12));
        lemma_le_value_4(INITIAL_STATE@.subrange(12, 16));
        assert(state@ =~= spec_init_state(seed@));
    }
    state
}

/// The four constant bytes that start at `start`.
fn slice_of(bytes: &[u8; 16], start: usize) -> (out: &[u8])
    requires
        start + 4 <= 16,
    ensures
        out@ == bytes@.subrange(start as int, start + 4),
{
    vstd::slice::slice_subrange(bytes.as_slice(), start, start + 4)
}

/// One add-xor-rotate step of the quarter round, in place.
pub fn add_xor_rotate<const A: usize, const B: usize, const C: usize, const LEFT: u32>(
    input: &mut [u32; 16],
)
    requires
        A < 16,
        B < 16,
        C < 16,
        0 < LEFT < 32,
    ensures
        final(input)@ == spec_add_xor_rotate(old(input)@, A as int, B as int, C as int, LEFT),
{
    input[A] = input[A].wrapping_add(input[B]);
    input[C] = input[C] ^ input[A];
    input[C] = (input[C] << LEFT) | (input[C] >> (32 - LEFT));
    assert(input@ =~= spec_add_xor_rotate(old(input)@, A as int, B as int, C as int, LEFT));
}

/// The ChaCha quarter round on four words of the state, in place.
pub fn quarter_round<const A: usize, const B: usize, const C: usize, const D: usize>(
    input: &mut [u32; 16],
)
    requires
        A < 16,
        B < 16,
        C < 16,
        D < 16,
    ensures
        final(input)@ == spec_quarter_round(old(input)@, A as int, B as int, C as int, D as int),
{
    add_xor_rotate::<A, B, D, 16>(input);
    add_xor_rotate::<C, D, B, 12>(input);
    add_xor_rotate::<A, B, D, 8>(input);
    add_xor_rotate::<C, D, B, 7>(input);
}

/// Computes the keystream block of a state: `DOUBLE_ROUNDS` double rounds
/// of the ChaCha permutation, then the feed-forward addition of the state.
pub fn calculate_block<const DOUBLE_ROUNDS: usize>(state: &[u32; 16]) -> (block: [u32; 16])
    requires
        DOUBLE_ROUNDS % 2 == 0,
    ensures
        block@ == spec_block(state@, DOUBLE_ROUNDS as nat),
{
    let mut new_state = *state;
    let mut round: usize = 0;
    while round < DOUBLE_ROUNDS
        invariant
            round <= DOUBLE_ROUNDS,
            new_state@ == spec_rounds(state@, round as nat),
        decreases DOUBLE_ROUNDS - round,
    {
        // Odd rounds
        quarter_round::<0, 4, 8, 12>(&mut new_state);
        quarter_round::<1, 5, 9, 13>(&mut new_state);
        quarter_round::<2, 6, 10, 14>(&mut new_state);
        quarter_round::<3, 7, 11, 15>(&mut new_state);
        // Even rounds
        quarter_round::<0, 5, 10, 15>(&mut new_state);
        quarter_round::<1, 6, 11, 12>(&mut new_state);
        quarter_round::<2, 7, 8, 13>(&mut new_state);
        quarter_round::<3, 4, 9, 14>(&mut new_state);
        round += 1;
    }
    let ghost mixed = new_state@;
    let mut i: usize = 0;
    while i < 16
        invariant
            i <= 16,
            mixed == spec_rounds(state@, DOUBLE_ROUNDS as nat),
            forall|k: int| 0 <= k < i ==> new_state@[k] == wrapping_add(mixed[k], state@[k]),
            forall|k: int| i <= k < 16 ==> new_state@[k] == mixed[k],
        decreases 16 - i,
    {
        new_state[i] = new_state[i].wrapping_add(state[i]);
        i += 1;
    }
    assert(new_state@ =~= spec_block(state@, DOUBLE_ROUNDS as nat));
    new_state
}

} // verus!
