//! A fast but **not** cryptographically secure PRNG based on WyRand.
use crate::bytes::{
    le_bytes, le_value, lemma_u64_le_round_trip, u128_from_le_bytes, u16_from_le_bytes,
    u32_from_le_bytes, u64_from_le_bytes,
};
use crate::entropy::generate_entropy;
use crate::internal::state::{AtomicState, CellState};
use crate::source::wyrand::{
    nth_state, output_bytes, outputs_of, spec_mix, steps_for, WyRand, INCREMENT,
};
use crate::traits::{ForkableCore, GenCore, SeededCore, TurboCore, TurboKind};
use core::fmt::Debug;
use vstd::prelude::*;
use vstd::wrapping::u64_specs::wrapping_add;

verus! {

/// The state that a seed stands for: the seed shifted up by one bit, with
/// the lowest bit set. The state is odd whatever the seed.
pub open spec fn spec_odd_state(seed: u64) -> u64 {
    (seed << 1) | 1
}

/// The state that a seed stands for.
pub fn odd_state(seed: u64) -> (state: u64)
    ensures
        state == spec_odd_state(seed),
        state % 2 == 1,
{
    let state = (seed << 1) | 1;
    assert(((seed << 1) | 1) % 2 == 1) by (bit_vector);
    state
}

/// A random number generator, powered by the WyRand algorithm.
#[derive(PartialEq, Eq, Structural)]
pub struct Rng(WyRand<CellState>);

impl Rng {
    /// The state of the generator.
    pub closed spec fn state(self) -> u64 {
        self.0.value()
    }

    /// Creates a generator with a state from fresh entropy: the state is
    /// the little-endian value of the eight bytes that `generate_entropy`
    /// gives.
    pub fn new() -> (rng: Self)
        ensures
            exists|entropy: [u8; 8]|
                #[trigger] call_ensures(generate_entropy::<8>, (), entropy) && rng.state()
                    == le_value(entropy@),
    {
        Self(WyRand::<CellState>::with_seed(u64_from_le_bytes(generate_entropy::<8>())))
    }

    /// Restores a generator from a state, taken as it is.
    pub fn from_state(state: u64) -> (rng: Self)
        ensures
            rng.state() == state,
    {
        Self(WyRand::<CellState>::with_seed(state))
    }

    /// The state of the generator, for storing it.
    pub fn get_state(&self) -> (state: u64)
        ensures
            state == self.state(),
    {
        self.0.get_state()
    }

    /// Clones the generator by deriving a new one, as `fork` does: the raw
    /// state is never copied. This generator takes a step, and what it puts
    /// out becomes the state of the clone.
    pub fn clone(&mut self) -> (child: Self)
        ensures
            final(self).state() == wrapping_add(old(self).state(), INCREMENT),
            child.state() == spec_mix(final(self).state()),
            spec_mix(final(self).state()) != final(self).state() ==> child.state()
                != final(self).state(),
    {
        Self(self.0.fork())
    }
}

impl TurboCore for Rng {
    /// Fills the buffer with the bytes of the next outputs, eight from each
    /// and from the last one as many as are still missing.
    fn fill_bytes(&mut self, buffer: &mut [u8])
        ensures
            final(self).state() == nth_state(old(self).state(), steps_for(old(buffer)@.len())),
            final(buffer)@ == output_bytes(old(self).state(), steps_for(old(buffer)@.len())).take(
                old(buffer)@.len() as int,
            ),
    {
        self.0.fill(buffer);
    }
}

impl GenCore for Rng {
    const GEN_KIND: TurboKind = TurboKind::FAST;

    fn gen<const SIZE: usize>(&mut self) -> (output: [u8; SIZE])
        ensures
            final(self).state() == nth_state(old(self).state(), steps_for(SIZE as nat)),
            output@ == output_bytes(old(self).state(), steps_for(SIZE as nat)).take(SIZE as int),
    {
        self.0.rand()
    }

    /// The next 1 byte of the stream, read as a number,
    /// least significant byte first.
    fn gen_u8(&mut self) -> (value: u8)
        ensures
            final(self).state() == nth_state(old(self).state(), steps_for(1)),
            value == le_value(
                output_bytes(old(self).state(), steps_for(1)).take(1),
            ),
    {
        let bytes = self.gen::<1>();
        proof {
            reveal_with_fuel(le_value, 2);
            assert(bytes@.drop_first().len() == 0);
        }
        bytes[0]
    }

    /// The next 2 bytes of the stream, read as a number,
    /// least significant byte first.
    fn gen_u16(&mut self) -> (value: u16)
        ensures
            final(self).state() == nth_state(old(self).state(), steps_for(2)),
            value == le_value(
                output_bytes(old(self).state(), steps_for(2)).take(2),
            ),
    {
        u16_from_le_bytes(self.gen::<2>())
    }

    /// The next 4 bytes of the stream, read as a number,
    /// least significant byte first.
    fn gen_u32(&mut self) -> (value: u32)
        ensures
            final(self).state() == nth_state(old(self).state(), steps_for(4)),
            value == le_value(
                output_bytes(old(self).state(), steps_for(4)).take(4),
            ),
    {
        u32_from_le_bytes(self.gen::<4>())
    }

    /// The next 8 bytes of the stream, read as a number,
    /// least significant byte first.
    fn gen_u64(&mut self) -> (value: u64)
        ensures
            final(self).state() == nth_state(old(self).state(), steps_for(8)),
            value == le_value(
                output_bytes(old(self).state(), steps_for(8)).take(8),
            ),
    {
        u64_from_le_bytes(self.gen::<8>())
    }

    /// The next 16 bytes of the stream, read as a number,
    /// least significant byte first.
    fn gen_u128(&mut self) -> (value: u128)
        ensures
            final(self).state() == nth_state(old(self).state(), steps_for(16)),
            value == le_value(
                output_bytes(old(self).state(), steps_for(16)).take(16),
            ),
    {
        u128_from_le_bytes(self.gen::<16>())
    }
}

impl SeededCore for Rng {
    type Seed = u64;

    /// Creates a generator from a seed. The state is forced odd.
    fn with_seed(seed: u64) -> (rng: Self)
        ensures
            rng.state() == spec_odd_state(seed),
    {
        Self(WyRand::<CellState>::with_seed(odd_state(seed)))
    }

    /// Starts the generator afresh from a seed. The state is forced odd.
    fn reseed(&mut self, seed: u64)
        ensures
            final(self).state() == spec_odd_state(seed),
    {
        self.0.reseed(odd_state(seed));
    }
}

impl Default for Rng {
    /// Creates a generator with a seed from fresh entropy: two defaults
    /// differ.
    fn default() -> Self {
        Self::new()
    }
}

impl ForkableCore for Rng {
    /// Derives a new generator: this one takes a step, and what it puts out
    /// becomes the state of the new one. The raw state is never copied: the
    /// two states differ unless the parent has stepped onto a state that
    /// is its own output.
    fn fork(&mut self) -> (child: Self)
        ensures
            final(self).state() == wrapping_add(old(self).state(), INCREMENT),
            child.state() == spec_mix(final(self).state()),
            spec_mix(final(self).state()) != final(self).state() ==> child.state()
                != final(self).state(),
    {
        Self(self.0.fork())
    }
}

impl core::fmt::Debug for Rng {
    /// Prints the names of the types that the generator is made of, not
    /// its state.
    fn fmt(&self, f: &mut core::fmt::Formatter<'_>) -> core::fmt::Result {
        match f.write_str("Rng(") {
            Ok(_) => {},
            Err(error) => {
                return Err(error);
            },
        }
        match self.0.fmt(f) {
            Ok(_) => {},
            Err(error) => {
                return Err(error);
            },
        }
        f.write_str(")")
    }
}

/// A random number generator, powered by the WyRand algorithm, whose state
/// several threads may share.
pub struct AtomicRng(WyRand<AtomicState>);

impl AtomicRng {
    /// The storage of the state.
    pub closed spec fn storage(self) -> AtomicState {
        self.0.storage()
    }

    /// Creates a generator with a state from fresh entropy: the state is
    /// made from the little-endian value of the eight bytes that
    /// `generate_entropy` gives.
    pub fn new() -> (rng: Self)
        ensures
            exists|entropy: [u8; 8]|
                #[trigger] call_ensures(generate_entropy::<8>, (), entropy)
                    && rng.storage().made_from(le_value(entropy@) as u64),
    {
        Self(WyRand::<AtomicState>::with_seed(u64_from_le_bytes(generate_entropy::<8>())))
    }

    /// Creates a generator from a seed. The state is forced odd.
    pub fn with_seed(seed: u64) -> (rng: Self)
        ensures
            rng.storage().made_from(spec_odd_state(seed)),
    {
        Self(WyRand::<AtomicState>::with_seed(odd_state(seed)))
    }

    /// Starts the generator afresh from a seed. The state is forced odd.
    pub fn reseed(&self, seed: u64)
        ensures
            self.storage().stores(spec_odd_state(seed)),
    {
        self.0.reseed(odd_state(seed));
    }

    /// Derives a new generator: this one takes a step, and what it puts out
    /// becomes the state of the new one.
    pub fn fork(&self) -> (child: Self)
        ensures
            exists|state: u64|
                #[trigger] self.storage().updates(INCREMENT, state) && child.storage().made_from(
                    spec_mix(state),
                ),
    {
        let output = self.0.generate();
        proof {
            let state = choose|state: u64|
                #[trigger] self.storage().updates(INCREMENT, state) && output@ == le_bytes(
                    spec_mix(state) as nat,
                    8,
                );
            lemma_u64_le_round_trip(spec_mix(state));
        }
        Self(WyRand::<AtomicState>::with_seed(u64_from_le_bytes(output)))
    }

    /// Restores a generator from a state, taken as it is.
    pub fn from_state(state: u64) -> (rng: Self)
        ensures
            rng.storage().made_from(state),
    {
        Self(WyRand::<AtomicState>::with_seed(state))
    }

    /// The state of the generator as one load gives it, for storing it.
    pub fn get_state(&self) -> (state: u64)
        ensures
            self.storage().loads(state),
    {
        self.0.get_state()
    }
}

impl SeededCore for AtomicRng {
    type Seed = u64;

    /// Creates a generator from a seed. The state is forced odd.
    fn with_seed(seed: u64) -> (rng: Self)
        ensures
            rng.storage().made_from(spec_odd_state(seed)),
    {
        Self(WyRand::<AtomicState>::with_seed(odd_state(seed)))
    }

    /// Starts the generator afresh from a seed. The state is forced odd.
    fn reseed(&mut self, seed: u64)
        ensures
            final(self).storage() == old(self).storage(),
            old(self).storage().stores(spec_odd_state(seed)),
    {
        self.0.reseed(odd_state(seed));
    }
}

impl ForkableCore for AtomicRng {
    /// Derives a new generator: this one takes a step, and what it puts out
    /// becomes the state of the new one.
    fn fork(&mut self) -> (child: Self)
        ensures
            final(self).storage() == old(self).storage(),
            exists|state: u64|
                #[trigger] old(self).storage().updates(INCREMENT, state)
                    && child.storage().made_from(spec_mix(state)),
    {
        let output = self.0.generate();
        proof {
            let state = choose|state: u64|
                #[trigger] self.storage().updates(INCREMENT, state) && output@ == le_bytes(
                    spec_mix(state) as nat,
                    8,
                );
            lemma_u64_le_round_trip(spec_mix(state));
        }
        Self(WyRand::<AtomicState>::with_seed(u64_from_le_bytes(output)))
    }
}

impl TurboCore for AtomicRng {
    /// Fills the buffer with the outputs of the states that the generator
    /// steps through, eight bytes from each and from the last one as many
    /// as are still missing.
    fn fill_bytes(&mut self, buffer: &mut [u8])
        ensures
            exists|states: Seq<u64>|
                {
                    &&& states.len() == steps_for(old(buffer)@.len())
                    &&& old(self).storage().updates_through(INCREMENT, states)
                    &&& final(buffer)@ == #[trigger] outputs_of(states).take(
                        old(buffer)@.len() as int,
                    )
                },
    {
        self.0.fill(buffer);
    }
}

impl GenCore for AtomicRng {
    const GEN_KIND: TurboKind = TurboKind::FAST;

    fn gen<const SIZE: usize>(&mut self) -> (output: [u8; SIZE])
        ensures
            exists|states: Seq<u64>|
                {
                    &&& states.len() == steps_for(SIZE as nat)
                    &&& old(self).storage().updates_through(INCREMENT, states)
                    &&& output@ == #[trigger] outputs_of(states).take(SIZE as int)
                },
    {
        self.0.rand()
    }

    /// The next 1 byte of the stream, read as a number,
    /// least significant byte first.
    fn gen_u8(&mut self) -> (value: u8)
        ensures
            exists|states: Seq<u64>|
                {
                    &&& states.len() == steps_for(1)
                    &&& old(self).storage().updates_through(INCREMENT, states)
                    &&& value == le_value(#[trigger] outputs_of(states).take(1))
                },
    {
        let bytes = self.gen::<1>();
        proof {
            reveal_with_fuel(le_value, 2);
            assert(bytes@.drop_first().len() == 0);
        }
        bytes[0]
    }

    /// The next 2 bytes of the stream, read as a number,
    /// least significant byte first.
    fn gen_u16(&mut self) -> (value: u16)
        ensures
            exists|states: Seq<u64>|
                {
                    &&& states.len() == steps_for(2)
                    &&& old(self).storage().updates_through(INCREMENT, states)
                    &&& value == le_value(#[trigger] outputs_of(states).take(2))
                },
    {
        u16_from_le_bytes(self.gen::<2>())
    }

    /// The next 4 bytes of the stream, read as a number,
    /// least significant byte first.
    fn gen_u32(&mut self) -> (value: u32)
        ensures
            exists|states: Seq<u64>|
                {
                    &&& states.len() == steps_for(4)
                    &&& old(self).storage().updates_through(INCREMENT, states)
                    &&& value == le_value(#[trigger] outputs_of(states).take(4))
                },
    {
        u32_from_le_bytes(self.gen::<4>())
    }

    /// The next 8 bytes of the stream, read as a number,
    /// least significant byte first.
    fn gen_u64(&mut self) -> (value: u64)
        ensures
            exists|states: Seq<u64>|
                {
                    &&& states.len() == steps_for(8)
                    &&& old(self).storage().updates_through(INCREMENT, states)
                    &&& value == le_value(#[trigger] outputs_of(states).take(8))
                },
    {
        u64_from_le_bytes(self.gen::<8>())
    }

    /// The next 16 bytes of the stream, read as a number,
    /// least significant byte first.
    fn gen_u128(&mut self) -> (value: u128)
        ensures
            exists|states: Seq<u64>|
                {
                    &&& states.len() == steps_for(16)
                    &&& old(self).storage().updates_through(INCREMENT, states)
                    &&& value == le_value(#[trigger] outputs_of(states).take(16))
                },
    {
        u128_from_le_bytes(self.gen::<16>())
    }
}

impl<'a> TurboCore for &'a AtomicRng {
    /// Fills the buffer with the outputs of the states that the generator
    /// steps through, eight bytes from each and from the last one as many
    /// as are still missing.
    fn fill_bytes(&mut self, buffer: &mut [u8])
        ensures
            exists|states: Seq<u64>|
                {
                    &&& states.len() == steps_for(old(buffer)@.len())
                    &&& old(self).storage().updates_through(INCREMENT, states)
                    &&& final(buffer)@ == #[trigger] outputs_of(states).take(
                        old(buffer)@.len() as int,
                    )
                },
    {
        self.0.fill(buffer);
    }
}

impl<'a> GenCore for &'a AtomicRng {
    const GEN_KIND: TurboKind = TurboKind::FAST;

    fn gen<const SIZE: usize>(&mut self) -> (output: [u8; SIZE])
        ensures
            exists|states: Seq<u64>|
                {
                    &&& states.len() == steps_for(SIZE as nat)
                    &&& old(self).storage().updates_through(INCREMENT, states)
                    &&& output@ == #[trigger] outputs_of(states).take(SIZE as int)
                },
    {
        self.0.rand()
    }

    /// The next 1 byte of the stream, read as a number,
    /// least significant byte first.
    fn gen_u8(&mut self) -> (value: u8)
        ensures
            exists|states: Seq<u64>|
                {
                    &&& states.len() == steps_for(1)
                    &&& old(self).storage().updates_through(INCREMENT, states)
                    &&& value == le_value(#[trigger] outputs_of(states).take(1))
                },
    {
        let bytes = self.gen::<1>();
        proof {
            reveal_with_fuel(le_value, 2);
            assert(bytes@.drop_first().len() == 0);
        }
        bytes[0]
    }

    /// The next 2 bytes of the stream, read as a number,
    /// least significant byte first.
    fn gen_u16(&mut self) -> (value: u16)
        ensures
            exists|states: Seq<u64>|
                {
                    &&& states.len() == steps_for(2)
                    &&& old(self).storage().updates_through(INCREMENT, states)
                    &&& value == le_value(#[trigger] outputs_of(states).take(2))
                },
    {
        u16_from_le_bytes(self.gen::<2>())
    }

    /// The next 4 bytes of the stream, read as a number,
    /// least significant byte first.
    fn gen_u32(&mut self) -> (value: u32)
        ensures
            exists|states: Seq<u64>|
                {
                    &&& states.len() == steps_for(4)
                    &&& old(self).storage().updates_through(INCREMENT, states)
                    &&& value == le_value(#[trigger] outputs_of(states).take(4))
                },
    {
        u32_from_le_bytes(self.gen::<4>())
    }

    /// The next 8 bytes of the stream, read as a number,
    /// least significant byte first.
    fn gen_u64(&mut self) -> (value: u64)
        ensures
            exists|states: Seq<u64>|
                {
                    &&& states.len() == steps_for(8)
                    &&& old(self).storage().updates_through(INCREMENT, states)
                    &&& value == le_value(#[trigger] outputs_of(states).take(8))
                },
    {
        u64_from_le_bytes(self.gen::<8>())
    }

    /// The next 16 bytes of the stream, read as a number,
    /// least significant byte first.
    fn gen_u128(&mut self) -> (value: u128)
        ensures
            exists|states: Seq<u64>|
                {
                    &&& states.len() == steps_for(16)
                    &&& old(self).storage().updates_through(INCREMENT, states)
                    &&& value == le_value(#[trigger] outputs_of(states).take(16))
                },
    {
        u128_from_le_bytes(self.gen::<16>())
    }
}

impl Clone for AtomicRng {
    /// Clones the generator by deriving a new one, as `fork` does: the raw
    /// state is never copied.
    fn clone(&self) -> (child: Self)
        ensures
            exists|state: u64|
                #[trigger] self.storage().updates(INCREMENT, state) && child.storage().made_from(
                    spec_mix(state),
                ),
    {
        self.fork()
    }
}

impl Default for AtomicRng {
    /// Creates a generator with a seed from fresh entropy: two defaults
    /// differ.
    fn default() -> Self {
        Self::new()
    }
}

impl core::fmt::Debug for AtomicRng {
    /// Prints the names of the types that the generator is made of, not
    /// its state.
    fn fmt(&self, f: &mut core::fmt::Formatter<'_>) -> core::fmt::Result {
        match f.write_str("AtomicRng(") {
            Ok(_) => {},
            Err(error) => {
                return Err(error);
            },
        }
        match self.0.fmt(f) {
            Ok(_) => {},
            Err(error) => {
                return Err(error);
            },
        }
        f.write_str(")")
    }
}

/// `Rng` and `AtomicRng`, also through a shared handle, are fast
/// generators: a shuffle takes one draw from them for every exchange.
pub proof fn lemma_wyrand_generators_are_fast()
    ensures
        <Rng as GenCore>::GEN_KIND == TurboKind::FAST,
        <AtomicRng as GenCore>::GEN_KIND == TurboKind::FAST,
        <&AtomicRng as GenCore>::GEN_KIND == TurboKind::FAST,
{
}

} // verus!
