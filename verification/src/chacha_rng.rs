//! A cryptographically secure PRNG (CSPRNG) based on ChaCha8.
use crate::bytes::{
    le_value, seq_le_words, u128_from_le_bytes, u16_from_le_bytes, u32_from_le_bytes,
    u64_from_le_bytes,
};
use crate::entropy::generate_entropy;
use crate::source::chacha::utils::{spec_init_state, AlignedSeed};
use crate::source::chacha::ChaCha8;
use crate::traits::{ForkableCore, GenCore, SecureCore, SeededCore, TurboCore, TurboKind};
use core::fmt::Debug;
use vstd::prelude::*;
use vstd::std_specs::cmp::PartialEqSpecImpl;

verus! {

/// A random number generator, powered by the ChaCha8 algorithm.
pub struct ChaChaRng(ChaCha8);

impl ChaChaRng {
    /// The source behind the generator.
    pub closed spec fn source(self) -> ChaCha8 {
        self.0
    }

    /// Creates a generator with a seed from fresh entropy: the generator
    /// starts as `with_seed` starts it from the forty bytes that
    /// `generate_entropy` gives, with the block counter at zero and nothing
    /// cached.
    pub fn new() -> (rng: Self)
        ensures
            exists|entropy: [u8; 40]|
                {
                    &&& #[trigger] call_ensures(generate_entropy::<40>, (), entropy)
                    &&& rng.source().words() == spec_init_state(seq_le_words(entropy@))
                    &&& rng.source().cache().available() == Seq::<u8>::empty()
                },
    {
        Self(ChaCha8::with_seed(AlignedSeed::from(generate_entropy::<40>())))
    }

    /// Restores a generator from its source, taken as it is.
    pub fn from_source(source: ChaCha8) -> (rng: Self)
        ensures
            rng.source() == source,
    {
        Self(source)
    }

    /// The source behind the generator, for storing it.
    pub fn get_source(&self) -> (source: &ChaCha8)
        ensures
            *source == self.source(),
    {
        &self.0
    }
}

impl TurboCore for ChaChaRng {
    /// Fills the buffer with keystream bytes, from the cache first and then
    /// block after block.
    fn fill_bytes(&mut self, buffer: &mut [u8])
        ensures
            old(self).source().reads(final(self).source(), final(buffer)@),
    {
        self.0.fill(buffer);
    }
}

impl GenCore for ChaChaRng {
    const GEN_KIND: TurboKind = TurboKind::SLOW;

    fn gen<const SIZE: usize>(&mut self) -> (output: [u8; SIZE])
        ensures
            old(self).source().reads(final(self).source(), output@),
    {
        self.0.rand()
    }

    /// The next 1 byte of the keystream, read as a number,
    /// least significant byte first.
    fn gen_u8(&mut self) -> (value: u8)
        ensures
            exists|bytes: Seq<u8>|
                {
                    &&& bytes.len() == 1
                    &&& #[trigger] old(self).source().reads(final(self).source(), bytes)
                    &&& value == le_value(bytes)
                },
    {
        let bytes = self.gen::<1>();
        assert(old(self).source().reads(self.source(), bytes@));
        proof {
            reveal_with_fuel(le_value, 2);
            assert(bytes@.drop_first().len() == 0);
        }
        bytes[0]
    }

    /// The next 2 bytes of the keystream, read as a number,
    /// least significant byte first.
    fn gen_u16(&mut self) -> (value: u16)
        ensures
            exists|bytes: Seq<u8>|
                {
                    &&& bytes.len() == 2
                    &&& #[trigger] old(self).source().reads(final(self).source(), bytes)
                    &&& value == le_value(bytes)
                },
    {
        let bytes = self.gen::<2>();
        assert(old(self).source().reads(self.source(), bytes@));
        u16_from_le_bytes(bytes)
    }

    /// The next 4 bytes of the keystream, read as a number,
    /// least significant byte first.
    fn gen_u32(&mut self) -> (value: u32)
        ensures
            exists|bytes: Seq<u8>|
                {
                    &&& bytes.len() == 4
                    &&& #[trigger] old(self).source().reads(final(self).source(), bytes)
                    &&& value == le_value(bytes)
                },
    {
        let bytes = self.gen::<4>();
        assert(old(self).source().reads(self.source(), bytes@));
        u32_from_le_bytes(bytes)
    }

    /// The next 8 bytes of the keystream, read as a number,
    /// least significant byte first.
    fn gen_u64(&mut self) -> (value: u64)
        ensures
            exists|bytes: Seq<u8>|
                {
                    &&& bytes.len() == 8
                    &&& #[trigger] old(self).source().reads(final(self).source(), bytes)
                    &&& value == le_value(bytes)
                },
    {
        let bytes = self.gen::<8>();
        assert(old(self).source().reads(self.source(), bytes@));
        u64_from_le_bytes(bytes)
    }

    /// The next 16 bytes of the keystream, read as a number,
    /// least significant byte first.
    fn gen_u128(&mut self) -> (value: u128)
        ensures
            exists|bytes: Seq<u8>|
                {
                    &&& bytes.len() == 16
                    &&& #[trigger] old(self).source().reads(final(self).source(), bytes)
                    &&& value == le_value(bytes)
                },
    {
        let bytes = self.gen::<16>();
        assert(old(self).source().reads(self.source(), bytes@));
        u128_from_le_bytes(bytes)
    }
}

impl SeededCore for ChaChaRng {
    type Seed = [u8; 40];

    /// Creates a generator from a seed of 32 key bytes and 8 nonce bytes.
    fn with_seed(seed: [u8; 40]) -> (rng: Self)
        ensures
            rng.source().words() == spec_init_state(seq_le_words(seed@)),
            rng.source().cache().available() == Seq::<u8>::empty(),
    {
        Self(ChaCha8::with_seed(AlignedSeed::from(seed)))
    }

    /// Starts the generator afresh from a seed and drops what was cached.
    fn reseed(&mut self, seed: [u8; 40])
        ensures
            final(self).source().words() == spec_init_state(seq_le_words(seed@)),
            final(self).source().cache().available() == Seq::<u8>::empty(),
    {
        self.0.reseed(AlignedSeed::from(seed));
    }
}

impl ForkableCore for ChaChaRng {
    /// Derives a new generator: this one puts out forty bytes, which become
    /// the seed of the new one.
    fn fork(&mut self) -> (child: Self)
        ensures
            exists|seed: Seq<u8>|
                {
                    &&& seed.len() == 40
                    &&& #[trigger] old(self).source().reads(final(self).source(), seed)
                    &&& child.source().words() == spec_init_state(seq_le_words(seed))
                    &&& child.source().cache().available() == Seq::<u8>::empty()
                },
    {
        let source = self.0.fork();
        proof {
            let seed = choose|seed: Seq<u8>|
                {
                    &&& seed.len() == 40
                    &&& #[trigger] old(self).source().reads(self.source(), seed)
                    &&& source.words() == spec_init_state(seq_le_words(seed))
                    &&& source.cache().available() == Seq::<u8>::empty()
                };
            assert(old(self).source().reads(self.source(), seed));
        }
        Self(source)
    }
}

impl ChaChaRng {
    /// Clones the generator by deriving a new one, as `fork` does: the raw
    /// state is never copied.
    pub fn clone(&mut self) -> (child: Self)
        ensures
            exists|seed: Seq<u8>|
                {
                    &&& seed.len() == 40
                    &&& #[trigger] old(self).source().reads(final(self).source(), seed)
                    &&& child.source().words() == spec_init_state(seq_le_words(seed))
                    &&& child.source().cache().available() == Seq::<u8>::empty()
                },
    {
        let source = self.0.fork();
        proof {
            let seed = choose|seed: Seq<u8>|
                {
                    &&& seed.len() == 40
                    &&& #[trigger] old(self).source().reads(self.source(), seed)
                    &&& source.words() == spec_init_state(seq_le_words(seed))
                    &&& source.cache().available() == Seq::<u8>::empty()
                };
            assert(old(self).source().reads(self.source(), seed));
        }
        Self(source)
    }
}

impl SecureCore for ChaChaRng {

}

impl Default for ChaChaRng {
    /// Creates a generator with a seed from fresh entropy: two defaults
    /// differ.
    fn default() -> Self {
        Self::new()
    }
}

impl PartialEq for ChaChaRng {
    fn eq(&self, other: &Self) -> (equal: bool) {
        self.0 == other.0
    }
}

impl Eq for ChaChaRng {

}

impl PartialEqSpecImpl for ChaChaRng {
    open spec fn obeys_eq_spec() -> bool {
        true
    }

    open spec fn eq_spec(&self, other: &Self) -> bool {
        &&& self.source().words() == other.source().words()
        &&& self.source().cache().bytes() == other.source().cache().bytes()
        &&& self.source().cache().position() == other.source().cache().position()
    }
}

impl core::fmt::Debug for ChaChaRng {
    /// Prints the names of the types that the generator is made of, not
    /// its state.
    fn fmt(&self, f: &mut core::fmt::Formatter<'_>) -> core::fmt::Result {
        match f.write_str("ChaChaRng(") {
            Ok(_) => {},
            Err(error) => {
                return Err(error);
            },
        }
        match self.0.fmt(f) {
            Ok(_) => {},
            Err(error) => {
                return Err(error);
            },
        }
        f.write_str(")")
    }
}

/// `ChaChaRng` is a slow generator: a shuffle gets several swap positions
/// from each of its draws.
pub proof fn lemma_chacha_generator_is_slow()
    ensures
        <ChaChaRng as GenCore>::GEN_KIND == TurboKind::SLOW,
{
}

} // verus!
