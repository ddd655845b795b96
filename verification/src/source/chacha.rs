//! A ChaCha8 based random number source.
use crate::bytes::{seq_le_bytes, seq_le_words};
use crate::entropy::generate_entropy;
use crate::internal::buffer::{refills_needed, EntropyBuffer};
use crate::source::chacha::utils::{
    calculate_block, counter_of, increment_counter, init_state, spec_block,
    spec_increment_counter, spec_init_state, AlignedSeed,
};
use vstd::prelude::*;
use vstd::std_specs::cmp::PartialEqSpecImpl;

pub mod utils;

verus! {

/// The number of double rounds of ChaCha8.
pub const DOUBLE_ROUNDS: usize = 4;

/// The state that follows `words`: the same key and nonce with the block
/// counter advanced by one. `None` when the counter is exhausted, in which
/// case the source reseeds itself from fresh entropy.
pub open spec fn successor(words: Seq<u32>) -> Option<Seq<u32>> {
    spec_increment_counter(words)
}

/// The state after `count` blocks, as long as no counter was exhausted on
/// the way.
pub open spec fn nth_state(words: Seq<u32>, count: nat) -> Option<Seq<u32>>
    decreases count,
{
    if count == 0 {
        Some(words)
    } else {
        match nth_state(words, (count - 1) as nat) {
            Some(state) => successor(state),
            None => None,
        }
    }
}

/// The first `count` keystream blocks that follow from `words`, as bytes.
/// Blocks past an exhausted counter depend on fresh entropy and are left
/// out.
pub open spec fn keystream(words: Seq<u32>, count: nat) -> Seq<u8>
    decreases count,
{
    if count == 0 {
        Seq::empty()
    } else {
        keystream(words, (count - 1) as nat) + match nth_state(words, (count - 1) as nat) {
            Some(state) => seq_le_bytes(spec_block(state, DOUBLE_ROUNDS as nat)),
            None => Seq::empty(),
        }
    }
}

/// What a read of `wanted` bytes does to a source with state `words` and
/// `cached` bytes left in its cache: the bytes read, the state afterwards
/// and the bytes that stay cached. It holds as long as no counter is
/// exhausted during the read.
pub open spec fn spec_fill(words: Seq<u32>, cached: Seq<u8>, wanted: nat) -> (
    Seq<u8>,
    Option<Seq<u32>>,
    Seq<u8>,
) {
    let count = refills_needed(cached.len(), wanted, 64);
    let all = cached + keystream(words, count);
    (all.take(wanted as int), nth_state(words, count), all.skip(wanted as int))
}

/// The block that the cache holds after `count` refills: the block of the
/// last state that was reached, or what it held before where nothing was
/// refilled.
pub open spec fn cached_block(words: Seq<u32>, held: Seq<u8>, count: nat) -> Seq<u8> {
    if count == 0 {
        held
    } else {
        match nth_state(words, (count - 1) as nat) {
            Some(state) => seq_le_bytes(spec_block(state, DOUBLE_ROUNDS as nat)),
            None => held,
        }
    }
}

/// A state that can be reached in `count` steps can be reached in fewer.
pub proof fn lemma_nth_state_earlier(words: Seq<u32>, count: nat, earlier: nat)
    requires
        earlier <= count,
        nth_state(words, count).is_some(),
    ensures
        nth_state(words, earlier).is_some(),
    decreases count,
{
    if earlier < count {
        lemma_nth_state_earlier(words, (count - 1) as nat, earlier);
    }
}

/// Taking `first` steps and then `second` more is taking them all at once.
pub proof fn lemma_nth_state_add(words: Seq<u32>, first: nat, second: nat)
    ensures
        nth_state(words, first + second) == match nth_state(words, first) {
            Some(state) => nth_state(state, second),
            None => None,
        },
    decreases second,
{
    if second > 0 {
        lemma_nth_state_add(words, first, (second - 1) as nat);
    }
}

/// Every block that is reached adds sixty-four bytes to the keystream.
pub proof fn lemma_keystream_len(words: Seq<u32>, count: nat)
    requires
        count > 0 ==> nth_state(words, (count - 1) as nat).is_some(),
    ensures
        keystream(words, count).len() == 64 * count,
    decreases count,
{
    if count > 0 {
        if count > 1 {
            lemma_nth_state_earlier(words, (count - 1) as nat, (count - 2) as nat);
        }
        lemma_keystream_len(words, (count - 1) as nat);
    }
}

/// The keystream of `first + second` blocks is the keystream of the first
/// blocks followed by the keystream that the state after them gives.
pub proof fn lemma_keystream_add(words: Seq<u32>, first: nat, second: nat)
    requires
        nth_state(words, first).is_some(),
    ensures
        keystream(words, first + second) == keystream(words, first) + keystream(
            nth_state(words, first).unwrap(),
            second,
        ),
    decreases second,
{
    let middle = nth_state(words, first).unwrap();
    if second == 0 {
        assert(keystream(words, first) + keystream(middle, 0) =~= keystream(words, first));
    } else {
        lemma_keystream_add(words, first, (second - 1) as nat);
        lemma_nth_state_add(words, first, (second - 1) as nat);
        let last = match nth_state(words, (first + second - 1) as nat) {
            Some(state) => seq_le_bytes(spec_block(state, DOUBLE_ROUNDS as nat)),
            None => Seq::empty(),
        };
        assert(keystream(words, first + second) == keystream(
            words,
            (first + second - 1) as nat,
        ) + last);
        assert(keystream(middle, second) == keystream(middle, (second - 1) as nat) + last);
        assert(keystream(words, first) + (keystream(middle, (second - 1) as nat) + last) =~= (
        keystream(words, first) + keystream(middle, (second - 1) as nat)) + last);
    }
}

/// Reads concatenate: a read of `first` bytes followed by a read of
/// `second` bytes hands out the same bytes, and leaves the same state and
/// cache behind, as one read of `first + second` bytes. No byte is handed
/// out twice and none is skipped, however the reads fall on the blocks.
pub proof fn lemma_reads_concatenate(words: Seq<u32>, cached: Seq<u8>, first: nat, second: nat)
    requires
        spec_fill(words, cached, first + second).1.is_some(),
    ensures
        ({
            let head = spec_fill(words, cached, first);
            let whole = spec_fill(words, cached, first + second);
            &&& head.1.is_some()
            &&& ({
                let tail = spec_fill(head.1.unwrap(), head.2, second);
                &&& whole.0 == head.0 + tail.0
                &&& whole.1 == tail.1
                &&& whole.2 == tail.2
            })
        }),
{
    let count = refills_needed(cached.len(), first + second, 64);
    let head_count = refills_needed(cached.len(), first, 64);
    assert(head_count <= count);
    lemma_nth_state_earlier(words, count, head_count);
    if head_count > 0 {
        lemma_nth_state_earlier(words, count, (head_count - 1) as nat);
    }
    lemma_keystream_len(words, head_count);
    let head = spec_fill(words, cached, first);
    let middle = head.1.unwrap();
    let tail_count = refills_needed(head.2.len(), second, 64);
    assert(head.2.len() == cached.len() + 64 * head_count - first);
    assert(count == head_count + tail_count);
    lemma_nth_state_add(words, head_count, tail_count);
    lemma_keystream_add(words, head_count, tail_count);
    let all = cached + keystream(words, count);
    let head_all = cached + keystream(words, head_count);
    let tail_all = head.2 + keystream(middle, tail_count);
    if tail_count > 0 {
        lemma_nth_state_earlier(middle, tail_count, (tail_count - 1) as nat);
    }
    lemma_keystream_len(middle, tail_count);
    assert(all =~= head_all + keystream(middle, tail_count));
    assert(all =~= head.0 + tail_all);
    assert(all.take((first + second) as int) =~= head.0 + tail_all.take(second as int));
    assert(all.skip((first + second) as int) =~= tail_all.skip(second as int));
}

/// A source that starts with the block counter at `start` reaches its
/// `count`-th state as long as the counter has room for `count` more
/// blocks: then nothing but the counter has changed.
pub proof fn lemma_nth_state_counts(words: Seq<u32>, count: nat)
    requires
        words.len() == 16,
        counter_of(words) + count <= u64::MAX,
    ensures
        nth_state(words, count).is_some(),
        counter_of(nth_state(words, count).unwrap()) == counter_of(words) + count,
        nth_state(words, count).unwrap().len() == 16,
        forall|i: int|
            0 <= i < 16 && i != 12 && i != 13 ==> nth_state(words, count).unwrap()[i] == words[i],
    decreases count,
{
    if count > 0 {
        lemma_nth_state_counts(words, (count - 1) as nat);
    }
}

/// A freshly seeded source starts with the counter at zero: every state up
/// to the last value of the counter is reached, so that the first `2^64`
/// blocks follow from the seed alone.
pub proof fn lemma_seeded_source_reaches(seed: Seq<u32>, count: nat)
    requires
        count <= u64::MAX,
    ensures
        nth_state(spec_init_state(seed), count).is_some(),
{
    lemma_nth_state_counts(spec_init_state(seed), count);
}

/// Determinism: two sources in the same state with the same bytes cached
/// hand out the same bytes and end in the same state.
pub proof fn lemma_same_state_same_output(first: ChaCha8, second: ChaCha8, wanted: nat)
    requires
        first.words() == second.words(),
        first.cache().available() == second.cache().available(),
    ensures
        spec_fill(first.words(), first.cache().available(), wanted) == spec_fill(
            second.words(),
            second.cache().available(),
            wanted,
        ),
{
}

/// A ChaCha8 based random number source: the sixteen-word cipher state and
/// a cache of the last keystream block.
pub struct ChaCha8 {
    state: [u32; 16],
    cache: EntropyBuffer<64>,
}

impl ChaCha8 {
    /// The sixteen words of the cipher state.
    pub closed spec fn words(self) -> Seq<u32> {
        self.state@
    }

    /// The cache of keystream bytes.
    pub closed spec fn cache(self) -> EntropyBuffer<64> {
        self.cache
    }

    /// Whether a read that hands out `output` takes this source to `after`.
    /// It says so for every read during which no counter is exhausted: the
    /// bytes, the state afterwards and the cache afterwards are then those
    /// of `spec_fill`. A read that runs into an exhausted counter goes on
    /// with fresh entropy, of which nothing is known.
    pub open spec fn reads(self, after: Self, output: Seq<u8>) -> bool {
        let read = spec_fill(self.words(), self.cache().available(), output.len());
        read.1.is_some() ==> {
            &&& output == read.0
            &&& after.words() == read.1.unwrap()
            &&& after.cache().available() == read.2
            &&& after.cache().bytes() == cached_block(
                self.words(),
                self.cache().bytes(),
                refills_needed(self.cache().available().len(), output.len(), 64),
            )
        }
    }

    /// Restores a source from its parts.
    pub fn from_serde(state: [u32; 16], cache: EntropyBuffer<64>) -> (restored: Self)
        ensures
            restored.words() == state@,
            restored.cache() == cache,
    {
        Self { state, cache }
    }

    /// The cipher state.
    pub fn get_state(&self) -> (state: &[u32; 16])
        ensures
            state@ == self.words(),
    {
        &self.state
    }

    /// The cache of keystream bytes.
    pub fn get_cache(&self) -> (cache: &EntropyBuffer<64>)
        ensures
            *cache == self.cache(),
    {
        &self.cache
    }

    /// Replaces the cipher state.
    pub fn update_state(&mut self, state: [u32; 16])
        ensures
            final(self).words() == state@,
            final(self).cache() == old(self).cache(),
    {
        self.state = state;
    }

    /// Creates a source from a seed, with an empty cache.
    pub fn with_seed(seed: AlignedSeed) -> (source: Self)
        ensures
            source.words() == spec_init_state(seed.0@),
            source.cache().available() == Seq::<u8>::empty(),
            source.cache().bytes() == Seq::new(64, |i: int| 0u8),
    {
        let source = Self { state: init_state(seed), cache: EntropyBuffer::new() };
        assert(source.cache.available() =~= Seq::<u8>::empty());
        source
    }

    /// Starts the source afresh from a seed and drops what was cached.
    pub fn reseed(&mut self, seed: AlignedSeed)
        ensures
            final(self).words() == spec_init_state(seed.0@),
            final(self).cache().available() == Seq::<u8>::empty(),
            final(self).cache().bytes() == Seq::new(64, |i: int| 0u8),
    {
        let state = init_state(seed);
        self.update_state(state);
        self.cache.empty_buffer();
        assert(self.cache.available() =~= Seq::<u8>::empty());
    }

    /// Produces the keystream block of the current state and advances the
    /// block counter by one. When the counter is exhausted there is no next
    /// state, and the source reseeds itself from fresh entropy instead of
    /// wrapping around: a wrapped counter would put out the same keystream
    /// again.
    pub fn generate(&mut self) -> (block: [u32; 16])
        ensures
            block@ == spec_block(old(self).words(), DOUBLE_ROUNDS as nat),
            final(self).cache() == old(self).cache(),
            match successor(old(self).words()) {
                Some(next) => final(self).words() == next,
                None => exists|seed: Seq<u32>| final(self).words() == spec_init_state(seed),
            },
    {
        let new_state = calculate_block::<DOUBLE_ROUNDS>(&self.state);
        match increment_counter(self.state) {
            Some(next) => {
                self.update_state(next);
            },
            None => {
                let seed = AlignedSeed::from(generate_entropy::<40>());
                self.update_state(init_state(seed));
            },
        }
        new_state
    }

    /// Fills `buffer` with keystream bytes: first with what is cached, then
    /// block after block. What the last block has left stays cached.
    pub fn fill(&mut self, buffer: &mut [u8])
        ensures
            final(buffer)@.len() == old(buffer)@.len(),
            old(self).reads(*final(self), final(buffer)@),
    {
        let total = buffer.len();
        let mut written: usize = 0;
        let mut exhausted = self.cache.is_empty();
        let ghost start = old(self).words();
        let ghost cached = old(self).cache().available();
        let ghost mut count: nat = 0;
        proof {
            assert(cached + keystream(start, 0) =~= cached);
            assert(self.cache.available() =~= cached.skip(0));
        }
        while written < total
            invariant
                written <= total,
                total == buffer@.len(),
                total == old(buffer)@.len(),
                start == old(self).words(),
                cached == old(self).cache().available(),
                cached.len() <= 64,
                exhausted == (self.cache.position() == 64),
                self.cache.available().len() == 64 - self.cache.position(),
                count == refills_needed(cached.len(), written as nat, 64),
                self.cache.available().len() == cached.len() + 64 * count - written,
                nth_state(start, count).is_some() ==> {
                    &&& self.state@ == nth_state(start, count).unwrap()
                    &&& self.cache.bytes() == cached_block(start, old(self).cache().bytes(), count)
                    &&& keystream(start, count).len() == 64 * count
                    &&& buffer@.take(written as int) == (cached + keystream(start, count)).take(
                        written as int,
                    )
                    &&& self.cache.available() == (cached + keystream(start, count)).skip(
                        written as int,
                    )
                },
            decreases total - written,
        {
            if exhausted {
                let block = self.generate();
                self.cache.reset_buffer(block.as_slice());
                proof {
                    assert(self.cache.available() =~= seq_le_bytes(block@));
                    if nth_state(start, count + 1).is_some() {
                        let longer = keystream(start, count + 1);
                        assert(nth_state(start, count).is_some());
                        assert(longer == keystream(start, count) + seq_le_bytes(block@));
                        assert(self.cache.available() =~= (cached + longer).skip(written as int));
                        assert((cached + longer).take(written as int) =~= (cached + keystream(
                            start,
                            count,
                        )).take(written as int));
                    }
                    count = count + 1;
                }
            }
            let ghost earlier = buffer@;
            let ghost ready = self.cache.available();
            let filled = self.cache.fill_from(buffer, written);
            proof {
                if nth_state(start, count).is_some() {
                    let all = cached + keystream(start, count);
                    assert(buffer@.take(written + filled) =~= all.take(written + filled)) by {
                        assert forall|i: int| 0 <= i < written + filled implies #[trigger] buffer@[i]
                            == all[i] by {
                            if i < written {
                                assert(buffer@[i] == earlier.take(written as int)[i]);
                                assert(all.take(written as int)[i] == all[i]);
                            } else {
                                assert(buffer@[i] == ready.take(filled as int)[i - written]);
                                assert(ready[i - written] == all.skip(written as int)[i - written]);
                            }
                        }
                    }
                    assert(self.cache.available() =~= all.skip(written + filled));
                }
            }
            written += filled;
            exhausted = self.cache.is_empty();
        }
        proof {
            assert(buffer@.take(total as int) =~= buffer@);
        }
    }

    /// Derives a new source from this one: the source puts out forty
    /// bytes, which become the seed of the new source. Neither the cipher
    /// state nor the cache is copied.
    pub fn fork(&mut self) -> (child: Self)
        ensures
            exists|seed: Seq<u8>|
                {
                    &&& seed.len() == 40
                    &&& #[trigger] old(self).reads(*final(self), seed)
                    &&& child.words() == spec_init_state(seq_le_words(seed))
                    &&& child.cache().available() == Seq::<u8>::empty()
                    &&& child.cache().bytes() == Seq::new(64, |i: int| 0u8)
                },
    {
        let seed = self.rand::<40>();
        let child = Self::with_seed(AlignedSeed::from(seed));
        assert(old(self).reads(*self, seed@));
        child
    }

    /// Clones the source by deriving a new one, as `fork` does: the raw
    /// state is never copied.
    pub fn clone(&mut self) -> (child: Self)
        ensures
            exists|seed: Seq<u8>|
                {
                    &&& seed.len() == 40
                    &&& #[trigger] old(self).reads(*final(self), seed)
                    &&& child.words() == spec_init_state(seq_le_words(seed))
                    &&& child.cache().available() == Seq::<u8>::empty()
                    &&& child.cache().bytes() == Seq::new(64, |i: int| 0u8)
                },
    {
        self.fork()
    }

    /// Returns `OUTPUT` keystream bytes.
    pub fn rand<const OUTPUT: usize>(&mut self) -> (value: [u8; OUTPUT])
        ensures
            old(self).reads(*final(self), value@),
    {
        let mut value = [0u8; OUTPUT];
        self.fill(&mut value);
        value
    }
}

impl core::fmt::Debug for ChaCha8 {
    /// Prints the type's name only, so that the state does not leak.
    fn fmt(&self, f: &mut core::fmt::Formatter<'_>) -> core::fmt::Result {
        f.write_str("ChaCha8")
    }
}

impl PartialEq for ChaCha8 {
    fn eq(&self, other: &Self) -> (equal: bool) {
        let mut i: usize = 0;
        while i < 16
            invariant
                i <= 16,
                forall|k: int| 0 <= k < i ==> self.state@[k] == other.state@[k],
            decreases 16 - i,
        {
            if self.state[i] != other.state[i] {
                return false;
            }
            i += 1;
        }
        assert(self.state@ =~= other.state@);
        self.cache == other.cache
    }
}

impl Eq for ChaCha8 {

}

impl PartialEqSpecImpl for ChaCha8 {
    open spec fn obeys_eq_spec() -> bool {
        true
    }

    open spec fn eq_spec(&self, other: &Self) -> bool {
        &&& self.words() == other.words()
        &&& self.cache().bytes() == other.cache().bytes()
        &&& self.cache().position() == other.cache().position()
    }
}

} // verus!
