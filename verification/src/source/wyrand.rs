//! The WyRand random number source.
use crate::bytes::{le_bytes, lemma_u64_le_round_trip, u64_from_le_bytes, u64_to_le_bytes};
use crate::internal::state::{AtomicState, CellState, State};
use core::fmt::Debug;
use vstd::prelude::*;
use vstd::wrapping::u64_specs::wrapping_add;

verus! {

/// The constant added to the state at every step.
pub const INCREMENT: u64 = 0xa076_1d64_78bd_642f;

/// The constant that the state is xored with before the multiplication.
pub const MIXER: u64 = 0xe703_7ed1_a0b4_28db;

/// The output of a state: the state is multiplied with its xor against
/// `MIXER` to a 128-bit product, whose two halves are xored together.
pub open spec fn spec_mix(state: u64) -> u64 {
    let product = (state as int) * ((state ^ MIXER) as int);
    ((product / 0x1_0000_0000_0000_0000) as u64) ^ ((product % 0x1_0000_0000_0000_0000) as u64)
}

/// The state after `steps` steps.
pub open spec fn nth_state(state: u64, steps: nat) -> u64
    decreases steps,
{
    if steps == 0 {
        state
    } else {
        wrapping_add(nth_state(state, (steps - 1) as nat), INCREMENT)
    }
}

/// The bytes of the first `steps` outputs that follow from `state`, each
/// output written least significant byte first.
pub open spec fn output_bytes(state: u64, steps: nat) -> Seq<u8>
    decreases steps,
{
    if steps == 0 {
        Seq::empty()
    } else {
        output_bytes(state, (steps - 1) as nat) + le_bytes(
            spec_mix(nth_state(state, steps)) as nat,
            8,
        )
    }
}

/// The outputs of the given states in a row, each output written least
/// significant byte first.
pub open spec fn outputs_of(states: Seq<u64>) -> Seq<u8>
    decreases states.len(),
{
    if states.len() == 0 {
        Seq::empty()
    } else {
        outputs_of(states.drop_last()) + le_bytes(spec_mix(states.last()) as nat, 8)
    }
}

/// The outputs of states take up eight bytes each.
pub proof fn lemma_outputs_of_len(states: Seq<u64>)
    ensures
        outputs_of(states).len() == 8 * states.len(),
    decreases states.len(),
{
    if states.len() > 0 {
        lemma_outputs_of_len(states.drop_last());
    }
}

/// The number of steps that filling `len` bytes takes: one for every eight
/// bytes, and one more for what is left.
pub open spec fn steps_for(len: nat) -> nat {
    (len + 7) / 8
}

/// The first `steps` outputs take up eight bytes each.
pub proof fn lemma_output_bytes_len(state: u64, steps: nat)
    ensures
        output_bytes(state, steps).len() == 8 * steps,
    decreases steps,
{
    if steps > 0 {
        lemma_output_bytes_len(state, (steps - 1) as nat);
    }
}

/// Taking `first` steps and then `second` more is taking them all at once.
pub proof fn lemma_nth_state_add(state: u64, first: nat, second: nat)
    ensures
        nth_state(state, first + second) == nth_state(nth_state(state, first), second),
    decreases second,
{
    if second > 0 {
        lemma_nth_state_add(state, first, (second - 1) as nat);
    }
}

/// The outputs of `first + second` steps are the outputs of the first
/// steps followed by the outputs that the state after them gives.
pub proof fn lemma_output_bytes_add(state: u64, first: nat, second: nat)
    ensures
        output_bytes(state, first + second) == output_bytes(state, first) + output_bytes(
            nth_state(state, first),
            second,
        ),
    decreases second,
{
    let middle = nth_state(state, first);
    if second == 0 {
        assert(output_bytes(state, first) + output_bytes(middle, 0) =~= output_bytes(state, first));
    } else {
        lemma_output_bytes_add(state, first, (second - 1) as nat);
        lemma_nth_state_add(state, first, second);
        let last = le_bytes(spec_mix(nth_state(state, first + second)) as nat, 8);
        assert(output_bytes(state, first + second) == output_bytes(
            state,
            (first + second - 1) as nat,
        ) + last);
        assert(output_bytes(middle, second) == output_bytes(middle, (second - 1) as nat)
            + last);
        assert(output_bytes(state, first) + (output_bytes(middle, (second - 1) as nat) + last)
            =~= (output_bytes(state, first) + output_bytes(middle, (second - 1) as nat)) + last);
    }
}

/// Fills concatenate where the first one ends on a whole output: a fill of
/// `8 * words` bytes followed by a fill of `rest` bytes hands out the same
/// bytes as one fill of `8 * words + rest` bytes.
pub proof fn lemma_fills_concatenate(state: u64, words: nat, rest: nat)
    ensures
        steps_for(8 * words + rest) == words + steps_for(rest),
        output_bytes(state, steps_for(8 * words + rest)).take((8 * words + rest) as int)
            == output_bytes(state, steps_for(8 * words)).take((8 * words) as int) + output_bytes(
            nth_state(state, steps_for(8 * words)),
            steps_for(rest),
        ).take(rest as int),
{
    lemma_output_bytes_add(state, words, steps_for(rest));
    lemma_output_bytes_len(state, words);
    lemma_output_bytes_len(nth_state(state, words), steps_for(rest));
    let head = output_bytes(state, words);
    let tail = output_bytes(nth_state(state, words), steps_for(rest));
    assert(head.take((8 * words) as int) =~= head);
    assert((head + tail).take((8 * words + rest) as int) =~= head + tail.take(rest as int));
}

/// Determinism: two sources in the same state hand out the same bytes and
/// end in the same state.
pub proof fn lemma_same_state_same_output<S: State>(first: WyRand<S>, second: WyRand<S>, len: nat)
    requires
        first.value() == second.value(),
    ensures
        output_bytes(first.value(), steps_for(len)).take(len as int) == output_bytes(
            second.value(),
            steps_for(len),
        ).take(len as int),
        nth_state(first.value(), steps_for(len)) == nth_state(second.value(), steps_for(len)),
{
}

/// Computes the output of a state.
pub fn mix(state: u64) -> (output: u64)
    ensures
        output == spec_mix(state),
{
    let left = state as u128;
    let right = (state ^ MIXER) as u128;
    assert(left * right <= 0xffff_ffff_ffff_ffff * 0xffff_ffff_ffff_ffff) by (nonlinear_arith)
        requires
            0 <= left <= 0xffff_ffff_ffff_ffff,
            0 <= right <= 0xffff_ffff_ffff_ffff,
    ;
    let product: u128 = left * right;
    let high = (product / 0x1_0000_0000_0000_0000) as u64;
    let low = (product % 0x1_0000_0000_0000_0000) as u64;
    high ^ low
}

/// A WyRand random number source over a state storage `S`.
#[derive(PartialEq, Eq, Structural)]
pub struct WyRand<S = CellState> {
    state: S,
}

impl<S: State> WyRand<S> {
    /// The state held.
    pub closed spec fn value(self) -> u64 {
        self.state.value()
    }

    /// Creates a source with the given state.
    pub fn with_seed(seed: u64) -> (source: Self)
        ensures
            source.value() == seed,
    {
        Self { state: S::with_seed(seed) }
    }

    /// Sets the state of the source.
    pub fn reseed(&mut self, seed: u64)
        ensures
            final(self).value() == seed,
    {
        self.state.set(seed);
    }

    /// The state held.
    pub fn get_state(&self) -> (state: u64)
        ensures
            state == self.value(),
    {
        self.state.get()
    }

    /// Takes one step: advances the state by `INCREMENT` and returns the
    /// output of the new state as eight bytes, least significant first.
    pub fn generate(&mut self) -> (output: [u8; 8])
        ensures
            final(self).value() == wrapping_add(old(self).value(), INCREMENT),
            final(self).value() == nth_state(old(self).value(), 1),
            output@ == le_bytes(spec_mix(final(self).value()) as nat, 8),
            output@ == output_bytes(old(self).value(), 1),
    {
        let state = self.state.update(INCREMENT);
        let output = u64_to_le_bytes(mix(state));
        proof {
            reveal_with_fuel(nth_state, 2);
            reveal_with_fuel(output_bytes, 2);
            assert(Seq::<u8>::empty() + output@ =~= output@);
        }
        output
    }

    /// Returns `SIZE` random bytes.
    pub fn rand<const SIZE: usize>(&mut self) -> (output: [u8; SIZE])
        ensures
            final(self).value() == nth_state(old(self).value(), steps_for(SIZE as nat)),
            output@ == output_bytes(old(self).value(), steps_for(SIZE as nat)).take(SIZE as int),
    {
        let mut output = [0u8; SIZE];
        self.fill(&mut output);
        output
    }

    /// Fills `buffer` with random bytes: eight from every step, and from
    /// the last step as many as are still missing.
    pub fn fill(&mut self, buffer: &mut [u8])
        ensures
            final(buffer)@.len() == old(buffer)@.len(),
            final(self).value() == nth_state(old(self).value(), steps_for(old(buffer)@.len())),
            final(buffer)@ == output_bytes(old(self).value(), steps_for(old(buffer)@.len())).take(
                old(buffer)@.len() as int,
            ),
    {
        let total = buffer.len();
        let mut written: usize = 0;
        let ghost start = self.value();
        let ghost mut steps: nat = 0;
        while total - written >= 8
            invariant
                written <= total,
                total == buffer@.len(),
                total == old(buffer)@.len(),
                start == old(self).value(),
                written == 8 * steps,
                self.value() == nth_state(start, steps),
                buffer@.take(written as int) == output_bytes(start, steps),
            decreases total - written,
        {
            let input = self.generate();
            let ghost earlier = buffer@;
            let mut i: usize = 0;
            while i < 8
                invariant
                    i <= 8,
                    written + 8 <= total,
                    total == buffer@.len(),
                    total == earlier.len(),
                    forall|k: int| 0 <= k < written ==> buffer@[k] == earlier[k],
                    forall|k: int| written <= k < written + i ==> buffer@[k] == input@[k - written],
                decreases 8 - i,
            {
                buffer[written + i] = input[i];
                i += 1;
            }
            proof {
                assert(nth_state(start, steps + 1) == self.value());
                assert(buffer@.take(written + 8) =~= output_bytes(start, steps + 1)) by {
                    assert forall|k: int| 0 <= k < written + 8 implies #[trigger] buffer@[k]
                        == output_bytes(start, steps + 1)[k] by {
                        if k < written {
                            assert(earlier.take(written as int)[k] == earlier[k]);
                        }
                    }
                }
                steps = steps + 1;
            }
            written += 8;
        }
        if written < total {
            let input = self.generate();
            let ghost earlier = buffer@;
            let fill = total - written;
            let mut i: usize = 0;
            while i < fill
                invariant
                    i <= fill,
                    fill < 8,
                    written + fill == total,
                    total == buffer@.len(),
                    total == earlier.len(),
                    forall|k: int| 0 <= k < written ==> buffer@[k] == earlier[k],
                    forall|k: int| written <= k < written + i ==> buffer@[k] == input@[k - written],
                decreases fill - i,
            {
                buffer[written + i] = input[i];
                i += 1;
            }
            proof {
                assert(nth_state(start, steps + 1) == self.value());
                assert(buffer@ =~= output_bytes(start, steps + 1).take(total as int)) by {
                    assert forall|k: int| 0 <= k < total implies #[trigger] buffer@[k]
                        == output_bytes(start, steps + 1)[k] by {
                        if k < written {
                            assert(earlier.take(written as int)[k] == earlier[k]);
                        }
                    }
                }
            }
        } else {
            proof {
                assert(buffer@.take(total as int) =~= buffer@);
                assert(output_bytes(start, steps).take(total as int) =~= output_bytes(start, steps));
            }
        }
    }

    /// Derives a new source from this one: the source takes one step, and
    /// the output of that step becomes the state of the new source. The two
    /// states differ unless the source has stepped onto a state that is its
    /// own output.
    pub fn fork(&mut self) -> (child: Self)
        ensures
            final(self).value() == wrapping_add(old(self).value(), INCREMENT),
            child.value() == spec_mix(final(self).value()),
            spec_mix(final(self).value()) != final(self).value() ==> child.value()
                != final(self).value(),
    {
        let output = self.generate();
        proof {
            lemma_u64_le_round_trip(spec_mix(self.value()));
        }
        Self::with_seed(u64_from_le_bytes(output))
    }

    /// Clones the source by deriving a new one, as `fork` does: the raw
    /// state is never copied. The source takes one step, and the output of
    /// that step becomes the state of the clone.
    pub fn clone(&mut self) -> (child: Self)
        ensures
            final(self).value() == wrapping_add(old(self).value(), INCREMENT),
            child.value() == spec_mix(final(self).value()),
            spec_mix(final(self).value()) != final(self).value() ==> child.value()
                != final(self).value(),
    {
        self.fork()
    }
}

impl WyRand<AtomicState> {
    /// The storage of the state.
    pub closed spec fn storage(self) -> AtomicState {
        self.state
    }

    /// Creates a source with the given state.
    pub fn with_seed(seed: u64) -> (source: Self)
        ensures
            source.storage().made_from(seed),
    {
        Self { state: AtomicState::with_seed(seed) }
    }

    /// Sets the state of the source by one store.
    pub fn reseed(&self, seed: u64)
        ensures
            self.storage().stores(seed),
    {
        self.state.set(seed);
    }

    /// The state held, as one load gives it.
    pub fn get_state(&self) -> (state: u64)
        ensures
            self.storage().loads(state),
    {
        self.state.get()
    }

    /// Takes one step: advances the state by `INCREMENT` and returns the
    /// output of the new state as eight bytes, least significant first.
    /// Other holders of the state may step in between, so that the state is
    /// known to this call alone: the bytes are the output of some state.
    pub fn generate(&self) -> (output: [u8; 8])
        ensures
            exists|state: u64|
                #[trigger] self.storage().updates(INCREMENT, state) && output@ == le_bytes(
                    spec_mix(state) as nat,
                    8,
                ),
    {
        let state = self.state.update(INCREMENT);
        let output = u64_to_le_bytes(mix(state));
        assert(self.storage().updates(INCREMENT, state));
        output
    }

    /// Returns `SIZE` random bytes: eight from every step, and from the
    /// last step as many as are still missing.
    pub fn rand<const SIZE: usize>(&self) -> (output: [u8; SIZE])
        ensures
            exists|states: Seq<u64>|
                {
                    &&& states.len() == steps_for(SIZE as nat)
                    &&& self.storage().updates_through(INCREMENT, states)
                    &&& output@ == #[trigger] outputs_of(states).take(SIZE as int)
                },
    {
        let mut output = [0u8; SIZE];
        self.fill(&mut output);
        output
    }

    /// Fills `buffer` with random bytes: eight from every step, and from
    /// the last step as many as are still missing. Each step puts out the
    /// output of the state that it stored.
    pub fn fill(&self, buffer: &mut [u8])
        ensures
            final(buffer)@.len() == old(buffer)@.len(),
            exists|states: Seq<u64>|
                {
                    &&& states.len() == steps_for(old(buffer)@.len())
                    &&& self.storage().updates_through(INCREMENT, states)
                    &&& final(buffer)@ == #[trigger] outputs_of(states).take(
                        old(buffer)@.len() as int,
                    )
                },
    {
        let total = buffer.len();
        let mut written: usize = 0;
        let ghost mut states: Seq<u64> = Seq::empty();
        while written < total
            invariant
                written <= total,
                total == buffer@.len(),
                states.len() == steps_for(written as nat),
                written == 8 * states.len() || written == total,
                self.storage().updates_through(INCREMENT, states),
                buffer@.take(written as int) == outputs_of(states).take(written as int),
            decreases total - written,
        {
            let input = self.generate();
            let ghost earlier = buffer@;
            let ghost state = choose|state: u64|
                #[trigger] self.storage().updates(INCREMENT, state) && input@ == le_bytes(
                    spec_mix(state) as nat,
                    8,
                );
            let left = total - written;
            let fill = if left < 8 {
                left
            } else {
                8
            };
            let mut i: usize = 0;
            while i < fill
                invariant
                    i <= fill,
                    fill <= 8,
                    written + fill <= total,
                    total == buffer@.len(),
                    total == earlier.len(),
                    forall|k: int| 0 <= k < written ==> buffer@[k] == earlier[k],
                    forall|k: int| written <= k < written + i ==> buffer@[k] == input@[k - written],
                decreases fill - i,
            {
                buffer[written + i] = input[i];
                i += 1;
            }
            proof {
                let longer = states.push(state);
                lemma_outputs_of_len(states);
                assert(longer.drop_last() =~= states);
                assert(outputs_of(longer) == outputs_of(states) + input@);
                assert(buffer@.take(written + fill) =~= outputs_of(longer).take(written + fill))
                    by {
                    assert forall|k: int| 0 <= k < written + fill implies #[trigger] buffer@[k]
                        == outputs_of(longer)[k] by {
                        if k < written {
                            assert(earlier.take(written as int)[k] == earlier[k]);
                            assert(outputs_of(states).take(written as int)[k] == outputs_of(
                                states,
                            )[k]);
                        }
                    }
                }
                states = longer;
            }
            written += fill;
        }
        proof {
            assert(buffer@.take(total as int) =~= buffer@);
        }
    }
}

impl core::fmt::Debug for WyRand<CellState> {
    /// Prints the names of the source and of its storage, not the state.
    fn fmt(&self, f: &mut core::fmt::Formatter<'_>) -> core::fmt::Result {
        match f.write_str("WyRand(") {
            Ok(_) => {},
            Err(error) => {
                return Err(error);
            },
        }
        match self.state.fmt(f) {
            Ok(_) => {},
            Err(error) => {
                return Err(error);
            },
        }
        f.write_str(")")
    }
}

impl core::fmt::Debug for WyRand<AtomicState> {
    /// Prints the names of the source and of its storage, not the state.
    fn fmt(&self, f: &mut core::fmt::Formatter<'_>) -> core::fmt::Result {
        match f.write_str("WyRand(") {
            Ok(_) => {},
            Err(error) => {
                return Err(error);
            },
        }
        match self.state.fmt(f) {
            Ok(_) => {},
            Err(error) => {
                return Err(error);
            },
        }
        f.write_str(")")
    }
}

} // verus!
