//! The storage of a WyRand state, for one owner or shared between threads.
use core::sync::atomic::{AtomicU64, Ordering};
use vstd::prelude::*;
use vstd::wrapping::u64_specs::wrapping_add;

verus! {

/// The storage of a WyRand state: one 64-bit value.
pub trait State: Sized {
    /// The value held.
    spec fn value(&self) -> u64;

    /// Initialises a state with a seed value.
    fn with_seed(seed: u64) -> (state: Self)
        ensures
            state.value() == seed,
    ;

    /// Returns the current state.
    fn get(&self) -> (value: u64)
        ensures
            value == self.value(),
    ;

    /// Sets the state to a new value.
    fn set(&mut self, value: u64)
        ensures
            final(self).value() == value,
    ;

    /// Adds `value` to the state, wrapping around, and returns the new
    /// state.
    fn update(&mut self, value: u64) -> (updated: u64)
        ensures
            updated == wrapping_add(old(self).value(), value),
            final(self).value() == updated,
    {
        let new_value = self.get().wrapping_add(value);
        self.set(new_value);
        new_value
    }
}

/// A state for use by one owner at a time.
#[derive(Clone, Copy, PartialEq, Eq, Structural)]
pub struct CellState(u64);

impl State for CellState {
    closed spec fn value(&self) -> u64 {
        self.0
    }

    fn with_seed(seed: u64) -> (state: Self) {
        Self(seed)
    }

    fn get(&self) -> (value: u64) {
        self.0
    }

    fn set(&mut self, value: u64) {
        self.0 = value;
    }
}

impl core::fmt::Debug for CellState {
    /// Prints the type's name only, so that the state does not leak.
    fn fmt(&self, f: &mut core::fmt::Formatter<'_>) -> core::fmt::Result {
        f.write_str("CellState")
    }
}

/// A state that several threads may share: every access is one atomic load
/// or store, sequentially consistent. Between two accesses another thread
/// may have changed the value, so nothing is promised of what a load
/// returns. What is stated of each method is which loads and stores it
/// makes.
pub struct AtomicState(AtomicU64);

impl AtomicState {
    /// The atomic cell behind the state.
    pub closed spec fn cell(&self) -> AtomicU64 {
        self.0
    }

    /// Whether the state is what `AtomicU64::new` makes of `seed`.
    pub open spec fn made_from(&self, seed: u64) -> bool {
        call_ensures(AtomicU64::new, (seed,), self.cell())
    }

    /// Whether a sequentially consistent load of the state may give
    /// `value`.
    pub open spec fn loads(&self, value: u64) -> bool {
        call_ensures(AtomicU64::load, (&self.cell(), Ordering::SeqCst), value)
    }

    /// Whether a sequentially consistent store of `value` to the state has
    /// been made.
    pub open spec fn stores(&self, value: u64) -> bool {
        call_ensures(AtomicU64::store, (&self.cell(), value, Ordering::SeqCst), ())
    }

    /// Whether an update by `value` has stored and returned `updated`: the
    /// sum, wrapping around, of `value` and of what a load gave.
    pub open spec fn updates(&self, value: u64, updated: u64) -> bool {
        exists|loaded: u64|
            #[trigger] self.loads(loaded) && updated == wrapping_add(loaded, value)
                && self.stores(updated)
    }

    /// Whether every one of `states` has been stored and returned by an
    /// update by `value`.
    pub open spec fn updates_through(&self, value: u64, states: Seq<u64>) -> bool {
        forall|i: int| 0 <= i < states.len() ==> self.updates(value, #[trigger] states[i])
    }

    /// Initialises a state with a seed value.
    pub fn with_seed(seed: u64) -> (state: Self)
        ensures
            state.made_from(seed),
    {
        Self(AtomicU64::new(seed))
    }

    /// Returns the current state: what one load gives.
    pub fn get(&self) -> (value: u64)
        ensures
            self.loads(value),
    {
        self.0.load(Ordering::SeqCst)
    }

    /// Sets the state to a new value by one store.
    pub fn set(&self, value: u64)
        ensures
            self.stores(value),
    {
        self.0.store(value, Ordering::SeqCst);
    }

    /// Adds `value` to the state as it is read, wrapping around, stores the
    /// sum and returns it.
    pub fn update(&self, value: u64) -> (updated: u64)
        ensures
            self.updates(value, updated),
    {
        let new_value = self.get().wrapping_add(value);
        self.set(new_value);
        new_value
    }
}

impl core::fmt::Debug for AtomicState {
    /// Prints the type's name only, so that the state does not leak.
    fn fmt(&self, f: &mut core::fmt::Formatter<'_>) -> core::fmt::Result {
        f.write_str("AtomicState")
    }
}

} // verus!
