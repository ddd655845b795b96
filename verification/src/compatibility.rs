//! Shims for the `rand` crate ecosystem: wrappers that offer the methods of
//! `rand_core::RngCore` on top of a generator.
use crate::traits::GenCore;
use vstd::prelude::*;

verus! {

/// The error type of `rand_core`.
#[verifier::external_type_specification]
#[verifier::external_body]
pub struct ExRandError(rand_core::Error);

/// A wrapper around a generator that offers the methods of `RngCore`.
pub struct RandCompat<T: GenCore>(pub T);

impl<T: GenCore + Default> RandCompat<T> {
    /// Creates a wrapper around the generator that `T::default()` gives.
    pub fn new() -> (created: Self)
        ensures
            call_ensures(T::default, (), created.0),
    {
        Self(T::default())
    }
}

impl<T: GenCore> RandCompat<T> {
    /// Wraps a generator.
    pub fn from(rng: T) -> (wrapped: Self)
        ensures
            wrapped.0 == rng,
    {
        Self(rng)
    }

    /// Hands the generator back.
    pub fn into_inner(self) -> (rng: T)
        ensures
            rng == self.0,
    {
        self.0
    }

    /// Returns the next random `u32`: what `gen_u32` of the generator gives.
    pub fn next_u32(&mut self) -> (value: u32)
        ensures
            exists|r: &mut T|
                mut_ref_current(r) == old(self).0 && mut_ref_future(r) == final(self).0
                    && #[trigger] call_ensures(T::gen_u32, (r,), value),
    {
        self.0.gen_u32()
    }

    /// Returns the next random `u64`: what `gen_u64` of the generator gives.
    pub fn next_u64(&mut self) -> (value: u64)
        ensures
            exists|r: &mut T|
                mut_ref_current(r) == old(self).0 && mut_ref_future(r) == final(self).0
                    && #[trigger] call_ensures(T::gen_u64, (r,), value),
    {
        self.0.gen_u64()
    }

    /// Fills `dest` with random bytes: it does to `dest` what `fill_bytes`
    /// of the generator does.
    pub fn fill_bytes(&mut self, dest: &mut [u8])
        ensures
            final(dest)@.len() == old(dest)@.len(),
            exists|r: &mut T, b: &mut [u8]|
                mut_ref_current(r) == old(self).0 && mut_ref_future(r) == final(self).0 && b@ == old(dest)@
                    && final(b)@ == final(dest)@ && #[trigger] call_ensures(
                    T::fill_bytes,
                    (r, b),
                    (),
                ),
    {
        self.0.fill_bytes(dest);
    }

    /// Fills `dest` with random bytes: it does to `dest` what `fill_bytes`
    /// of the generator does. It never fails.
    pub fn try_fill_bytes(&mut self, dest: &mut [u8]) -> (outcome: Result<(), rand_core::Error>)
        ensures
            outcome.is_ok(),
            final(dest)@.len() == old(dest)@.len(),
            exists|r: &mut T, b: &mut [u8]|
                mut_ref_current(r) == old(self).0 && mut_ref_future(r) == final(self).0 && b@ == old(dest)@
                    && final(b)@ == final(dest)@ && #[trigger] call_ensures(
                    T::fill_bytes,
                    (r, b),
                    (),
                ),
    {
        self.0.fill_bytes(dest);
        Ok(())
    }
}

/// A wrapper around a borrowed generator that offers the methods of
/// `RngCore`. It holds the generator exclusively for as long as it lives.
pub struct RandBorrowed<'a, T: GenCore>(pub &'a mut T);

impl<'a, T: GenCore> RandBorrowed<'a, T> {
    /// Wraps a borrowed generator: what the wrapper does to the generator
    /// is done to the one that was lent.
    pub fn from(rng: &'a mut T) -> (wrapped: Self)
        ensures
            *wrapped.0 == *old(rng),
            *final(rng) == *final(wrapped.0),
    {
        Self(rng)
    }

    /// Returns the next random `u32`: what `gen_u32` of the generator gives.
    pub fn next_u32(&mut self) -> (value: u32)
        ensures
            exists|r: &mut T|
                mut_ref_current(r) == *old(self).0 && mut_ref_future(r) == *final(self).0
                    && #[trigger] call_ensures(T::gen_u32, (r,), value),
    {
        self.0.gen_u32()
    }

    /// Returns the next random `u64`: what `gen_u64` of the generator gives.
    pub fn next_u64(&mut self) -> (value: u64)
        ensures
            exists|r: &mut T|
                mut_ref_current(r) == *old(self).0 && mut_ref_future(r) == *final(self).0
                    && #[trigger] call_ensures(T::gen_u64, (r,), value),
    {
        self.0.gen_u64()
    }

    /// Fills `dest` with random bytes: it does to `dest` what `fill_bytes`
    /// of the generator does.
    pub fn fill_bytes(&mut self, dest: &mut [u8])
        ensures
            final(dest)@.len() == old(dest)@.len(),
            exists|r: &mut T, b: &mut [u8]|
                mut_ref_current(r) == *old(self).0 && mut_ref_future(r) == *final(self).0 && b@ == old(dest)@
                    && final(b)@ == final(dest)@ && #[trigger] call_ensures(
                    T::fill_bytes,
                    (r, b),
                    (),
                ),
    {
        self.0.fill_bytes(dest);
    }

    /// Fills `dest` with random bytes: it does to `dest` what `fill_bytes`
    /// of the generator does. It never fails.
    pub fn try_fill_bytes(&mut self, dest: &mut [u8]) -> (outcome: Result<(), rand_core::Error>)
        ensures
            outcome.is_ok(),
            final(dest)@.len() == old(dest)@.len(),
            exists|r: &mut T, b: &mut [u8]|
                mut_ref_current(r) == *old(self).0 && mut_ref_future(r) == *final(self).0 && b@ == old(dest)@
                    && final(b)@ == final(dest)@ && #[trigger] call_ensures(
                    T::fill_bytes,
                    (r, b),
                    (),
                ),
    {
        self.0.fill_bytes(dest);
        Ok(())
    }
}

} // verus!
