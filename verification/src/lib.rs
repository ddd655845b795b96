//! Fast random number generators.
//!
//! Two byte-stream sources, WyRand (fast, not cryptographic) and ChaCha8 (a
//! reduced-round ChaCha keystream used as a CSPRNG), share one sampling
//! layer: unbiased bounded integers, characters, shuffles and weighted
//! selections, all derived from raw generator output.
//!
//! * [`rng`] and [`chacha_rng`] hold the generators, [`source`] the sources
//!   behind them and [`internal`] their building blocks: the state storage,
//!   the block cache and the dealer of swap positions.
//! * [`traits`] holds the traits that a generator implements and the
//!   sampling methods that every generator gets from them.
//! * [`lemire`] and [`bounds`] hold what the sampling methods compute from
//!   a raw draw: the mapping of a draw onto a range, and the resolution of
//!   range bounds.
//! * [`entropy`] supplies fresh seed material, and [`compatibility`] the
//!   wrappers for the `rand` ecosystem.
//!
//! `Rng` and `ChaChaRng` are functions of their seed: their contracts state
//! the bytes that a seed gives, byte for byte. A sampling method states
//! which draws of the generator its result comes from, what it makes of
//! them, and the states that the generator goes through on the way.
pub mod bounds;
pub mod bytes;
pub mod chacha_rng;
pub mod compatibility;
pub mod entropy;
pub mod internal;
pub mod lemire;
pub mod prelude;
pub mod rng;
pub mod source;
pub mod traits;

pub use traits::{ForkableCore, GenCore, SecureCore, SeededCore, TurboCore, TurboKind, TurboRand};
