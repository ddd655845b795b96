//! Convenience re-export of common traits, structs and utils.
pub use crate::bounds::Bound;
pub use crate::chacha_rng::ChaChaRng;
pub use crate::compatibility::{RandBorrowed, RandCompat};
pub use crate::rng::{AtomicRng, Rng};
pub use crate::traits::{
    ForkableCore, GenCore, SecureCore, SeededCore, TurboCore, TurboKind, TurboRand,
};
