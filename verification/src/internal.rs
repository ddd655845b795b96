//! The building blocks that the generators are made of.
pub mod buffer;
pub mod fmt;
pub mod state;
pub mod uniform;
