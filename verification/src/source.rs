//! The byte-stream sources behind the generators.
pub mod chacha;
pub mod wyrand;
