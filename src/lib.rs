//! Short, reversible textual identifiers for non-negative integers.
//!
//! An [`AlphaId`] turns an unsigned integer into a little-endian numeral over
//! a configurable alphabet, with an optional minimum length (the pad), and
//! turns such a numeral back into the integer. Padding adds the base to the
//! power `pad - 1` before writing, which both lengthens short encodings and
//! shifts the digit at the pad's last position; decoding takes it back.
pub mod codec;
pub mod config;
pub mod integer;
pub mod laws;
pub mod numeral;

pub use codec::AlphaId;
pub use config::{AlphaIdError, Builder};
pub use integer::UnsignedInteger;
