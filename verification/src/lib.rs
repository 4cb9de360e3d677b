//! Alignment-preserving text normalization.
//!
//! A normalized string keeps, for every character of the text as it now is,
//! the range of bytes of the text as it first was that the character comes
//! from. The operations of this crate change the text and keep that record
//! true.

pub mod alignment;
pub mod error;
pub mod handle;
pub mod laws;
pub mod normalized;
pub mod offsets;
pub mod pattern;
pub mod range;
pub mod replace;
pub mod split;
pub mod unicode;
