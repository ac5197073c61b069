//! Finds the most frequent contributor first name in a buffer of
//! pipe-delimited, newline-separated contribution records.
//!
//! The buffer is cut into record-aligned chunks, the chunks are tallied in
//! parallel, the tallies are merged, and the most frequent name is selected.
//! Names are never copied: every key is a slice of the caller's buffer.

pub mod aggregate;
pub mod chunk;
pub mod counts;
pub mod order;
pub mod record;
pub mod split;
pub mod tally;
