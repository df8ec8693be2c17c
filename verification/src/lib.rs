//! Streaming aggregation of `key;value` records.
//!
//! The library holds the verified core of a one-shot batch pipeline: a line
//! is classified (comment, malformed, or a `key;number` record), parsed
//! records are folded into a per-key running-statistics table, and once the
//! stream ends the table is sorted by key and rendered as a single summary
//! line.
//!
//! A reading's numeric value is carried through the library as an opaque
//! 32-bit encoding (`u32`). The library never does numeric conversion on
//! those encodings itself; it orders them through a fixed sign-aware total
//! order (see [`order`]) and leaves sums, means and decimal display text to
//! the caller, which hands the results back as plain values.
//!
//! The aggregate table carries its whole observation history as ghost
//! state, so its invariant can say — and its lemmas prove — that each key's
//! minimum, maximum and count are exactly those of the readings observed
//! for that key, in whatever order they arrived.

pub mod lex;
pub mod order;
pub mod parse;
pub mod render;
pub mod stats;
pub mod table;
