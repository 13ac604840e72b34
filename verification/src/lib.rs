//! A prefix-completion engine. Given strings with scores it builds an index
//! that answers, for a prefix, with the strings that start with it, ranked
//! by score.
//!
//! The index is made of four structures that share one space of
//! identifiers: a front-coded dictionary of the strings, a pool of their
//! bytes and scores, a trie over their characters, and a store of postings
//! in blocks. The engines in `autocomplete` build and query them together.

pub mod autocomplete;
pub mod constants;
pub mod corpus;
pub mod dictionary;
pub mod engine;
pub mod footprint;
pub mod front_coding;
pub mod index;
pub mod parameters;
pub mod probe;
pub mod ranking;
pub mod seqs;
pub mod sort;
pub mod string_pool;
pub mod sums;
pub mod text;
pub mod trie;
pub mod types;

pub use constants::{MAX_K, MAX_NUM_CHARS_PER_QUERY, MAX_NUM_TERMS_PER_QUERY, POOL_SIZE};
pub use parameters::{LoadError, Parameters, StatsField};
pub use probe::{NopProbe, Probe, TimerProbe};
