//! Per-guild text corpora sampled from chat messages, and text generated
//! from a Markov chain of fixed order built over such a corpus.

pub mod state_cache;
pub mod text;
pub mod random;
pub mod corpus;
pub mod chain;
pub mod backfill;
pub mod service;
