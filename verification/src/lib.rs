//! A bigram Markov-chain text engine: a vocabulary of interned words,
//! per-source lists of packed transition entries, an ingestion pipeline for
//! raw text and structured message streams, a boolean source selector with
//! date filtering, a weighted random-walk generator, a byte-level snapshot
//! codec, and the bookkeeping for a long-poll message feed.

pub mod append;
pub mod chain;
pub mod generate;
pub mod mashup;
pub mod poller;
pub mod selector;
pub mod snapshot;
pub mod vocab;
