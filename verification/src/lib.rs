//! An opening book: per-position move-outcome statistics for chess games,
//! aggregated from replayed game records and kept in a durable keyed store.
//!
//! - [`stats`] — the record data model and its commutative, associative
//!   merge.
//! - [`codec`] — the versioned binary form of a record, round-trip exact.
//! - [`hasher`] — the 64-bit position identity, a pure function of the
//!   board state.
//! - [`store`] — the durable map from identity to record, with atomic
//!   merge-on-write.
//! - [`pipeline`] — per-game replay state fed by tokenizer events, and the
//!   batch aggregator that is flushed to the store.

pub mod codec;
pub mod hasher;
pub mod pipeline;
pub mod stats;
pub mod store;
