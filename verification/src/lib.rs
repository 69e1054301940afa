//! Session-based k-nearest-neighbor recommendation (the VMIS-kNN family).
//!
//! The library compares a live, growing session against a corpus of
//! historical sessions and recommends the items that the most similar
//! historical sessions contain.  It covers four stages: building the
//! recency-bounded historical index, selecting up to K neighbor sessions
//! with decay weighting, aggregating weighted item scores, and extracting
//! the top-N recommendations; plus an incremental engine that re-derives,
//! per appended interaction, only the delta of recommendation facts.
//!
//! Every score is exact: similarities and item scores are integer
//! numerators over a per-query common denominator, and the inverse
//! session-frequency weight of an item is a fixed-point binary logarithm.
//! Exact integers give scores a total order, so ranking, tie-breaking and
//! the incremental deltas are deterministic and fully specified.

pub mod config;
pub mod engine;
pub mod idf;
pub mod index;
pub mod ingest;
pub mod laws;
pub mod neighbors;
pub mod recency_heap;
pub mod scoring;
pub mod seq_util;
pub mod types;
