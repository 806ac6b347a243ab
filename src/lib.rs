//! Inference of a probabilistic schema from a stream of structured documents.
//!
//! `value` holds the document trees, `sample` the bounded value samples,
//! `stats` the per-path and per-kind accumulators, `parser` the engine that
//! ingests documents and takes snapshots, and `laws` what holds across calls.
pub mod laws;
pub mod parser;
pub mod sample;
pub mod stats;
pub mod value;
