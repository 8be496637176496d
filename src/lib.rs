//! Benchmark history: a parser for benchmark identifiers, a stream reader that
//! survives malformed records, and an append-only model of results over time.
pub mod bench_id;
pub mod order;
pub mod patch;
pub mod plot;
pub mod record;
pub mod stream;
pub mod text;
