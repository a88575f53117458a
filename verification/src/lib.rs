//! Ingestion engine: a persistent content-addressed store keyed by file
//! fingerprints, an interruption-safe execution model, and the dispatch
//! logic that feeds candidate files through dedup policy, a filesize
//! ceiling, and per-file hook invocation.

pub mod cli;
pub mod dispatch;
pub mod listing;
pub mod signal;
pub mod store;
