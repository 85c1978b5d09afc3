//! Verified core of a streaming top-of-book market-data client.
//!
//! The library models prices and quantities as fixed-point integers
//! (scaled by `10^8`), parses the decimal text fields of quote updates,
//! and maintains per-instrument snapshots and a bounded rolling history
//! from which periodic cross-instrument summaries are derived.

pub mod decimal;
pub mod engine;
pub mod history;
pub mod json;
pub mod quote;
pub mod url;
