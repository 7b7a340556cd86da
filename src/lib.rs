//! Portfolio allocation engine: joins a wallet ledger against market quotes,
//! aggregates holdings per asset, group and bucket, reconciles bucket targets,
//! and keeps an append-only history of snapshots queryable by time range.
//!
//! Monetary figures are floating-point values owned by the caller; the library
//! works on the keys, the joins and the orderings, and hands back plans that
//! say which inputs feed each report row.

pub mod text;
pub mod quotes;
pub mod ledger;
pub mod engine;
pub mod history;
pub mod records;
