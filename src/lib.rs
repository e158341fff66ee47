//! Reconciliation of address batches against a geocode cache and a queue of pending lookups.
//!
//! A batch of addresses is folded to lower case and collapsed to distinct keys; each key is
//! resolved by the cached records, known to be invalid, or unknown. Unknown keys are queued, at
//! most once per address, for an outside worker, whose results come back as records keyed by
//! address and source.

pub mod normalize;
pub mod reconcile;
pub mod queue;
pub mod table;
pub mod report;
pub mod ingest;
pub mod engine;
