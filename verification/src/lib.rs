//! Incremental state reconciliation for repository issues and pull requests.
//!
//! The library fetches nothing itself: callers hand it the pages and item
//! details they retrieved, and it decides what to keep, how to classify each
//! item, and how the persisted status buckets move, with those decisions
//! stated in contracts and proved.

pub mod byteseq;
pub mod codec;
pub mod dates;
pub mod db;
pub mod engine;
pub mod keys;
pub mod store;
pub mod types;
pub mod window;
