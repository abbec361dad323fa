//! Buffer-management layer of a disk-backed page store.
//!
//! The crate mediates between a fixed number of in-memory frames and a
//! durable page store addressed by logical page identifiers.  Pages are
//! fetched into frames on demand, kept resident while pinned, and the
//! least-recently-used evictable page is evicted when the pool is full.
//! A pinned page is never chosen as an eviction victim, and a dirty page
//! is flushed to the store before its frame is reused.

pub mod buffer;
pub mod error;
pub mod storage;
