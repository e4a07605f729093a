//! Aggregates terminal color scheme records from many sources into one
//! canonical, deduplicated, versioned catalog.
//!
//! The crate holds the verified core: a TTL-aware cache store, the fetch
//! decision logic, and the merge/dedup engine that reconciles candidate
//! scheme records into an identity-stable registry.

pub mod cache;
pub mod fetch;
pub mod registry;
pub mod scheme;
pub mod text;
