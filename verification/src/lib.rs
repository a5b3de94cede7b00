//! A versioned snapshot pipeline for periodically published election results.
//!
//! Flat tabular records are normalized into a District -> Contest -> Candidate
//! tree, an aggregate fingerprint (the total vote count) decides whether
//! anything changed since the last stored snapshot, and changed result sets
//! are persisted atomically into an append-only, versioned snapshot store
//! that answers "latest" and "at a given timestamp" queries. A short-TTL
//! read-through cache shields the store from redundant "latest" reads.

pub mod cache;
pub mod cycle;
pub mod detect;
pub mod model;
pub mod normalize;
pub mod party;
pub mod percent;
pub mod query;
pub mod store;
