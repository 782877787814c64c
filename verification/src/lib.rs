//! Locates candidate project directories under configured roots and ranks
//! them by recency of access.
//!
//! The two load-bearing pieces are the discovery resolver, a deduplicating
//! worklist walk over directories and git metadata, and the bounded recency
//! cache, a fixed-capacity map from project path to last-access time with
//! least-recently-used eviction.

pub mod access_cache;
pub mod config;
pub mod discover;
pub mod session;
