//! Verified core of an image viewer: a bounded, invalidation-aware cache of
//! image metadata with least-recently-used eviction, and the small rules of
//! folder browsing and recent-session bookkeeping around it.

pub mod metadata_cache;
pub mod catalog;
pub mod sessions;
