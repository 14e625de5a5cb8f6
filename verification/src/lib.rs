//! A verified structural diff engine for content-addressed tree objects.
//!
//! Given two directory snapshots (trees of named entries identified by
//! content hash), the engine computes the additions, deletions and
//! modifications needed to transform one into the other, recursing into
//! sub-trees fetched on demand from an object store.

pub mod changes;
pub mod hash;
pub mod laws;
pub mod record;
pub mod revision;
pub mod store;
pub mod tree;
