//! Suggestion graph store: per-bucket ordered term sets with a pending
//! journal of insertions and deletions, merged into a fresh set on
//! consolidation.
pub mod terms;
pub mod key;
pub mod outside;
pub mod journal;
pub mod register;
pub mod graph;
pub mod action;
pub mod consolidate;
pub mod pool;
pub mod dump;
pub mod laws;
