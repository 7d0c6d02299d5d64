//! Incremental rank propagation over a directed weighted graph: canonical
//! compaction of delta lists, the proportional allocator, a per-timestamp
//! stash, and the update protocol that turns edge and rank changes into
//! net rank changes for downstream nodes.
pub mod compaction;
pub mod allocation;
pub mod engine;
pub mod stash;
pub mod summary;
