//! A region-partition and transition-tracking engine.
//!
//! The library models axis-aligned, half-open, N-dimensional integer
//! intervals ([`region::Region`]) and tracks per-sub-region state over a
//! resource's addressable domain.  A [`partition::Partition`] keeps a set of
//! pairwise-disjoint regions, each carrying a value, and re-partitions itself
//! as new regions with access requirements arrive.  A
//! [`resource_state::HistoryTracker`] keeps the history of state changes as a
//! chain of records and supports update (read) and override (write) passes
//! that consult a pluggable [`resource_state::TransitionSystem`].

pub mod commands;
pub mod features;
pub mod id;
pub mod instance;
pub mod memory;
pub mod ops_compile;
pub mod partition;
pub mod placeholder_objects;
pub mod region;
pub mod resource_state;
pub mod shader;
