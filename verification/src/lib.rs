//! A proximity graph over a pre-built hierarchical clustering tree.
//!
//! The tree itself is built elsewhere; this crate reads per-cluster values
//! (offset, cardinality, depth, radius, feature ratios) through the plain
//! [`cluster::Cluster`] record, selects a non-overlapping frontier of
//! clusters, connects overlapping clusters by edges, and analyzes the
//! resulting graph: connected components, traversal statistics, and a
//! discrete random-walk approximation of per-cluster stationary
//! probabilities.

pub mod builder;
pub mod cluster;
pub mod component;
pub mod criteria;
pub mod dataset;
pub mod edge;
pub mod errors;
pub mod flatten;
pub mod graph;
pub mod reach;
pub mod stationary;
