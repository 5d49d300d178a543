//! Errors surfaced by the checked entry points of the graph types.

use vstd::prelude::*;

verus! {

/// A membership error: a query named a cluster that the queried structure
/// does not hold.
#[derive(Clone, Copy, Debug, PartialEq, Eq)]
pub enum GraphError {
    /// The named cluster is not a member of the graph.
    UnknownCluster,
    /// The named cluster is not an endpoint of the edge.
    UnrelatedCluster,
}

impl GraphError {
    /// A short description of the error.
    pub fn message(&self) -> (r: &'static str) {
        match self {
            GraphError::UnknownCluster => "the cluster is not in this graph",
            GraphError::UnrelatedCluster => "the cluster is not in this edge",
        }
    }
}

} // verus!
