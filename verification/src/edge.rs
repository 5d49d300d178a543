//! An edge between two overlapping clusters.

use vstd::prelude::*;

use crate::cluster::Cluster;
use crate::errors::GraphError;

verus! {

/// An undirected edge between two clusters whose metric balls overlap,
/// labelled with the distance between their centers.
///
/// The endpoint pair is canonicalized on construction: `left` never exceeds
/// `right` under the identity-key order, so the edge `{a, b}` is stored the
/// same way as `{b, a}`.  Equality compares only the endpoints' identity
/// keys: two edges between the same pair are the same edge, whatever
/// distance each reports.
#[derive(Clone, Copy, Debug)]
pub struct Edge {
    /// The endpoint with the smaller identity key.
    pub left: Cluster,
    /// The endpoint with the larger identity key.
    pub right: Cluster,
    /// The distance between the centers of the two endpoints.
    pub distance: u64,
}

impl PartialEq for Edge {
    fn eq(&self, o: &Edge) -> (r: bool) {
        self.left.has_same_key(&o.left) && self.right.has_same_key(&o.right)
    }
}

impl Eq for Edge {

}

impl vstd::std_specs::cmp::PartialEqSpecImpl for Edge {
    open spec fn obeys_eq_spec() -> bool {
        true
    }

    open spec fn eq_spec(&self, o: &Edge) -> bool {
        self.left.same_key(o.left) && self.right.same_key(o.right)
    }
}

/// The canonical edge between `a` and `b` at distance `d`.
pub open spec fn edge_spec(a: Cluster, b: Cluster, d: u64) -> Edge {
    if a.key_le(b) {
        Edge { left: a, right: b, distance: d }
    } else {
        Edge { left: b, right: a, distance: d }
    }
}

impl Edge {
    /// A well-formed edge stores its endpoints in canonical order.
    pub open spec fn wf(self) -> bool {
        self.left.key_le(self.right)
    }

    /// Whether the edge joins the two given clusters, in either order.
    pub open spec fn joins(self, a: Cluster, b: Cluster) -> bool {
        (self.left.same_key(a) && self.right.same_key(b))
            || (self.left.same_key(b) && self.right.same_key(a))
    }

    /// Creates the edge between `a` and `b`, putting the endpoints in
    /// canonical order.
    pub fn new(a: Cluster, b: Cluster, distance: u64) -> (r: Edge)
        ensures
            r == edge_spec(a, b, distance),
            r.wf(),
            r.distance == distance,
            r.joins(a, b),
    {
        if a.offset < b.offset || (a.offset == b.offset && a.cardinality <= b.cardinality) {
            Edge { left: a, right: b, distance }
        } else {
            Edge { left: b, right: a, distance }
        }
    }

    /// Whether the given cluster is one of the edge's endpoints.
    pub fn contains(&self, c: &Cluster) -> (r: bool)
        ensures
            r == (self.left.same_key(*c) || self.right.same_key(*c)),
    {
        self.left.has_same_key(c) || self.right.has_same_key(c)
    }

    /// The two endpoints of the edge, left first.
    pub fn clusters(&self) -> (r: (Cluster, Cluster))
        ensures
            r == (self.left, self.right),
    {
        (self.left, self.right)
    }

    /// Whether the edge joins a cluster to itself.
    pub fn is_circular(&self) -> (r: bool)
        ensures
            r == self.left.same_key(self.right),
    {
        self.left.has_same_key(&self.right)
    }

    /// The endpoint opposite to `c`, or an error if `c` is not an endpoint.
    pub fn neighbor(&self, c: &Cluster) -> (r: Result<Cluster, GraphError>)
        ensures
            self.left.same_key(*c) ==> r == Result::<Cluster, GraphError>::Ok(self.right),
            !self.left.same_key(*c) && self.right.same_key(*c) ==> r == Result::<
                Cluster,
                GraphError,
            >::Ok(self.left),
            !self.left.same_key(*c) && !self.right.same_key(*c) ==> r == Result::<
                Cluster,
                GraphError,
            >::Err(GraphError::UnrelatedCluster),
    {
        if self.left.has_same_key(c) {
            Ok(self.right)
        } else if self.right.has_same_key(c) {
            Ok(self.left)
        } else {
            Err(GraphError::UnrelatedCluster)
        }
    }
}

} // verus!
