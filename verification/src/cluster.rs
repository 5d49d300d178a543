//! The per-cluster record that the rest of the crate works on.

use vstd::prelude::*;

verus! {

/// The number of ratio features carried by every cluster.
pub const RATIO_COUNT: usize = 6;

/// The ratio features of one cluster, consumed by the anomaly-scoring
/// ensemble.
pub type Ratios = [u64; 6];

/// The largest radius a well-formed cluster may report; two such radii can be
/// added without overflowing a `u64`.
pub const MAX_RADIUS: u64 = 0x7fff_ffff_ffff_ffff;

/// A lightweight handle to one cluster (metric ball) of a hierarchical
/// clustering tree.
///
/// The tree is built and owned elsewhere; this subsystem only reads
/// per-cluster values, so a cluster is carried as plain data.  The pair
/// `(offset, cardinality)` identifies a cluster uniquely within one tree and
/// serves as its identity key.
#[derive(Clone, Copy, Debug, PartialEq, Eq)]
pub struct Cluster {
    /// Index of the cluster's first instance in the tree's reordered dataset.
    pub offset: usize,
    /// Number of instances inside the cluster.
    pub cardinality: usize,
    /// Number of edges from the root of the tree to this cluster.
    pub depth: usize,
    /// Radius of the cluster under the dataset's metric.
    pub radius: u64,
    /// Index of the instance at the geometric center of the cluster.
    pub arg_center: usize,
    /// Whether the cluster is a leaf of the tree.
    pub is_leaf: bool,
    /// Ratio features used by the anomaly-scoring ensemble.
    pub ratios: Ratios,
    /// Accumulated child-parent cardinality ratio of the cluster.
    pub accumulated_cp_car_ratio: u64,
}

impl Cluster {
    /// A well-formed cluster indexes a real slice of the dataset: it holds at
    /// least one instance, its index span does not wrap around, and its
    /// radius leaves room for one more radius in a `u64`.
    pub open spec fn wf(self) -> bool {
        &&& 1 <= self.cardinality
        &&& self.offset + self.cardinality <= usize::MAX
        &&& self.radius <= MAX_RADIUS
    }

    /// Two handles name the same tree node exactly when their identity keys
    /// agree.
    pub open spec fn same_key(self, other: Cluster) -> bool {
        self.offset == other.offset && self.cardinality == other.cardinality
    }

    /// Total order over identity keys, used to canonicalize edges.
    pub open spec fn key_le(self, other: Cluster) -> bool {
        self.offset < other.offset || (self.offset == other.offset
            && self.cardinality <= other.cardinality)
    }

    /// `self` is a strict ancestor of `other`: it sits strictly closer to the
    /// root and its span of instance indices encloses the span of `other`.
    pub open spec fn ancestor_spec(self, other: Cluster) -> bool {
        &&& self.depth < other.depth
        &&& self.offset <= other.offset
        &&& other.offset + other.cardinality <= self.offset + self.cardinality
    }

    /// Two clusters are related when one contains the other.
    pub open spec fn related(self, other: Cluster) -> bool {
        self.ancestor_spec(other) || other.ancestor_spec(self)
    }

    /// Whether `self` is a strict ancestor of `other` in the tree.
    pub fn is_ancestor_of(&self, other: &Cluster) -> (r: bool)
        requires
            self.wf(),
            other.wf(),
        ensures
            r == self.ancestor_spec(*other),
    {
        self.depth < other.depth && self.offset <= other.offset
            && other.offset + other.cardinality <= self.offset + self.cardinality
    }

    /// Whether `self` is a strict descendant of `other` in the tree.
    pub fn is_descendant_of(&self, other: &Cluster) -> (r: bool)
        requires
            self.wf(),
            other.wf(),
        ensures
            r == other.ancestor_spec(*self),
    {
        other.is_ancestor_of(self)
    }

    /// Whether the two handles name the same tree node.
    pub fn has_same_key(&self, other: &Cluster) -> (r: bool)
        ensures
            r == self.same_key(*other),
    {
        self.offset == other.offset && self.cardinality == other.cardinality
    }

    /// The identity key of the cluster.
    pub fn key(&self) -> (r: (usize, usize))
        ensures
            r == (self.offset, self.cardinality),
    {
        (self.offset, self.cardinality)
    }
}

/// Every cluster in a sequence is well-formed.
pub open spec fn all_wf(s: Seq<Cluster>) -> bool {
    forall|i: int| 0 <= i < s.len() ==> #[trigger] s[i].wf()
}

/// No two clusters in a sequence share an identity key.
pub open spec fn distinct_keys(s: Seq<Cluster>) -> bool {
    forall|i: int, j: int|
        0 <= i < j < s.len() ==> !(#[trigger] s[i]).same_key(#[trigger] s[j])
}

/// In a sequence with distinct keys, two positions with the same key are
/// one position.
pub proof fn lemma_key_unique_in(s: Seq<Cluster>, c: Cluster, i: int, j: int)
    requires
        distinct_keys(s),
        0 <= i < s.len(),
        0 <= j < s.len(),
        s[i].same_key(c),
        s[j].same_key(c),
    ensures
        i == j,
{
    if i < j {
        assert(!s[i].same_key(s[j]));
    }
    if j < i {
        assert(!s[j].same_key(s[i]));
    }
}

} // verus!
