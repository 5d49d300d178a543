//! In-memory datasets of integer-valued points, and the metrics the graph
//! measures cluster distances with.

use vstd::prelude::*;

use crate::cluster::Cluster;

verus! {

/// The largest coordinate a well-formed dataset may hold.
pub const MAX_COORD: u64 = 0x100000;

/// The largest number of coordinates per point of a well-formed dataset.
pub const MAX_DIM: usize = 0x400;

/// The absolute difference of two coordinates.
pub open spec fn abs_diff_spec(a: u64, b: u64) -> int {
    if a >= b {
        a - b
    } else {
        b - a
    }
}

/// The squared euclidean distance over the first `t` coordinate pairs.
pub open spec fn euclidean_sq_upto(x: Seq<u64>, y: Seq<u64>, t: int) -> int
    decreases t,
{
    if t <= 0 {
        0
    } else {
        euclidean_sq_upto(x, y, t - 1) + abs_diff_spec(x[t - 1], y[t - 1]) * abs_diff_spec(
            x[t - 1],
            y[t - 1],
        )
    }
}

/// The squared euclidean distance between two equally long points: the sum
/// of the squared absolute differences of their coordinates.
pub open spec fn euclidean_sq_spec(x: Seq<u64>, y: Seq<u64>) -> int {
    euclidean_sq_upto(x, y, x.len() as int)
}

/// The manhattan distance over the first `t` coordinate pairs.
pub open spec fn manhattan_upto(x: Seq<u64>, y: Seq<u64>, t: int) -> int
    decreases t,
{
    if t <= 0 {
        0
    } else {
        manhattan_upto(x, y, t - 1) + abs_diff_spec(x[t - 1], y[t - 1])
    }
}

/// The manhattan distance between two equally long points: the sum of the
/// absolute differences of their coordinates.
pub open spec fn manhattan_spec(x: Seq<u64>, y: Seq<u64>) -> int {
    manhattan_upto(x, y, x.len() as int)
}

/// Both metrics are symmetric in their arguments.
pub proof fn lemma_metric_sym(x: Seq<u64>, y: Seq<u64>, t: int)
    ensures
        euclidean_sq_upto(x, y, t) == euclidean_sq_upto(y, x, t),
        manhattan_upto(x, y, t) == manhattan_upto(y, x, t),
    decreases t,
{
    if t > 0 {
        lemma_metric_sym(x, y, t - 1);
    }
}

/// Both metrics are non-negative and bounded when the coordinates are.
pub proof fn lemma_metric_bounds(x: Seq<u64>, y: Seq<u64>, t: int)
    requires
        0 <= t <= x.len(),
        t <= y.len(),
        forall|i: int| 0 <= i < x.len() ==> (#[trigger] x[i]) <= MAX_COORD,
        forall|i: int| 0 <= i < y.len() ==> (#[trigger] y[i]) <= MAX_COORD,
    ensures
        0 <= euclidean_sq_upto(x, y, t) <= t * (MAX_COORD * MAX_COORD),
        0 <= manhattan_upto(x, y, t) <= t * MAX_COORD,
    decreases t,
{
    if t > 0 {
        lemma_metric_bounds(x, y, t - 1);
        let d = abs_diff_spec(x[t - 1], y[t - 1]);
        assert(0 <= d <= MAX_COORD);
        assert(d * d <= MAX_COORD * MAX_COORD) by (nonlinear_arith)
            requires
                0 <= d <= MAX_COORD,
        ;
        assert((t - 1) * (MAX_COORD * MAX_COORD) + MAX_COORD * MAX_COORD == t * (MAX_COORD
            * MAX_COORD)) by (nonlinear_arith);
        assert((t - 1) * MAX_COORD + MAX_COORD == t * MAX_COORD) by (nonlinear_arith);
    }
}

/// Relies on `distances::vectors::euclidean_sq`: the sum over paired
/// coordinates of the squared absolute difference.  The bounds keep every
/// intermediate value of the summation inside `u64`.
#[verifier::external_body]
pub fn euclidean_sq(x: &Vec<u64>, y: &Vec<u64>) -> (r: u64)
    requires
        x@.len() == y@.len(),
        x@.len() <= MAX_DIM,
        forall|i: int| 0 <= i < x@.len() ==> (#[trigger] x@[i]) <= MAX_COORD,
        forall|i: int| 0 <= i < y@.len() ==> (#[trigger] y@[i]) <= MAX_COORD,
    ensures
        r as int == euclidean_sq_spec(x@, y@),
{
    distances::vectors::euclidean_sq(x, y)
}

/// Relies on `distances::vectors::manhattan`: the sum over paired
/// coordinates of the absolute difference.  The bounds keep the summation
/// inside `u64`.
#[verifier::external_body]
fn manhattan(x: &Vec<u64>, y: &Vec<u64>) -> (r: u64)
    requires
        x@.len() == y@.len(),
        x@.len() <= MAX_DIM,
        forall|i: int| 0 <= i < x@.len() ==> (#[trigger] x@[i]) <= MAX_COORD,
        forall|i: int| 0 <= i < y@.len() ==> (#[trigger] y@[i]) <= MAX_COORD,
    ensures
        r as int == manhattan_spec(x@, y@),
{
    distances::vectors::manhattan(x, y)
}

/// The metric a dataset measures distances with.
#[derive(Clone, Copy, Debug, PartialEq, Eq)]
pub enum Metric {
    /// Squared euclidean distance.
    EuclideanSq,
    /// Manhattan distance.
    Manhattan,
}

/// An in-memory dataset: one integer-valued point per instance, all of the
/// same dimension, measured under a chosen metric.
#[derive(Debug)]
pub struct VecDataset {
    /// The points of the dataset.
    pub points: Vec<Vec<u64>>,
    /// The metric distances are measured with.
    pub metric: Metric,
}

impl VecDataset {
    /// The dimension of the dataset's points.
    pub open spec fn dim(self) -> int {
        if self.points@.len() == 0 {
            0
        } else {
            self.points@[0]@.len() as int
        }
    }

    /// A well-formed dataset: every point has the same, bounded dimension
    /// and bounded coordinates.
    pub open spec fn wf(self) -> bool {
        &&& self.dim() <= MAX_DIM
        &&& forall|i: int|
            0 <= i < self.points@.len() ==> (#[trigger] self.points@[i]@).len() == self.dim()
        &&& forall|i: int, t: int|
            0 <= i < self.points@.len() && 0 <= t < self.points@[i]@.len() ==> (
            #[trigger] self.points@[i]@[t]) <= MAX_COORD
    }

    /// The distance between the instances at positions `i` and `j`.
    pub open spec fn dist_spec(self, i: int, j: int) -> int {
        match self.metric {
            Metric::EuclideanSq => euclidean_sq_spec(self.points@[i]@, self.points@[j]@),
            Metric::Manhattan => manhattan_spec(self.points@[i]@, self.points@[j]@),
        }
    }

    /// Builds a dataset from its points and a metric.
    pub fn new(points: Vec<Vec<u64>>, metric: Metric) -> (r: VecDataset)
        requires
            ({
                let d = VecDataset { points, metric };
                d.wf()
            }),
        ensures
            r == (VecDataset { points, metric }),
            r.wf(),
    {
        VecDataset { points, metric }
    }

    /// The number of instances in the dataset.
    pub fn cardinality(&self) -> (r: usize)
        ensures
            r == self.points@.len(),
    {
        self.points.len()
    }

    /// The distance between the instances at positions `i` and `j`, under
    /// the dataset's metric.
    pub fn distance(&self, i: usize, j: usize) -> (r: u64)
        requires
            self.wf(),
            (i as int) < self.points@.len(),
            (j as int) < self.points@.len(),
        ensures
            r as int == self.dist_spec(i as int, j as int),
            r as int == self.dist_spec(j as int, i as int),
    {
        proof {
            lemma_metric_sym(self.points@[i as int]@, self.points@[j as int]@, self.dim());
        }
        match self.metric {
            Metric::EuclideanSq => euclidean_sq(&self.points[i], &self.points[j]),
            Metric::Manhattan => manhattan(&self.points[i], &self.points[j]),
        }
    }
}

/// The cluster's center is an instance of the dataset, so its distances can
/// be measured.
pub open spec fn valid_for(c: Cluster, data: VecDataset) -> bool {
    (c.arg_center as int) < data.points@.len()
}

/// The distance between the centers of two clusters.
pub open spec fn cluster_dist(data: VecDataset, a: Cluster, b: Cluster) -> int {
    data.dist_spec(a.arg_center as int, b.arg_center as int)
}

/// The metric balls of the two clusters overlap: their center distance is
/// no more than the sum of their radii.
pub open spec fn overlap(data: VecDataset, a: Cluster, b: Cluster) -> bool {
    cluster_dist(data, a, b) <= a.radius + b.radius
}

/// The center distance between two clusters does not depend on the order
/// of the clusters.
pub proof fn lemma_cluster_dist_sym(data: VecDataset, a: Cluster, b: Cluster)
    requires
        data.wf(),
        valid_for(a, data),
        valid_for(b, data),
    ensures
        cluster_dist(data, a, b) == cluster_dist(data, b, a),
{
    let x = data.points@[a.arg_center as int]@;
    let y = data.points@[b.arg_center as int]@;
    lemma_metric_sym(x, y, x.len() as int);
    assert(x.len() == y.len());
}

/// The distance between the centers of two clusters.
pub fn cluster_distance(data: &VecDataset, a: &Cluster, b: &Cluster) -> (r: u64)
    requires
        data.wf(),
        valid_for(*a, *data),
        valid_for(*b, *data),
    ensures
        r as int == cluster_dist(*data, *a, *b),
        r as int == cluster_dist(*data, *b, *a),
{
    data.distance(a.arg_center, b.arg_center)
}

} // verus!
