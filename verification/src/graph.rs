//! The reference view of a proximity graph: clusters, canonical edges, an
//! adjacency structure, and breadth-first traversal queries.

use vstd::prelude::*;
use vstd::seq_lib::*;
use vstd::set_lib::*;

use crate::cluster::all_wf;
use crate::cluster::distinct_keys;
use crate::cluster::Cluster;
use crate::edge::Edge;
use crate::errors::GraphError;
use crate::reach::adj_in_range;
use crate::reach::adj_symmetric;
use crate::reach::bfs_frontier;
use crate::reach::bfs_visited;
use crate::reach::lemma_bfs_done;
use crate::reach::lemma_bfs_growth;
use crate::reach::lemma_bfs_invariants;
use crate::reach::lemma_reach_set_eq;
use crate::reach::lemma_reach_set_finite;
use crate::reach::lemma_reaches_step;
use crate::reach::lemma_reaches_sym;
use crate::reach::lemma_reaches_trans;
use crate::reach::nbrs_of;
use crate::reach::reach_set;
use crate::reach::reaches;
use crate::reach::reaches_in;

verus! {

/// The set of vertex indices named by a row of an adjacency list.
pub open spec fn idx_set(s: Seq<usize>) -> Set<int> {
    s.map_values(|u: usize| u as int).to_set()
}

/// A sequence of distinct indices names as many vertices as it has entries.
pub proof fn lemma_idx_set_len(s: Seq<usize>)
    requires
        s.no_duplicates(),
    ensures
        idx_set(s).finite(),
        idx_set(s).len() == s.len(),
{
    let m = s.map_values(|u: usize| u as int);
    assert(m.no_duplicates());
    m.unique_seq_to_set();
    broadcast use vstd::seq_lib::seq_to_set_is_finite;

}

/// Some edge among the first `t` of `es` joins `a` and `b`.
pub open spec fn has_edge_upto(es: Seq<Edge>, t: int, a: Cluster, b: Cluster) -> bool {
    exists|u: int| 0 <= u < t && (#[trigger] es[u]).joins(a, b)
}

/// Some edge of `es` joins `a` and `b`.
pub open spec fn has_edge_between(es: Seq<Edge>, a: Cluster, b: Cluster) -> bool {
    has_edge_upto(es, es.len() as int, a, b)
}

/// The distance labelling the edge of `es` that joins `a` and `b`, scanning
/// the first `t` edges backwards; zero when no such edge exists.
pub open spec fn edge_dist_upto(es: Seq<Edge>, t: int, a: Cluster, b: Cluster) -> u64
    decreases t,
{
    if t <= 0 {
        0u64
    } else if es[t - 1].joins(a, b) {
        es[t - 1].distance
    } else {
        edge_dist_upto(es, t - 1, a, b)
    }
}

/// The distance labelling the edge of `es` joining `a` and `b`, or zero.
pub open spec fn edge_dist(es: Seq<Edge>, a: Cluster, b: Cluster) -> u64 {
    edge_dist_upto(es, es.len() as int, a, b)
}

/// The total number of instances covered by a prefix of a cluster sequence.
pub open spec fn sum_cardinalities_upto(s: Seq<Cluster>, t: int) -> int
    decreases t,
{
    if t <= 0 {
        0
    } else {
        sum_cardinalities_upto(s, t - 1) + s[t - 1].cardinality
    }
}

/// The total number of instances covered by a cluster sequence.
pub open spec fn sum_cardinalities(s: Seq<Cluster>) -> int {
    sum_cardinalities_upto(s, s.len() as int)
}

/// Prefix sums of cardinalities never exceed the full sum.
pub proof fn lemma_sum_cardinalities_mono(s: Seq<Cluster>, t: int)
    requires
        0 <= t <= s.len(),
    ensures
        sum_cardinalities_upto(s, t) <= sum_cardinalities(s),
        0 <= sum_cardinalities_upto(s, t),
    decreases s.len() - t,
{
    lemma_sum_cardinalities_nonneg(s, t);
    if t < s.len() {
        lemma_sum_cardinalities_mono(s, t + 1);
    }
}

proof fn lemma_sum_cardinalities_nonneg(s: Seq<Cluster>, t: int)
    ensures
        0 <= sum_cardinalities_upto(s, t),
    decreases t,
{
    if t > 0 {
        lemma_sum_cardinalities_nonneg(s, t - 1);
    }
}

/// The smallest depth among the first `t` clusters, starting from the
/// largest `usize`.
pub open spec fn min_depth_upto(s: Seq<Cluster>, t: int) -> int
    decreases t,
{
    if t <= 0 {
        usize::MAX as int
    } else {
        let prev = min_depth_upto(s, t - 1);
        if s[t - 1].depth < prev {
            s[t - 1].depth as int
        } else {
            prev
        }
    }
}

/// The largest depth among the first `t` clusters, starting from zero.
pub open spec fn max_depth_upto(s: Seq<Cluster>, t: int) -> int
    decreases t,
{
    if t <= 0 {
        0
    } else {
        let prev = max_depth_upto(s, t - 1);
        if s[t - 1].depth > prev {
            s[t - 1].depth as int
        } else {
            prev
        }
    }
}

/// The smallest depth of any cluster in the sequence.
pub open spec fn min_depth_of(s: Seq<Cluster>) -> int {
    min_depth_upto(s, s.len() as int)
}

/// The largest depth of any cluster in the sequence.
pub open spec fn max_depth_of(s: Seq<Cluster>) -> int {
    max_depth_upto(s, s.len() as int)
}

/// A key occurs in the sequence.
pub open spec fn key_in(s: Seq<Cluster>, c: Cluster) -> bool {
    exists|i: int| 0 <= i < s.len() && (#[trigger] s[i]).same_key(c)
}

/// The index of the cluster of `s` that shares `c`'s identity key.
pub open spec fn index_of_key_spec(s: Seq<Cluster>, c: Cluster) -> int {
    choose|i: int| 0 <= i < s.len() && (#[trigger] s[i]).same_key(c)
}

/// A proximity graph over a fixed, non-empty collection of clusters.
///
/// The cluster order given at construction is kept, and every cluster is
/// addressed by its position in that order.  The adjacency structure lists,
/// for each cluster, the positions of the clusters it shares an edge with;
/// it always mirrors the edge set exactly, in both directions.
#[derive(Debug)]
pub struct Graph {
    /// The clusters of the graph, in the order given at construction.
    pub clusters: Vec<Cluster>,
    /// The canonical edges of the graph.
    pub edges: Vec<Edge>,
    /// For each cluster position, the positions of its neighbors.
    pub adjacency: Vec<Vec<usize>>,
    /// The total number of instances covered by the clusters.
    pub population: usize,
    /// The smallest depth of any cluster in the graph.
    pub min_depth: usize,
    /// The largest depth of any cluster in the graph.
    pub max_depth: usize,
    /// The pairwise distance matrix, once requested.
    pub distance_matrix: Option<Vec<Vec<u64>>>,
    /// The boolean adjacency matrix, once requested.
    pub adjacency_matrix: Option<Vec<Vec<bool>>>,
    /// Per-cluster frontier-width records of a full traversal, once
    /// requested.
    pub frontier_sizes: Option<Vec<Vec<usize>>>,
}

impl Graph {
    /// The number of clusters in the graph.
    pub open spec fn n(self) -> int {
        self.clusters@.len() as int
    }

    /// The neighbor sets of the graph, one per cluster position.
    pub open spec fn adjs(self) -> Seq<Set<int>> {
        Seq::new(self.adjacency@.len() as nat, |i: int| idx_set(self.adjacency@[i]@))
    }

    /// The clusters of the graph, as a sequence.
    pub open spec fn clusters_seq(self) -> Seq<Cluster> {
        self.clusters@
    }

    /// The edges of the graph, as a sequence.
    pub open spec fn edges_seq(self) -> Seq<Edge> {
        self.edges@
    }

    /// The stored frontier-width rows, once computed.
    pub open spec fn frontier_rows(self) -> Option<Seq<Seq<usize>>> {
        match self.frontier_sizes {
            Option::Some(rows) => Option::Some(rows.deep_view()),
            Option::None => Option::None,
        }
    }

    /// The recorded widths `w` are exactly the frontier sizes of a full
    /// breadth-first expansion from cluster `i`: one entry per round, the
    /// expansion stops exactly when a frontier empties, and each entry is
    /// the size of the frontier its round produced.
    pub open spec fn widths_ok(self, i: int, w: Seq<usize>) -> bool {
        &&& w.len() >= 1
        &&& bfs_frontier(self.adjs(), i, w.len() as nat).is_empty()
        &&& forall|k: int|
            1 <= k < w.len() ==> !(#[trigger] bfs_frontier(self.adjs(), i, k as nat)).is_empty()
        &&& forall|k: int|
            0 <= k < w.len() ==> (#[trigger] w[k]) as int == bfs_frontier(
                self.adjs(),
                i,
                (k + 1) as nat,
            ).len()
    }

    /// The structural invariant of the graph.
    pub open spec fn wf(self) -> bool {
        let n = self.n();
        &&& n >= 1
        &&& all_wf(self.clusters@)
        &&& distinct_keys(self.clusters@)
        &&& self.adjacency@.len() == n
        &&& forall|i: int| 0 <= i < n ==> (#[trigger] self.adjacency@[i]@).no_duplicates()
        &&& forall|i: int, t: int|
            0 <= i < n && 0 <= t < self.adjacency@[i]@.len() ==> (
            #[trigger] self.adjacency@[i]@[t]) < n
        &&& forall|i: int, j: int|
            0 <= i < n && 0 <= j < n ==> ((#[trigger] self.adjs()[i].contains(j))
                <==> has_edge_between(self.edges@, self.clusters@[i], self.clusters@[j]))
        &&& forall|t: int|
            0 <= t < self.edges@.len() ==> (#[trigger] self.edges@[t]).wf() && key_in(
                self.clusters@,
                self.edges@[t].left,
            ) && key_in(self.clusters@, self.edges@[t].right)
        &&& forall|t1: int, t2: int|
            0 <= t1 < t2 < self.edges@.len() ==> !(#[trigger] self.edges@[t1]).joins(
                (#[trigger] self.edges@[t2]).left,
                self.edges@[t2].right,
            )
        &&& self.population as int == sum_cardinalities(self.clusters@)
        &&& self.min_depth as int == min_depth_of(self.clusters@)
        &&& self.max_depth as int == max_depth_of(self.clusters@)
        &&& match self.frontier_rows() {
            Option::Some(rows) => {
                &&& rows.len() == n
                &&& forall|i: int| 0 <= i < n ==> self.widths_ok(i, #[trigger] rows[i])
            },
            Option::None => true,
        }
        &&& match self.distance_matrix {
            Option::Some(m) => {
                &&& m@.len() == n
                &&& forall|i: int| 0 <= i < n ==> (#[trigger] m@[i]@).len() == n
                &&& forall|i: int, j: int|
                    0 <= i < n && 0 <= j < n ==> (#[trigger] m@[i]@[j]) == edge_dist(
                        self.edges@,
                        self.clusters@[i],
                        self.clusters@[j],
                    )
            },
            Option::None => true,
        }
        &&& match self.adjacency_matrix {
            Option::Some(am) => {
                &&& self.distance_matrix.is_some()
                &&& am@.len() == n
                &&& forall|i: int| 0 <= i < n ==> (#[trigger] am@[i]@).len() == n
                &&& forall|i: int, j: int|
                    0 <= i < n && 0 <= j < n ==> ((#[trigger] am@[i]@[j]) <==> edge_dist(
                        self.edges@,
                        self.clusters@[i],
                        self.clusters@[j],
                    ) != 0)
            },
            Option::None => true,
        }
    }

    /// The adjacency structure of a well-formed graph is symmetric: this is
    /// the adjacency-symmetry guarantee, derived from the fact that both
    /// directions of every edge are recorded.
    pub proof fn lemma_adjacency_symmetric(self)
        requires
            self.wf(),
        ensures
            adj_symmetric(self.adjs()),
    {
        assert forall|i: int, j: int|
            0 <= i < self.adjs().len() && (#[trigger] self.adjs()[i].contains(j)) implies 0 <= j
            < self.adjs().len() && self.adjs()[j].contains(i) by {
            let row = self.adjacency@[i]@;
            let m = row.map_values(|u: usize| u as int);
            assert(m.to_set().contains(j));
            assert(m.contains(j));
            let t = choose|t: int| 0 <= t < m.len() && m[t] == j;
            assert(row[t] as int == j);
            assert(0 <= j < self.n());
            assert(has_edge_between(self.edges@, self.clusters@[i], self.clusters@[j]));
            let u = choose|u: int|
                0 <= u < self.edges@.len() && (#[trigger] self.edges@[u]).joins(
                    self.clusters@[i],
                    self.clusters@[j],
                );
            assert(self.edges@[u].joins(self.clusters@[j], self.clusters@[i]));
            assert(has_edge_between(self.edges@, self.clusters@[j], self.clusters@[i]));
        }
    }
}

/// Appending a fresh element keeps a sequence duplicate-free.
pub(crate) proof fn lemma_push_no_dup(s: Seq<usize>, x: usize)
    requires
        s.no_duplicates(),
        !s.contains(x),
    ensures
        s.push(x).no_duplicates(),
{
    let p = s.push(x);
    assert forall|a: int, b: int| 0 <= a < b < p.len() implies p[a] != p[b] by {
        if b == s.len() {
            assert(p[a] == s[a]);
            assert(s.contains(s[a]));
        }
    }
}

/// Membership in a sequence extended by one element.
pub(crate) proof fn lemma_push_contains(s: Seq<usize>, v: usize, x: usize)
    ensures
        s.push(v).contains(x) <==> (s.contains(x) || x == v),
{
    let p = s.push(v);
    if p.contains(x) {
        let t = choose|t: int| 0 <= t < p.len() && p[t] == x;
        if t < s.len() {
            assert(s[t] == x);
            assert(s.contains(x));
        }
    }
    if s.contains(x) {
        let t = choose|t: int| 0 <= t < s.len() && s[t] == x;
        assert(p[t] == x);
        assert(p.contains(x));
    }
    if x == v {
        assert(p[s.len() as int] == x);
        assert(p.contains(x));
    }
}

/// Finds the position of the cluster sharing `c`'s identity key.
fn index_of_key(clusters: &Vec<Cluster>, c: &Cluster) -> (r: Option<usize>)
    ensures
        match r {
            Option::Some(i) => i < clusters@.len() && clusters@[i as int].same_key(*c),
            Option::None => !key_in(clusters@, *c),
        },
{
    let n = clusters.len();
    let mut i: usize = 0;
    while i < n
        invariant
            i <= n,
            n == clusters@.len(),
            forall|t: int| 0 <= t < i ==> !(#[trigger] clusters@[t]).same_key(*c),
        decreases n - i,
    {
        if clusters[i].has_same_key(c) {
            return Some(i);
        }
        i += 1;
    }
    None
}

impl Graph {
    /// In a sequence with distinct keys, at most one position carries any
    /// given key.
    proof fn lemma_key_unique(s: Seq<Cluster>, c: Cluster, i: int, j: int)
        requires
            distinct_keys(s),
            0 <= i < s.len(),
            0 <= j < s.len(),
            s[i].same_key(c),
            s[j].same_key(c),
        ensures
            i == j,
    {
        if i < j {
            assert(!s[i].same_key(s[j]));
        }
        if j < i {
            assert(!s[j].same_key(s[i]));
        }
    }

    /// Builds a graph from a non-empty cluster collection and an edge
    /// collection.
    ///
    /// The clusters keep their given order.  The aggregate statistics are
    /// folded over all clusters, and the adjacency structure records both
    /// directions of every edge.
    #[verifier::loop_isolation(false)]
    pub fn new(clusters: Vec<Cluster>, edges: Vec<Edge>) -> (r: Graph)
        requires
            clusters@.len() >= 1,
            all_wf(clusters@),
            distinct_keys(clusters@),
            sum_cardinalities(clusters@) <= usize::MAX,
            forall|t: int|
                0 <= t < edges@.len() ==> (#[trigger] edges@[t]).wf() && key_in(
                    clusters@,
                    edges@[t].left,
                ) && key_in(clusters@, edges@[t].right),
            forall|t1: int, t2: int|
                0 <= t1 < t2 < edges@.len() ==> !(#[trigger] edges@[t1]).joins(
                    (#[trigger] edges@[t2]).left,
                    edges@[t2].right,
                ),
        ensures
            r.wf(),
            r.clusters@ == clusters@,
            r.edges@ == edges@,
            r.population as int == sum_cardinalities(clusters@),
            r.min_depth as int == min_depth_of(clusters@),
            r.max_depth as int == max_depth_of(clusters@),
            r.distance_matrix.is_none(),
            r.adjacency_matrix.is_none(),
            r.frontier_sizes.is_none(),
    {
        let n = clusters.len();
        let mut population: usize = 0;
        let mut min_depth: usize = usize::MAX;
        let mut max_depth: usize = 0;
        let mut i: usize = 0;
        while i < n
            invariant
                i <= n,
                population as int == sum_cardinalities_upto(clusters@, i as int),
                min_depth as int == min_depth_upto(clusters@, i as int),
                max_depth as int == max_depth_upto(clusters@, i as int),
            decreases n - i,
        {
            proof {
                lemma_sum_cardinalities_mono(clusters@, i + 1);
            }
            population = population + clusters[i].cardinality;
            if clusters[i].depth < min_depth {
                min_depth = clusters[i].depth;
            }
            if clusters[i].depth > max_depth {
                max_depth = clusters[i].depth;
            }
            i += 1;
        }
        let mut adjacency: Vec<Vec<usize>> = Vec::new();
        let mut i: usize = 0;
        while i < n
            invariant
                i <= n,
                adjacency@.len() == i,
                forall|t: int| 0 <= t < i ==> (#[trigger] adjacency@[t]@).len() == 0,
            decreases n - i,
        {
            adjacency.push(Vec::new());
            i += 1;
        }
        let mut t: usize = 0;
        while t < edges.len()
            invariant
                t <= edges@.len(),
                adjacency@.len() == n,
                forall|i: int| 0 <= i < n ==> (#[trigger] adjacency@[i]@).no_duplicates(),
                forall|i: int, s: int|
                    0 <= i < n && 0 <= s < adjacency@[i]@.len() ==> (
                    #[trigger] adjacency@[i]@[s]) < n,
                forall|i: int, j: int|
                    0 <= i < n && 0 <= j < n ==> ((#[trigger] adjacency@[i]@.contains(j as usize))
                        <==> has_edge_upto(edges@, t as int, clusters@[i], clusters@[j])),
            decreases edges@.len() - t,
        {
            let e = edges[t];
            let li = index_of_key(&clusters, &e.left).unwrap();
            let ri = index_of_key(&clusters, &e.right).unwrap();
            proof {
                assert forall|i: int|
                    0 <= i < n && clusters@[i].same_key(e.left) implies i == li as int by {
                    Self::lemma_key_unique(clusters@, e.left, i, li as int);
                }
                assert forall|i: int|
                    0 <= i < n && clusters@[i].same_key(e.right) implies i == ri as int by {
                    Self::lemma_key_unique(clusters@, e.right, i, ri as int);
                }
                // The new edge is not yet recorded in either row.
                assert(!has_edge_upto(edges@, t as int, clusters@[li as int], clusters@[ri as int]))
                    by {
                    if has_edge_upto(edges@, t as int, clusters@[li as int], clusters@[ri as int]) {
                        let u = choose|u: int|
                            0 <= u < t && (#[trigger] edges@[u]).joins(
                                clusters@[li as int],
                                clusters@[ri as int],
                            );
                        assert(edges@[u].joins(edges@[t as int].left, edges@[t as int].right));
                    }
                }
                assert(!has_edge_upto(edges@, t as int, clusters@[ri as int], clusters@[li as int]))
                    by {
                    if has_edge_upto(edges@, t as int, clusters@[ri as int], clusters@[li as int]) {
                        let u = choose|u: int|
                            0 <= u < t && (#[trigger] edges@[u]).joins(
                                clusters@[ri as int],
                                clusters@[li as int],
                            );
                        assert(edges@[u].joins(edges@[t as int].left, edges@[t as int].right));
                    }
                }
                assert(!adjacency@[li as int]@.contains(((ri as int) as usize)));
                assert(!adjacency@[ri as int]@.contains(((li as int) as usize)));
                assert(!adjacency@[li as int]@.contains(ri));
                assert(!adjacency@[ri as int]@.contains(li));
            }
            let ghost prev = adjacency@;
            if li != ri {
                adjacency[li].push(ri);
                adjacency[ri].push(li);
                proof {
                    assert(adjacency@[li as int]@ == prev[li as int]@.push(ri));
                    assert(adjacency@[ri as int]@ == prev[ri as int]@.push(li));
                    assert(forall|i: int|
                        0 <= i < n && i != li as int && i != ri as int
                            ==> (#[trigger] adjacency@[i]@) == prev[i]@);
                    lemma_push_no_dup(prev[li as int]@, ri);
                    lemma_push_no_dup(prev[ri as int]@, li);
                }
            } else {
                adjacency[li].push(ri);
                proof {
                    assert(adjacency@[li as int]@ == prev[li as int]@.push(ri));
                    assert(forall|i: int|
                        0 <= i < n && i != li as int ==> (#[trigger] adjacency@[i]@) == prev[i]@);
                    lemma_push_no_dup(prev[li as int]@, ri);
                }
            }
            proof {
                let cl = clusters@;
                let es = edges@;
                assert forall|i: int, j: int| 0 <= i < n && 0 <= j < n implies ((
                #[trigger] adjacency@[i]@.contains(j as usize)) <==> has_edge_upto(
                    es,
                    t + 1,
                    cl[i],
                    cl[j],
                )) by {
                    let joined = es[t as int].joins(cl[i], cl[j]);
                    assert(joined <==> ((i == li as int && j == ri as int) || (i == ri as int && j
                        == li as int))) by {
                        if es[t as int].joins(cl[i], cl[j]) {
                            if es[t as int].left.same_key(cl[i]) {
                                Self::lemma_key_unique(cl, e.left, i, li as int);
                                Self::lemma_key_unique(cl, e.right, j, ri as int);
                            } else {
                                Self::lemma_key_unique(cl, e.right, i, ri as int);
                                Self::lemma_key_unique(cl, e.left, j, li as int);
                            }
                        }
                    }
                    if i == li as int {
                        lemma_push_contains(prev[i]@, ri, j as usize);
                        assert(adjacency@[i]@.contains(j as usize) <==> (prev[i]@.contains(
                            j as usize,
                        ) || joined));
                    } else if i == ri as int {
                        lemma_push_contains(prev[i]@, li, j as usize);
                        assert(adjacency@[i]@.contains(j as usize) <==> (prev[i]@.contains(
                            j as usize,
                        ) || joined));
                    } else {
                        assert(adjacency@[i]@ == prev[i]@);
                        assert(!joined);
                    }
                    assert(has_edge_upto(es, t + 1, cl[i], cl[j]) <==> (has_edge_upto(
                        es,
                        t as int,
                        cl[i],
                        cl[j],
                    ) || joined)) by {
                        if has_edge_upto(es, t + 1, cl[i], cl[j]) {
                            let u = choose|u: int|
                                0 <= u < t + 1 && (#[trigger] es[u]).joins(cl[i], cl[j]);
                            if u < t {
                                assert(has_edge_upto(es, t as int, cl[i], cl[j]));
                            }
                        }
                        if has_edge_upto(es, t as int, cl[i], cl[j]) {
                            let u = choose|u: int|
                                0 <= u < t && (#[trigger] es[u]).joins(cl[i], cl[j]);
                            assert(0 <= u < t + 1 && es[u].joins(cl[i], cl[j]));
                        }
                        if joined {
                            assert(0 <= t < t + 1 && es[t as int].joins(cl[i], cl[j]));
                        }
                    }
                }
            }
            t += 1;
        }
        let r = Graph {
            clusters,
            edges,
            adjacency,
            population,
            min_depth,
            max_depth,
            distance_matrix: None,
            adjacency_matrix: None,
            frontier_sizes: None,
        };
        proof {
            assert forall|i: int, j: int| 0 <= i < n && 0 <= j < n implies ((
            #[trigger] r.adjs()[i].contains(j)) <==> has_edge_between(
                r.edges@,
                r.clusters@[i],
                r.clusters@[j],
            )) by {
                let row = r.adjacency@[i]@;
                let m = row.map_values(|u: usize| u as int);
                assert(r.adjs()[i] == idx_set(row));
                assert(idx_set(row).contains(j) <==> m.contains(j));
                assert(m.contains(j) <==> row.contains(j as usize)) by {
                    if m.contains(j) {
                        let s = choose|s: int| 0 <= s < m.len() && m[s] == j;
                        assert(row[s] == j as usize);
                        assert(row.contains(j as usize));
                    }
                    if row.contains(j as usize) {
                        let s = choose|s: int| 0 <= s < row.len() && row[s] == j as usize;
                        assert(m[s] == j);
                        assert(m.contains(j));
                    }
                }
            }
        }
        r
    }

    /// The number of clusters in the graph.
    pub fn vertex_cardinality(&self) -> (r: usize)
        ensures
            r == self.clusters@.len(),
    {
        self.clusters.len()
    }

    /// The number of edges in the graph.
    pub fn edge_cardinality(&self) -> (r: usize)
        ensures
            r == self.edges@.len(),
    {
        self.edges.len()
    }

    /// The smallest and largest cluster depth, as a pair.
    pub fn depth_range(&self) -> (r: (usize, usize))
        ensures
            r == (self.min_depth, self.max_depth),
    {
        (self.min_depth, self.max_depth)
    }

    /// Checks that the given cluster is a member of the graph.
    fn assert_contains(&self, c: &Cluster) -> (r: Result<(), GraphError>)
        ensures
            r is Ok <==> key_in(self.clusters@, *c),
            r is Err ==> r == Result::<(), GraphError>::Err(GraphError::UnknownCluster),
    {
        match index_of_key(&self.clusters, c) {
            Some(_) => Ok(()),
            None => Err(GraphError::UnknownCluster),
        }
    }
}

/// Membership in the index set of a row.
pub proof fn lemma_idx_set_contains(s: Seq<usize>, j: int)
    ensures
        idx_set(s).contains(j) <==> exists|t: int|
            0 <= t < s.len() && (#[trigger] s[t]) as int == j,
{
    let m = s.map_values(|u: usize| u as int);
    if idx_set(s).contains(j) {
        assert(m.contains(j));
        let t = choose|t: int| 0 <= t < m.len() && m[t] == j;
        assert(s[t] as int == j);
    }
    if exists|t: int| 0 <= t < s.len() && (#[trigger] s[t]) as int == j {
        let t = choose|t: int| 0 <= t < s.len() && (#[trigger] s[t]) as int == j;
        assert(m[t] == j);
        assert(m.contains(j));
    }
}

/// The index set of a concatenation is the union of the index sets.
pub proof fn lemma_idx_set_append(a: Seq<usize>, b: Seq<usize>)
    ensures
        idx_set(a + b) == idx_set(a).union(idx_set(b)),
{
    assert forall|j: int| #[trigger]
        idx_set(a + b).contains(j) implies idx_set(a).union(idx_set(b)).contains(j) by {
        lemma_idx_set_contains(a + b, j);
        lemma_idx_set_contains(a, j);
        lemma_idx_set_contains(b, j);
        let t = choose|t: int| 0 <= t < (a + b).len() && ((a + b)[t]) as int == j;
        if t < a.len() {
            assert(a[t] as int == j);
        } else {
            assert(b[t - a.len()] as int == j);
        }
    }
    assert forall|j: int| #[trigger]
        idx_set(a).union(idx_set(b)).contains(j) implies idx_set(a + b).contains(j) by {
        lemma_idx_set_contains(a + b, j);
        lemma_idx_set_contains(a, j);
        lemma_idx_set_contains(b, j);
        if idx_set(a).contains(j) {
            let t = choose|t: int| 0 <= t < a.len() && (#[trigger] a[t]) as int == j;
            assert(((a + b)[t]) as int == j);
        } else {
            let t = choose|t: int| 0 <= t < b.len() && (#[trigger] b[t]) as int == j;
            assert(((a + b)[t + a.len()]) as int == j);
        }
    }
    assert(idx_set(a + b) =~= idx_set(a).union(idx_set(b)));
}

/// A vector of `n` cleared flags.
pub(crate) fn falses(n: usize) -> (r: Vec<bool>)
    ensures
        r@.len() == n,
        forall|j: int| 0 <= j < n ==> !(#[trigger] r@[j]),
{
    let mut v: Vec<bool> = Vec::new();
    let mut i: usize = 0;
    while i < n
        invariant
            i <= n,
            v@.len() == i,
            forall|j: int| 0 <= j < i ==> !(#[trigger] v@[j]),
        decreases n - i,
    {
        v.push(false);
        i += 1;
    }
    v
}

impl Graph {
    /// During the construction of a frontier, the neighbors gathered so far:
    /// those of the first `ui` frontier rows, and the first `vi` entries of
    /// row `ui`.
    spec fn covered_upto(self, fr: Seq<usize>, ui: int, vi: int, j: usize) -> bool {
        ||| exists|t: int|
            0 <= t < ui && (#[trigger] self.adjacency@[fr[t] as int]@).contains(j)
        ||| (ui < fr.len() && self.adjacency@[fr[ui] as int]@.take(vi).contains(j))
    }

    /// The positions gathered by one round of frontier construction are
    /// exactly the next frontier of the abstract expansion.
    #[verifier::rlimit(100)]
    proof fn lemma_next_frontier_set(
        self,
        fr: Seq<usize>,
        vl: Seq<usize>,
        nx: Seq<usize>,
        start: int,
        k: nat,
    )
        requires
            self.wf(),
            0 <= start < self.n(),
            idx_set(fr) == bfs_frontier(self.adjs(), start, k),
            idx_set(vl) == bfs_visited(self.adjs(), start, (k + 1) as nat),
            forall|t: int| 0 <= t < fr.len() ==> ((#[trigger] fr[t]) as int) < self.n(),
            forall|j: usize|
                j < self.n() ==> ((#[trigger] nx.contains(j)) <==> (!vl.contains(j)
                    && self.covered_upto(fr, fr.len() as int, 0, j))),
            forall|t: int| 0 <= t < nx.len() ==> ((#[trigger] nx[t]) as int) < self.n(),
        ensures
            idx_set(nx) == bfs_frontier(self.adjs(), start, (k + 1) as nat),
    {
        let adjs = self.adjs();
        let n = self.n();
        self.lemma_adjacency_symmetric();
        let newvis = bfs_visited(adjs, start, (k + 1) as nat);
        assert(idx_set(nx) =~= bfs_frontier(adjs, start, (k + 1) as nat)) by {
            assert forall|j: int| #[trigger] idx_set(nx).contains(j) implies bfs_frontier(
                adjs,
                start,
                (k + 1) as nat,
            ).contains(j) by {
                lemma_idx_set_contains(nx, j);
                let t = choose|t: int| 0 <= t < nx.len() && (#[trigger] nx[t]) as int == j;
                let ju = nx[t];
                assert(nx.contains(ju));
                assert(!vl.contains(ju) && self.covered_upto(fr, fr.len() as int, 0, ju));
                let w = choose|w: int|
                    0 <= w < fr.len() && (#[trigger] self.adjacency@[fr[w] as int]@).contains(ju);
                lemma_idx_set_contains(self.adjacency@[fr[w] as int]@, j);
                assert(adjs[fr[w] as int].contains(j));
                lemma_idx_set_contains(fr, fr[w] as int);
                assert(idx_set(fr).contains(fr[w] as int));
                assert(bfs_frontier(adjs, start, k).contains(fr[w] as int));
                assert(nbrs_of(adjs, bfs_frontier(adjs, start, k)).contains(j));
                lemma_idx_set_contains(vl, j);
                assert(!newvis.contains(j));
            }
            assert forall|j: int| #[trigger] bfs_frontier(adjs, start, (k + 1) as nat).contains(
                j,
            ) implies idx_set(nx).contains(j) by {
                lemma_bfs_invariants(adjs, start, (k + 1) as nat);
                assert(nbrs_of(adjs, bfs_frontier(adjs, start, k)).contains(j));
                let i = choose|i: int|
                    (#[trigger] bfs_frontier(adjs, start, k).contains(i)) && 0 <= i < adjs.len()
                        && adjs[i].contains(j);
                lemma_idx_set_contains(fr, i);
                let w = choose|w: int| 0 <= w < fr.len() && (#[trigger] fr[w]) as int == i;
                lemma_idx_set_contains(self.adjacency@[i]@, j);
                assert(0 <= j < n);
                assert(self.adjacency@[fr[w] as int]@.contains(j as usize));
                assert(self.covered_upto(fr, fr.len() as int, 0, j as usize));
                lemma_idx_set_contains(vl, j);
                assert(!vl.contains(j as usize));
                assert(nx.contains(j as usize));
                lemma_idx_set_contains(nx, j);
                let t = choose|t: int| 0 <= t < nx.len() && nx[t] == j as usize;
                assert(nx[t] as int == j);
            }
        }
    }

    /// Runs the breadth-first expansion from the cluster at position
    /// `start`, returning the positions visited and the width of every
    /// frontier the expansion produced.
    #[verifier::loop_isolation(false)]
    #[verifier::rlimit(100)]
    fn bfs_core(&self, start: usize) -> (r: (Vec<usize>, Vec<usize>))
        requires
            self.wf(),
            (start as int) < self.n(),
        ensures
            r.0@.no_duplicates(),
            forall|t: int| 0 <= t < r.0@.len() ==> ((#[trigger] r.0@[t]) as int) < self.n(),
            idx_set(r.0@) == reach_set(self.adjs(), start as int),
            r.0@.len() == reach_set(self.adjs(), start as int).len(),
            r.0@.len() >= 1,
            r.0@[0] == start,
            self.widths_ok(start as int, r.1@),
    {
        let n = self.clusters.len();
        let ghost adjs = self.adjs();
        proof {
            self.lemma_adjacency_symmetric();
            assert(adj_in_range(adjs));
        }
        let mut visited_bits = falses(n);
        let mut visited_list: Vec<usize> = Vec::new();
        let mut frontier: Vec<usize> = Vec::new();
        frontier.push(start);
        let mut widths: Vec<usize> = Vec::new();
        let ghost mut k: nat = 0;
        proof {
            assert(idx_set(frontier@) =~= bfs_frontier(adjs, start as int, 0)) by {
                assert forall|j: int| #[trigger] idx_set(frontier@).contains(j) implies j
                    == start as int by {
                    lemma_idx_set_contains(frontier@, j);
                }
                lemma_idx_set_contains(frontier@, start as int);
                assert(frontier@[0] as int == start as int);
            }
            assert(idx_set(visited_list@) =~= bfs_visited(adjs, start as int, 0)) by {
                assert forall|j: int| !(#[trigger] idx_set(visited_list@).contains(j)) by {
                    lemma_idx_set_contains(visited_list@, j);
                }
            }
        }
        while frontier.len() > 0
            invariant
                k == widths@.len(),
                visited_bits@.len() == n,
                visited_list@.no_duplicates(),
                frontier@.no_duplicates(),
                forall|t: int| 0 <= t < visited_list@.len() ==> (#[trigger] visited_list@[t]) < n,
                forall|t: int| 0 <= t < frontier@.len() ==> (#[trigger] frontier@[t]) < n,
                forall|j: int|
                    0 <= j < n ==> ((#[trigger] visited_bits@[j]) <==> visited_list@.contains(
                        j as usize,
                    )),
                idx_set(visited_list@) == bfs_visited(adjs, start as int, k),
                idx_set(frontier@) == bfs_frontier(adjs, start as int, k),
                forall|t: int|
                    0 <= t < k ==> (#[trigger] widths@[t]) as int == bfs_frontier(
                        adjs,
                        start as int,
                        (t + 1) as nat,
                    ).len(),
                forall|t: int|
                    0 <= t < k ==> !(#[trigger] bfs_frontier(adjs, start as int, t as nat))
                        .is_empty(),
                k >= 1 ==> visited_list@.len() >= 1 && visited_list@[0] == start,
            decreases n - visited_list@.len(),
        {
            proof {
                lemma_bfs_invariants(adjs, start as int, k);
                lemma_bfs_growth(adjs, start as int, k);
                lemma_idx_set_len(frontier@);
                lemma_idx_set_len(visited_list@);
                assert(!bfs_frontier(adjs, start as int, k).is_empty()) by {
                    lemma_idx_set_contains(frontier@, frontier@[0] as int);
                    assert(idx_set(frontier@).contains(frontier@[0] as int));
                }
            }
            let ghost vl0 = visited_list@;
            // Absorb the frontier into the visited set.
            let mut ui: usize = 0;
            while ui < frontier.len()
                invariant
                    ui <= frontier@.len(),
                    visited_bits@.len() == n,
                    visited_list@ == vl0 + frontier@.take(ui as int),
                    forall|j: int|
                        0 <= j < n ==> ((#[trigger] visited_bits@[j]) <==> visited_list@.contains(
                            j as usize,
                        )),
                decreases frontier@.len() - ui,
            {
                let u = frontier[ui];
                visited_bits[u] = true;
                visited_list.push(u);
                proof {
                    assert(visited_list@ =~= vl0 + frontier@.take(ui + 1));
                    assert forall|j: int| 0 <= j < n implies ((#[trigger] visited_bits@[j])
                        <==> visited_list@.contains(j as usize)) by {
                        let prev = vl0 + frontier@.take(ui as int);
                        lemma_push_contains(prev, u, j as usize);
                        assert(visited_list@ == prev.push(u));
                    }
                }
                ui += 1;
            }
            proof {
                assert(frontier@.take(frontier@.len() as int) =~= frontier@);
                assert(visited_list@ == vl0 + frontier@);
                lemma_idx_set_append(vl0, frontier@);
                assert(idx_set(visited_list@) =~= bfs_visited(adjs, start as int, (k + 1) as nat));
                // Distinct: the old visited set and the frontier are
                // disjoint, so the concatenation has no duplicates.
                assert forall|a: int, b: int|
                    0 <= a < vl0.len() && 0 <= b < frontier@.len() implies vl0[a] != frontier@[b]
                    by {
                    if vl0[a] == frontier@[b] {
                        lemma_idx_set_contains(vl0, vl0[a] as int);
                        lemma_idx_set_contains(frontier@, frontier@[b] as int);
                        assert(bfs_visited(adjs, start as int, k).contains(vl0[a] as int));
                        assert(bfs_frontier(adjs, start as int, k).contains(vl0[a] as int));
                    }
                }
                lemma_no_dup_in_concat(vl0, frontier@);
            }
            // Gather the next frontier: every unvisited neighbor of the
            // current one, each recorded once.
            let mut next: Vec<usize> = Vec::new();
            let mut next_bits = falses(n);
            let mut ui: usize = 0;
            while ui < frontier.len()
                invariant
                    ui <= frontier@.len(),
                    next_bits@.len() == n,
                    next@.no_duplicates(),
                    forall|t: int| 0 <= t < next@.len() ==> (#[trigger] next@[t]) < n,
                    forall|j: int|
                        0 <= j < n ==> ((#[trigger] next_bits@[j]) <==> next@.contains(j as usize)),
                    forall|j: usize|
                        j < n ==> ((#[trigger] next@.contains(j)) <==> (!visited_list@.contains(j)
                            && self.covered_upto(frontier@, ui as int, 0, j))),
                decreases frontier@.len() - ui,
            {
                let u = frontier[ui];
                let row_len = self.adjacency[u].len();
                let mut vi: usize = 0;
                while vi < row_len
                    invariant
                        vi <= row_len,
                        row_len == self.adjacency@[u as int]@.len(),
                        u == frontier@[ui as int],
                        ui < frontier@.len(),
                        next_bits@.len() == n,
                        next@.no_duplicates(),
                        forall|t: int| 0 <= t < next@.len() ==> (#[trigger] next@[t]) < n,
                        forall|j: int|
                            0 <= j < n ==> ((#[trigger] next_bits@[j]) <==> next@.contains(
                                j as usize,
                            )),
                        forall|j: usize|
                            j < n ==> ((#[trigger] next@.contains(j)) <==> (
                            !visited_list@.contains(j) && self.covered_upto(
                                frontier@,
                                ui as int,
                                vi as int,
                                j,
                            ))),
                    decreases row_len - vi,
                {
                    let v = self.adjacency[u][vi];
                    let ghost next0 = next@;
                    if !visited_bits[v] && !next_bits[v] {
                        next_bits[v] = true;
                        next.push(v);
                        proof {
                            lemma_push_no_dup(next0, v);
                        }
                    }
                    proof {
                        let row = self.adjacency@[u as int]@;
                        assert(row.take(vi + 1) =~= row.take(vi as int).push(row[vi as int]));
                        assert forall|j: usize| j < n implies ((#[trigger] next@.contains(j)) <==> (
                        !visited_list@.contains(j) && self.covered_upto(
                            frontier@,
                            ui as int,
                            vi + 1,
                            j,
                        ))) by {
                            lemma_push_contains(row.take(vi as int), row[vi as int], j);
                            lemma_push_contains(next0, v, j);
                            assert(self.covered_upto(frontier@, ui as int, vi + 1, j) <==> (
                            self.covered_upto(frontier@, ui as int, vi as int, j) || j == v));
                        }
                        assert forall|j: int| 0 <= j < n implies ((#[trigger] next_bits@[j])
                            <==> next@.contains(j as usize)) by {
                            lemma_push_contains(next0, v, j as usize);
                        }
                    }
                    vi += 1;
                }
                proof {
                    let row = self.adjacency@[u as int]@;
                    assert(row.take(row_len as int) =~= row);
                    assert forall|j: usize| j < n implies (self.covered_upto(
                        frontier@,
                        ui as int,
                        row_len as int,
                        j,
                    ) <==> self.covered_upto(frontier@, ui + 1, 0, j)) by {
                        if self.covered_upto(frontier@, ui as int, row_len as int, j) {
                            if !(exists|t: int|
                                0 <= t < ui && (#[trigger] self.adjacency@[frontier@[t] as int]@)
                                    .contains(j)) {
                                assert(row.contains(j));
                                assert(self.adjacency@[frontier@[ui as int] as int]@.contains(j));
                            }
                        }
                        if self.covered_upto(frontier@, ui + 1, 0, j) {
                            let t = choose|t: int|
                                0 <= t < ui + 1 && (
                                #[trigger] self.adjacency@[frontier@[t] as int]@).contains(j);
                            if t == ui as int {
                                assert(row.take(row_len as int).contains(j));
                            }
                        }
                    }
                }
                ui += 1;
            }
            // The gathered positions form exactly the next frontier.
            proof {
                self.lemma_next_frontier_set(frontier@, visited_list@, next@, start as int, k);
                lemma_idx_set_len(next@);
            }
            widths.push(next.len());
            frontier = next;
            proof {
                k = k + 1;
                lemma_bfs_growth(adjs, start as int, k);
                lemma_idx_set_len(visited_list@);
            }
        }
        proof {
            assert(bfs_frontier(adjs, start as int, k).is_empty()) by {
                assert forall|j: int|
                    !(#[trigger] bfs_frontier(adjs, start as int, k).contains(j)) by {
                    lemma_idx_set_contains(frontier@, j);
                }
                assert(bfs_frontier(adjs, start as int, k) =~= Set::<int>::empty());
            }
            if k == 0 {
                assert(bfs_frontier(adjs, start as int, 0).contains(start as int));
            }
            lemma_bfs_done(adjs, start as int, k);
            lemma_idx_set_len(visited_list@);
        }
        (visited_list, widths)
    }
}

/// The sum of the lengths of a sequence of cluster collections.
pub open spec fn sum_vec_lens(s: Seq<Vec<Cluster>>) -> int
    decreases s.len(),
{
    if s.len() == 0 {
        0
    } else {
        sum_vec_lens(s.drop_last()) + s.last()@.len()
    }
}

impl Graph {
    /// `comp` lists, without repetition, exactly the clusters of the
    /// connected component of its first element.
    pub open spec fn component_ok(self, comp: Seq<Cluster>) -> bool {
        let i = index_of_key_spec(self.clusters@, comp[0]);
        &&& comp.len() >= 1
        &&& comp.no_duplicates()
        &&& comp.len() == reach_set(self.adjs(), i).len()
        &&& forall|t: int|
            0 <= t < comp.len() ==> {
                let j = index_of_key_spec(self.clusters@, #[trigger] comp[t]);
                0 <= j < self.n() && comp[t] == self.clusters@[j] && reach_set(
                    self.adjs(),
                    i,
                ).contains(j)
            }
        &&& forall|j: int|
            (#[trigger] reach_set(self.adjs(), i).contains(j)) ==> comp.contains(
                self.clusters@[j],
            )
    }

    /// What a traversal from the member cluster with `c`'s key returns: the
    /// clusters of `c`'s connected component, the member itself first, and
    /// the frontier sizes of the breadth-first expansion.
    pub open spec fn traversal_ok(self, c: Cluster, vis: Seq<Cluster>, w: Seq<usize>) -> bool {
        let i = index_of_key_spec(self.clusters@, c);
        &&& vis.len() >= 1
        &&& vis[0] == self.clusters@[i]
        &&& self.component_ok(vis)
        &&& self.widths_ok(i, w)
    }

    /// Maps a collection of positions to the clusters standing there.
    fn clusters_of_indices(&self, idxs: &Vec<usize>) -> (r: Vec<Cluster>)
        requires
            forall|t: int| 0 <= t < idxs@.len() ==> ((#[trigger] idxs@[t]) as int) < self.n(),
        ensures
            r@.len() == idxs@.len(),
            forall|t: int|
                0 <= t < idxs@.len() ==> (#[trigger] r@[t]) == self.clusters@[idxs@[t] as int],
    {
        let mut r: Vec<Cluster> = Vec::new();
        let mut t: usize = 0;
        while t < idxs.len()
            invariant
                t <= idxs@.len(),
                r@.len() == t,
                forall|s: int|
                    0 <= s < idxs@.len() ==> ((#[trigger] idxs@[s]) as int) < self.n(),
                forall|s: int|
                    0 <= s < t ==> (#[trigger] r@[s]) == self.clusters@[idxs@[s] as int],
            decreases idxs@.len() - t,
        {
            r.push(self.clusters[idxs[t]]);
            t += 1;
        }
        r
    }

    /// A duplicate-free collection of positions, covering exactly the reach
    /// set of its first entry, maps to a collection of clusters that lists
    /// the component of that entry.
    proof fn lemma_component_from_indices(
        self,
        idxs: Seq<usize>,
        comp: Seq<Cluster>,
        start: int,
    )
        requires
            self.wf(),
            0 <= start < self.n(),
            idxs.no_duplicates(),
            forall|t: int| 0 <= t < idxs.len() ==> ((#[trigger] idxs[t]) as int) < self.n(),
            idx_set(idxs) == reach_set(self.adjs(), start),
            idxs.len() == reach_set(self.adjs(), start).len(),
            idxs.len() >= 1,
            idxs[0] as int == start,
            comp.len() == idxs.len(),
            forall|t: int|
                0 <= t < idxs.len() ==> (#[trigger] comp[t]) == self.clusters@[idxs[t] as int],
        ensures
            self.component_ok(comp),
            comp[0] == self.clusters@[start],
            index_of_key_spec(self.clusters@, comp[0]) == start,
    {
        let cl = self.clusters@;
        // Each cluster resolves back to its own position.
        assert forall|t: int| 0 <= t < comp.len() implies {
            let j = index_of_key_spec(cl, #[trigger] comp[t]);
            0 <= j < self.n() && comp[t] == cl[j] && j == idxs[t] as int
        } by {
            let j = index_of_key_spec(cl, comp[t]);
            assert(cl[idxs[t] as int].same_key(comp[t]));
            assert(key_in(cl, comp[t]));
            assert(0 <= j < cl.len() && cl[j].same_key(comp[t]));
            Self::lemma_key_unique(cl, comp[t], j, idxs[t] as int);
        }
        assert(index_of_key_spec(cl, comp[0]) == start);
        let i = index_of_key_spec(cl, comp[0]);
        // Reachability of every listed cluster.
        assert forall|t: int| 0 <= t < comp.len() implies reach_set(self.adjs(), i).contains(
            index_of_key_spec(cl, comp[t]),
        ) by {
            lemma_idx_set_contains(idxs, idxs[t] as int);
        }
        // Completeness.
        assert forall|j: int| (#[trigger] reach_set(self.adjs(), i).contains(j)) implies
            comp.contains(cl[j]) by {
            lemma_idx_set_contains(idxs, j);
            let t = choose|t: int| 0 <= t < idxs.len() && (#[trigger] idxs[t]) as int == j;
            assert(comp[t] == cl[j]);
        }
        // No duplicates: distinct positions carry distinct keys.
        assert forall|a: int, b: int| 0 <= a < b < comp.len() implies comp[a] != comp[b] by {
            if comp[a] == comp[b] {
                assert(cl[idxs[a] as int].same_key(cl[idxs[b] as int]));
                assert(idxs[a] != idxs[b]);
                if (idxs[a] as int) < (idxs[b] as int) {
                    assert(!cl[idxs[a] as int].same_key(cl[idxs[b] as int]));
                }
            }
        }
    }

    /// Performs a traversal starting at the given member cluster and
    /// returns the clusters visited and the frontier size at each step.
    /// The caller is responsible for membership.
    pub fn unchecked_traverse(&self, start: &Cluster) -> (r: (Vec<Cluster>, Vec<usize>))
        requires
            self.wf(),
            key_in(self.clusters@, *start),
        ensures
            self.traversal_ok(*start, r.0@, r.1@),
    {
        let i = index_of_key(&self.clusters, start).unwrap();
        proof {
            let ispec = index_of_key_spec(self.clusters@, *start);
            assert(self.clusters@[ispec].same_key(*start));
            Self::lemma_key_unique(self.clusters@, *start, i as int, ispec);
        }
        let (vis, widths) = self.bfs_core(i);
        let out = self.clusters_of_indices(&vis);
        proof {
            self.lemma_component_from_indices(vis@, out@, i as int);
        }
        (out, widths)
    }

    /// Performs a traversal starting at the given cluster, after checking
    /// that it is a member of the graph.
    pub fn traverse(&self, start: &Cluster) -> (r: Result<
        (Vec<Cluster>, Vec<usize>),
        GraphError,
    >)
        requires
            self.wf(),
        ensures
            r is Ok <==> key_in(self.clusters@, *start),
            match r {
                Result::Ok(p) => self.traversal_ok(*start, p.0@, p.1@),
                Result::Err(e) => e == GraphError::UnknownCluster,
            },
    {
        match self.assert_contains(start) {
            Ok(()) => Ok(self.unchecked_traverse(start)),
            Err(e) => Err(e),
        }
    }

    /// The degree of the given member cluster: the number of clusters it
    /// shares an edge with.  The caller is responsible for membership.
    pub fn unchecked_vertex_degree(&self, c: &Cluster) -> (r: usize)
        requires
            self.wf(),
            key_in(self.clusters@, *c),
        ensures
            r as int == self.adjs()[index_of_key_spec(self.clusters@, *c)].len(),
    {
        let i = index_of_key(&self.clusters, c).unwrap();
        proof {
            let ispec = index_of_key_spec(self.clusters@, *c);
            assert(self.clusters@[ispec].same_key(*c));
            Self::lemma_key_unique(self.clusters@, *c, i as int, ispec);
            lemma_idx_set_len(self.adjacency@[i as int]@);
        }
        self.adjacency[i].len()
    }

    /// The degree of the given cluster, after checking membership.
    pub fn vertex_degree(&self, c: &Cluster) -> (r: Result<usize, GraphError>)
        requires
            self.wf(),
        ensures
            r is Ok <==> key_in(self.clusters@, *c),
            match r {
                Result::Ok(d) => d as int == self.adjs()[index_of_key_spec(self.clusters@, *c)]
                    .len(),
                Result::Err(e) => e == GraphError::UnknownCluster,
            },
    {
        match self.assert_contains(c) {
            Ok(()) => Ok(self.unchecked_vertex_degree(c)),
            Err(e) => Err(e),
        }
    }

    /// The clusters adjacent to the given member cluster.  The caller is
    /// responsible for membership.
    pub fn unchecked_neighbors_of(&self, c: &Cluster) -> (r: Vec<Cluster>)
        requires
            self.wf(),
            key_in(self.clusters@, *c),
        ensures
            ({
                let i = index_of_key_spec(self.clusters@, *c);
                &&& r@.len() == self.adjacency@[i]@.len()
                &&& forall|t: int|
                    0 <= t < r@.len() ==> (#[trigger] r@[t])
                        == self.clusters@[self.adjacency@[i]@[t] as int]
            }),
    {
        let i = index_of_key(&self.clusters, c).unwrap();
        proof {
            let ispec = index_of_key_spec(self.clusters@, *c);
            assert(self.clusters@[ispec].same_key(*c));
            Self::lemma_key_unique(self.clusters@, *c, i as int, ispec);
        }
        self.clusters_of_indices(&self.adjacency[i])
    }

    /// The clusters adjacent to the given cluster, after checking
    /// membership.
    pub fn neighbors_of(&self, c: &Cluster) -> (r: Result<Vec<Cluster>, GraphError>)
        requires
            self.wf(),
        ensures
            r is Ok <==> key_in(self.clusters@, *c),
            match r {
                Result::Ok(v) => {
                    let i = index_of_key_spec(self.clusters@, *c);
                    &&& v@.len() == self.adjacency@[i]@.len()
                    &&& forall|t: int|
                        0 <= t < v@.len() ==> (#[trigger] v@[t])
                            == self.clusters@[self.adjacency@[i]@[t] as int]
                },
                Result::Err(e) => e == GraphError::UnknownCluster,
            },
    {
        match self.assert_contains(c) {
            Ok(()) => Ok(self.unchecked_neighbors_of(c)),
            Err(e) => Err(e),
        }
    }
}

impl Graph {
    /// A start not yet covered by earlier components begins a component
    /// disjoint from everything covered so far.
    proof fn lemma_fresh_component(
        self,
        comps: Seq<Vec<Cluster>>,
        comp_sets: Seq<Set<int>>,
        covered: Set<int>,
        s: int,
    )
        requires
            self.wf(),
            comps.len() == comp_sets.len(),
            forall|c: int|
                0 <= c < comps.len() ==> self.component_ok((#[trigger] comps[c])@),
            forall|c: int|
                0 <= c < comps.len() ==> (#[trigger] comp_sets[c]) == reach_set(
                    self.adjs(),
                    index_of_key_spec(self.clusters@, comps[c]@[0]),
                ),
            forall|c: int, j: int|
                0 <= c < comp_sets.len() && (#[trigger] comp_sets[c].contains(j))
                    ==> covered.contains(j),
            forall|j: int|
                (#[trigger] covered.contains(j)) ==> exists|c: int|
                    0 <= c < comp_sets.len() && (#[trigger] comp_sets[c]).contains(j),
            !covered.contains(s),
            0 <= s < self.n(),
        ensures
            covered.disjoint(reach_set(self.adjs(), s)),
    {
        let adjs = self.adjs();
        self.lemma_adjacency_symmetric();
        assert forall|j: int| covered.contains(j) implies !reach_set(adjs, s).contains(j) by {
            if reach_set(adjs, s).contains(j) {
                let c = choose|c: int|
                    0 <= c < comp_sets.len() && (#[trigger] comp_sets[c]).contains(j);
                let rep = index_of_key_spec(self.clusters@, comps[c]@[0]);
                assert(reaches(adjs, rep, j));
                assert(reaches(adjs, s, j));
                lemma_reaches_sym(adjs, s, j);
                lemma_reaches_trans(adjs, rep, j, s);
                assert(comp_sets[c].contains(s));
            }
        }
    }

    /// The cluster-level consequences of a finished decomposition: the
    /// components are pairwise disjoint and exhaust the graph.
    proof fn lemma_components_final(
        self,
        comps: Seq<Vec<Cluster>>,
        comp_sets: Seq<Set<int>>,
        covered: Set<int>,
    )
        requires
            self.wf(),
            comps.len() == comp_sets.len(),
            forall|c: int|
                0 <= c < comps.len() ==> self.component_ok((#[trigger] comps[c])@),
            forall|c: int|
                0 <= c < comps.len() ==> (#[trigger] comp_sets[c]) == reach_set(
                    self.adjs(),
                    index_of_key_spec(self.clusters@, comps[c]@[0]),
                ),
            forall|j: int|
                (#[trigger] covered.contains(j)) ==> exists|c: int|
                    0 <= c < comp_sets.len() && (#[trigger] comp_sets[c]).contains(j),
            forall|c1: int, c2: int|
                0 <= c1 < c2 < comp_sets.len() ==> (#[trigger] comp_sets[c1]).disjoint(
                    #[trigger] comp_sets[c2],
                ),
            forall|j: int| 0 <= j < self.n() ==> covered.contains(j),
        ensures
            forall|c1: int, c2: int, t1: int, t2: int|
                0 <= c1 < c2 < comps.len() && 0 <= t1 < comps[c1]@.len() && 0 <= t2
                    < comps[c2]@.len() ==> !(#[trigger] comps[c1]@[t1]).same_key(
                    #[trigger] comps[c2]@[t2],
                ),
            forall|j: int|
                0 <= j < self.n() ==> exists|c: int, t: int|
                    0 <= c < comps.len() && 0 <= t < comps[c]@.len() && (
                    #[trigger] comps[c]@[t]) == (#[trigger] self.clusters@[j]),
    {
        assert forall|j: int| 0 <= j < self.n() implies exists|c: int, t: int|
            0 <= c < comps.len() && 0 <= t < comps[c]@.len() && (#[trigger] comps[c]@[t]) == (
        #[trigger] self.clusters@[j]) by {
            assert(covered.contains(j));
            let c = choose|c: int|
                0 <= c < comp_sets.len() && (#[trigger] comp_sets[c]).contains(j);
            let rep = index_of_key_spec(self.clusters@, comps[c]@[0]);
            assert(reach_set(self.adjs(), rep).contains(j));
            assert(comps[c]@.contains(self.clusters@[j]));
            let t = choose|t: int| 0 <= t < comps[c]@.len() && comps[c]@[t] == self.clusters@[j];
            assert(0 <= c < comps.len() && 0 <= t < comps[c]@.len() && (#[trigger] comps[c]@[t])
                == (#[trigger] self.clusters@[j]));
        }
        assert forall|c1: int, c2: int, t1: int, t2: int|
            0 <= c1 < c2 < comps.len() && 0 <= t1 < comps[c1]@.len() && 0 <= t2
                < comps[c2]@.len() implies !(#[trigger] comps[c1]@[t1]).same_key(
            #[trigger] comps[c2]@[t2],
        ) by {
            if comps[c1]@[t1].same_key(comps[c2]@[t2]) {
                let j1 = index_of_key_spec(self.clusters@, comps[c1]@[t1]);
                let j2 = index_of_key_spec(self.clusters@, comps[c2]@[t2]);
                assert(comps[c1]@[t1] == self.clusters@[j1]);
                assert(comps[c2]@[t2] == self.clusters@[j2]);
                assert(self.clusters@[j1].same_key(self.clusters@[j2]));
                if j1 < j2 {
                    assert(!self.clusters@[j1].same_key(self.clusters@[j2]));
                }
                if j2 < j1 {
                    assert(!self.clusters@[j2].same_key(self.clusters@[j1]));
                }
                assert(j1 == j2);
                assert(comp_sets[c1].contains(j1));
                assert(comp_sets[c2].contains(j1));
                assert(comp_sets[c1].disjoint(comp_sets[c2]));
            }
        }
    }

    /// Gathers the component of the not-yet-covered cluster at position
    /// `s`, marking every position it visits.
    #[verifier::loop_isolation(false)]
    fn collect_component(
        &self,
        done: &mut Vec<bool>,
        s: usize,
        Ghost(cov0): Ghost<Set<int>>,
    ) -> (comp: Vec<Cluster>)
        requires
            self.wf(),
            (s as int) < self.n(),
            old(done)@.len() == self.n(),
            forall|j: int|
                0 <= j < self.n() ==> ((#[trigger] old(done)@[j]) <==> cov0.contains(j)),
            !cov0.contains(s as int),
        ensures
            final(done)@.len() == self.n(),
            forall|j: int|
                0 <= j < self.n() ==> ((#[trigger] final(done)@[j]) <==> cov0.union(
                    reach_set(self.adjs(), s as int),
                ).contains(j)),
            self.component_ok(comp@),
            comp@.len() == reach_set(self.adjs(), s as int).len(),
            comp@.len() >= 1,
            index_of_key_spec(self.clusters@, comp@[0]) == s as int,
            forall|j: int|
                (#[trigger] reach_set(self.adjs(), s as int).contains(j)) ==> 0 <= j < self.n(),
    {
        let n = self.clusters.len();
        let ghost adjs = self.adjs();
        let (vis, _widths) = self.bfs_core(s);
        let comp = self.clusters_of_indices(&vis);
        proof {
            self.lemma_component_from_indices(vis@, comp@, s as int);
            lemma_reach_set_finite(adjs, s as int);
        }
        let mut t: usize = 0;
        while t < vis.len()
            invariant
                t <= vis@.len(),
                done@.len() == n,
                forall|j: int|
                    0 <= j < n ==> ((#[trigger] done@[j]) <==> (cov0.contains(j) || exists|
                        tt: int,
                    |
                        0 <= tt < t && (#[trigger] vis@[tt]) as int == j)),
            decreases vis@.len() - t,
        {
            let u = vis[t];
            done[u] = true;
            proof {
                assert forall|j: int| 0 <= j < n implies ((#[trigger] done@[j]) <==> (
                cov0.contains(j) || exists|tt: int|
                    0 <= tt < t + 1 && (#[trigger] vis@[tt]) as int == j)) by {
                    if done@[j] && !cov0.contains(j) {
                        if j == u as int {
                            assert(0 <= t < t + 1 && vis@[t as int] as int == j);
                        } else {
                            let tt = choose|tt: int|
                                0 <= tt < t && (#[trigger] vis@[tt]) as int == j;
                            assert(0 <= tt < t + 1 && vis@[tt] as int == j);
                        }
                    }
                }
            }
            t += 1;
        }
        proof {
            assert forall|j: int| 0 <= j < n implies ((#[trigger] done@[j]) <==> cov0.union(
                reach_set(adjs, s as int),
            ).contains(j)) by {
                lemma_idx_set_contains(vis@, j);
            }
        }
        comp
    }

    /// The running state of the component decomposition: the components
    /// gathered so far, their position sets, and the union of those sets.
    #[verifier::opaque]
    spec fn decomp_inv(
        self,
        comps: Seq<Vec<Cluster>>,
        comp_sets: Seq<Set<int>>,
        covered: Set<int>,
    ) -> bool {
        &&& comps.len() == comp_sets.len()
        &&& covered.finite()
        &&& forall|j: int| (#[trigger] covered.contains(j)) ==> 0 <= j < self.n()
        &&& forall|c: int| 0 <= c < comps.len() ==> self.component_ok((#[trigger] comps[c])@)
        &&& forall|c: int|
            0 <= c < comps.len() ==> (#[trigger] comp_sets[c]) == reach_set(
                self.adjs(),
                index_of_key_spec(self.clusters@, comps[c]@[0]),
            )
        &&& forall|c: int|
            0 <= c < comps.len() ==> (#[trigger] comps[c])@.len() == comp_sets[c].len()
        &&& forall|c: int, j: int|
            0 <= c < comp_sets.len() && (#[trigger] comp_sets[c].contains(j))
                ==> covered.contains(j)
        &&& forall|j: int|
            (#[trigger] covered.contains(j)) ==> exists|c: int|
                0 <= c < comp_sets.len() && (#[trigger] comp_sets[c]).contains(j)
        &&& forall|c1: int, c2: int|
            0 <= c1 < c2 < comp_sets.len() ==> (#[trigger] comp_sets[c1]).disjoint(
                #[trigger] comp_sets[c2],
            )
    }

    /// The decomposition starts with nothing gathered.
    proof fn lemma_decomp_init(self)
        ensures
            self.decomp_inv(Seq::empty(), Seq::empty(), Set::empty()),
    {
        reveal(Graph::decomp_inv);
    }

    /// Gathering the component of a not-yet-covered position keeps the
    /// decomposition state consistent and grows the covered set by exactly
    /// the new component's size.
    proof fn lemma_decomp_extend(
        self,
        comps: Seq<Vec<Cluster>>,
        comp_sets: Seq<Set<int>>,
        covered: Set<int>,
        comp: Vec<Cluster>,
        s: int,
    )
        requires
            self.wf(),
            self.decomp_inv(comps, comp_sets, covered),
            0 <= s < self.n(),
            !covered.contains(s),
            self.component_ok(comp@),
            comp@.len() == reach_set(self.adjs(), s).len(),
            comp@.len() >= 1,
            index_of_key_spec(self.clusters@, comp@[0]) == s,
        ensures
            self.decomp_inv(
                comps.push(comp),
                comp_sets.push(reach_set(self.adjs(), s)),
                covered.union(reach_set(self.adjs(), s)),
            ),
            covered.union(reach_set(self.adjs(), s)).len() == covered.len() + comp@.len(),
            covered.union(reach_set(self.adjs(), s)).len() <= self.n(),
            forall|j: int|
                (#[trigger] covered.union(reach_set(self.adjs(), s)).contains(j)) <==> (
                covered.contains(j) || reach_set(self.adjs(), s).contains(j)),
    {
        reveal(Graph::decomp_inv);
        let adjs = self.adjs();
        let newset = reach_set(adjs, s);
        let covered2 = covered.union(newset);
        self.lemma_fresh_component(comps, comp_sets, covered, s);
        lemma_reach_set_finite(adjs, s);
        lemma_set_disjoint_lens(covered, newset);
        assert(covered + newset == covered2);
        lemma_int_range(0, self.n());
        assert forall|j: int| covered2.contains(j) implies set_int_range(0, self.n()).contains(
            j,
        ) by {}
        lemma_len_subset(covered2, set_int_range(0, self.n()));
        let comps2 = comps.push(comp);
        let comp_sets2 = comp_sets.push(newset);
        assert forall|j: int| (#[trigger] covered2.contains(j)) implies exists|c: int|
            0 <= c < comp_sets2.len() && (#[trigger] comp_sets2[c]).contains(j) by {
            if covered.contains(j) {
                let c = choose|c: int|
                    0 <= c < comp_sets.len() && (#[trigger] comp_sets[c]).contains(j);
                assert(comp_sets2[c].contains(j));
            } else {
                assert(comp_sets2[comp_sets2.len() - 1].contains(j));
            }
        }
        assert forall|c1: int, c2: int|
            0 <= c1 < c2 < comp_sets2.len() implies (#[trigger] comp_sets2[c1]).disjoint(
            #[trigger] comp_sets2[c2],
        ) by {
            if c2 == comp_sets2.len() - 1 {
                assert(comp_sets2[c1] == comp_sets[c1]);
                assert forall|j: int| comp_sets[c1].contains(j) implies !newset.contains(j) by {
                    assert(covered.contains(j));
                }
            }
        }
    }

    /// A decomposition that covers every position yields the public
    /// guarantees: pairwise disjoint components that exhaust the graph.
    proof fn lemma_decomp_done(
        self,
        comps: Seq<Vec<Cluster>>,
        comp_sets: Seq<Set<int>>,
        covered: Set<int>,
    )
        requires
            self.wf(),
            self.decomp_inv(comps, comp_sets, covered),
            forall|j: int| 0 <= j < self.n() ==> covered.contains(j),
        ensures
            forall|c: int| 0 <= c < comps.len() ==> self.component_ok((#[trigger] comps[c])@),
            forall|c1: int, c2: int, t1: int, t2: int|
                0 <= c1 < c2 < comps.len() && 0 <= t1 < comps[c1]@.len() && 0 <= t2
                    < comps[c2]@.len() ==> !(#[trigger] comps[c1]@[t1]).same_key(
                    #[trigger] comps[c2]@[t2],
                ),
            forall|j: int|
                0 <= j < self.n() ==> exists|c: int, t: int|
                    0 <= c < comps.len() && 0 <= t < comps[c]@.len() && (
                    #[trigger] comps[c]@[t]) == (#[trigger] self.clusters@[j]),
            covered.len() == self.n(),
    {
        reveal(Graph::decomp_inv);
        self.lemma_components_final(comps, comp_sets, covered);
        lemma_int_range(0, self.n());
        assert(covered =~= set_int_range(0, self.n()));
    }

    /// Splits the graph into its connected components.  Each returned
    /// collection lists the clusters of one component; the collections are
    /// pairwise disjoint and together they exhaust the graph.
    #[verifier::rlimit(100)]
    pub fn find_component_clusters(&self) -> (r: Vec<Vec<Cluster>>)
        requires
            self.wf(),
        ensures
            forall|c: int| 0 <= c < r@.len() ==> self.component_ok((#[trigger] r@[c])@),
            forall|c1: int, c2: int, t1: int, t2: int|
                0 <= c1 < c2 < r@.len() && 0 <= t1 < r@[c1]@.len() && 0 <= t2 < r@[c2]@.len()
                    ==> !(#[trigger] r@[c1]@[t1]).same_key(#[trigger] r@[c2]@[t2]),
            forall|j: int|
                0 <= j < self.n() ==> exists|c: int, t: int|
                    0 <= c < r@.len() && 0 <= t < r@[c]@.len() && (#[trigger] r@[c]@[t])
                        == (#[trigger] self.clusters@[j]),
            sum_vec_lens(r@) == self.n(),
    {
        let n = self.clusters.len();
        let ghost adjs = self.adjs();
        let mut done = falses(n);
        let mut comps: Vec<Vec<Cluster>> = Vec::new();
        let mut total: usize = 0;
        let ghost mut comp_sets: Seq<Set<int>> = Seq::empty();
        let ghost mut covered: Set<int> = Set::empty();
        proof {
            self.lemma_decomp_init();
        }
        let mut s: usize = 0;
        while s < n
            invariant
                self.wf(),
                n == self.n(),
                adjs == self.adjs(),
                s <= n,
                done@.len() == n,
                total as int == sum_vec_lens(comps@),
                covered.len() == total,
                total <= n,
                forall|j: int| 0 <= j < n ==> ((#[trigger] done@[j]) <==> covered.contains(j)),
                forall|j: int| 0 <= j < s ==> (#[trigger] done@[j]),
                self.decomp_inv(comps@, comp_sets, covered),
            decreases n - s,
        {
            let ghost done0 = done@;
            if !done[s] {
                let ghost newset = reach_set(adjs, s as int);
                let ghost cov0 = covered;
                let comp = self.collect_component(&mut done, s, Ghost(covered));
                proof {
                    self.lemma_decomp_extend(comps@, comp_sets, covered, comp, s as int);
                    assert(cov0.union(newset).len() == total + comp@.len());
                }
                let ghost comps0 = comps@;
                total = total + comp.len();
                comps.push(comp);
                proof {
                    comp_sets = comp_sets.push(newset);
                    covered = cov0.union(newset);
                    assert(comps@.drop_last() =~= comps0);
                }
            }
            proof {
                assert(reaches_in(adjs, s as int, s as int, 0));
                assert(reach_set(adjs, s as int).contains(s as int)) by {
                    assert(reaches(adjs, s as int, s as int));
                }
                assert(covered.contains(s as int));
                assert forall|j: int| 0 <= j <= s as int implies (#[trigger] done@[j]) by {
                    if j < s as int {
                        assert(done0[j]);
                    }
                    assert(covered.contains(j));
                }
            }
            s += 1;
        }
        proof {
            assert forall|j: int| 0 <= j < self.n() implies covered.contains(j) by {
                assert(done@[j]);
            }
            self.lemma_decomp_done(comps@, comp_sets, covered);
        }
        comps
    }

    /// Computes, for every cluster, the frontier sizes of a traversal
    /// started there, and stores them for the eccentricity queries.
    #[verifier::loop_isolation(false)]
    pub fn with_eccentricities(self) -> (r: Graph)
        requires
            self.wf(),
        ensures
            r.wf(),
            r.clusters@ == self.clusters@,
            r.edges@ == self.edges@,
            r.adjacency@ == self.adjacency@,
            r.population == self.population,
            r.min_depth == self.min_depth,
            r.max_depth == self.max_depth,
            r.distance_matrix == self.distance_matrix,
            r.adjacency_matrix == self.adjacency_matrix,
            match r.frontier_rows() {
                Option::Some(rows) => rows.len() == self.n() && forall|i: int|
                    0 <= i < self.n() ==> self.widths_ok(i, #[trigger] rows[i]),
                Option::None => false,
            },
    {
        let n = self.clusters.len();
        let mut rows: Vec<Vec<usize>> = Vec::new();
        let mut i: usize = 0;
        while i < n
            invariant
                i <= n,
                rows@.len() == i,
                forall|t: int|
                    0 <= t < i ==> self.widths_ok(t, (#[trigger] rows@[t])@),
            decreases n - i,
        {
            let (_vis, widths) = self.bfs_core(i);
            rows.push(widths);
            i += 1;
        }
        let r = Graph { frontier_sizes: Some(rows), ..self };
        proof {
            assert(r.adjs() =~= self.adjs());
            match r.frontier_rows() {
                Option::Some(rws) => {
                    assert forall|t: int| 0 <= t < self.n() implies r.widths_ok(
                        t,
                        #[trigger] rws[t],
                    ) by {
                        assert(rws[t] == rows@[t]@);
                    }
                    assert forall|t: int| 0 <= t < self.n() implies self.widths_ok(
                        t,
                        #[trigger] rws[t],
                    ) by {
                        assert(rws[t] == rows@[t]@);
                    }
                },
                Option::None => {
                    assert(false);
                },
            }
        }
        r
    }

    /// The stored frontier sizes of the given member cluster.  The caller
    /// is responsible for membership and for having requested the record.
    pub fn unchecked_frontier_sizes(&self, c: &Cluster) -> (r: &Vec<usize>)
        requires
            self.wf(),
            self.frontier_sizes is Some,
            key_in(self.clusters@, *c),
        ensures
            self.widths_ok(index_of_key_spec(self.clusters@, *c), r@),
    {
        let i = index_of_key(&self.clusters, c).unwrap();
        proof {
            let ispec = index_of_key_spec(self.clusters@, *c);
            assert(self.clusters@[ispec].same_key(*c));
            Self::lemma_key_unique(self.clusters@, *c, i as int, ispec);
        }
        match &self.frontier_sizes {
            Some(rows) => {
                proof {
                    match self.frontier_rows() {
                        Option::Some(rws) => {
                            assert(rws[i as int] == rows@[i as int]@);
                        },
                        Option::None => {
                            assert(false);
                        },
                    }
                }
                &rows[i]
            },
            None => unreached(),
        }
    }

    /// The stored frontier sizes of the given cluster, after checking
    /// membership.
    pub fn frontier_sizes(&self, c: &Cluster) -> (r: Result<&Vec<usize>, GraphError>)
        requires
            self.wf(),
            self.frontier_sizes is Some,
        ensures
            r is Ok <==> key_in(self.clusters@, *c),
            match r {
                Result::Ok(w) => self.widths_ok(index_of_key_spec(self.clusters@, *c), w@),
                Result::Err(e) => e == GraphError::UnknownCluster,
            },
    {
        match self.assert_contains(c) {
            Ok(()) => Ok(self.unchecked_frontier_sizes(c)),
            Err(e) => Err(e),
        }
    }

    /// The eccentricity of the given member cluster: the number of rounds
    /// its traversal takes.  The caller is responsible for membership and
    /// for having requested the record.
    pub fn unchecked_eccentricity(&self, c: &Cluster) -> (r: usize)
        requires
            self.wf(),
            self.frontier_sizes is Some,
            key_in(self.clusters@, *c),
        ensures
            exists|w: Seq<usize>|
                self.widths_ok(index_of_key_spec(self.clusters@, *c), w) && r == w.len(),
    {
        let w = self.unchecked_frontier_sizes(c);
        proof {
            let ispec = index_of_key_spec(self.clusters@, *c);
            assert(self.widths_ok(ispec, w@) && w@.len() == w@.len());
        }
        w.len()
    }

    /// The eccentricity of the given cluster, after checking membership.
    pub fn eccentricity(&self, c: &Cluster) -> (r: Result<usize, GraphError>)
        requires
            self.wf(),
            self.frontier_sizes is Some,
        ensures
            r is Ok <==> key_in(self.clusters@, *c),
            match r {
                Result::Ok(e) => exists|w: Seq<usize>|
                    self.widths_ok(index_of_key_spec(self.clusters@, *c), w) && e == w.len(),
                Result::Err(e) => e == GraphError::UnknownCluster,
            },
    {
        match self.assert_contains(c) {
            Ok(()) => Ok(self.unchecked_eccentricity(c)),
            Err(e) => Err(e),
        }
    }

    /// The diameter of the graph: the largest eccentricity of any cluster.
    #[verifier::loop_isolation(false)]
    pub fn diameter(&self) -> (r: usize)
        requires
            self.wf(),
            self.frontier_sizes is Some,
        ensures
            match self.frontier_rows() {
                Option::Some(rows) => (exists|i: int|
                    0 <= i < self.n() && r == (#[trigger] rows[i]).len()) && forall|i: int|
                    0 <= i < self.n() ==> (#[trigger] rows[i]).len() <= r,
                Option::None => false,
            },
    {
        let rows = match &self.frontier_sizes {
            Some(rows) => rows,
            None => unreached(),
        };
        let ghost rws = self.frontier_rows()->Some_0;
        proof {
            assert forall|i: int| 0 <= i < self.n() implies (#[trigger] rws[i]) == rows@[i]@ by {}
        }
        let n = self.clusters.len();
        let mut best: usize = rows[0].len();
        let mut i: usize = 1;
        proof {
            assert(rws[0].len() == best);
        }
        while i < n
            invariant
                1 <= i <= n,
                exists|t: int| 0 <= t < i && best == (#[trigger] rws[t]).len(),
                forall|t: int| 0 <= t < i ==> (#[trigger] rws[t]).len() <= best,
            decreases n - i,
        {
            let l = rows[i].len();
            if l > best {
                best = l;
                proof {
                    assert(0 <= (i as int) && (i as int) < i + 1 && best == rws[i as int].len());
                }
            }
            i += 1;
        }
        best
    }

    /// Computes the pairwise distance matrix of the graph and stores it:
    /// entry `(i, j)` is the distance labelling the edge between clusters
    /// `i` and `j`, and zero where there is no edge.
    #[verifier::loop_isolation(false)]
    #[verifier::rlimit(100)]
    pub fn with_distance_matrix(self) -> (r: Graph)
        requires
            self.wf(),
        ensures
            r.wf(),
            r.clusters@ == self.clusters@,
            r.edges@ == self.edges@,
            r.adjacency@ == self.adjacency@,
            r.population == self.population,
            r.min_depth == self.min_depth,
            r.max_depth == self.max_depth,
            r.adjacency_matrix == self.adjacency_matrix,
            r.frontier_sizes == self.frontier_sizes,
            match r.distance_matrix {
                Option::Some(m) => m@.len() == self.n() && forall|i: int, j: int|
                    0 <= i < self.n() && 0 <= j < self.n() ==> (#[trigger] m@[i]@[j]) == edge_dist(
                        self.edges@,
                        self.clusters@[i],
                        self.clusters@[j],
                    ),
                Option::None => false,
            },
    {
        let n = self.clusters.len();
        let mut m: Vec<Vec<u64>> = Vec::new();
        let mut i: usize = 0;
        while i < n
            invariant
                i <= n,
                m@.len() == i,
                forall|a: int| 0 <= a < i ==> (#[trigger] m@[a]@).len() == n,
                forall|a: int, b: int|
                    0 <= a < i && 0 <= b < n ==> (#[trigger] m@[a]@[b]) == 0,
            decreases n - i,
        {
            let mut row: Vec<u64> = Vec::new();
            let mut j: usize = 0;
            while j < n
                invariant
                    j <= n,
                    row@.len() == j,
                    forall|b: int| 0 <= b < j ==> (#[trigger] row@[b]) == 0,
                decreases n - j,
            {
                row.push(0);
                j += 1;
            }
            m.push(row);
            i += 1;
        }
        let mut t: usize = 0;
        while t < self.edges.len()
            invariant
                t <= self.edges@.len(),
                m@.len() == n,
                forall|a: int| 0 <= a < n ==> (#[trigger] m@[a]@).len() == n,
                forall|a: int, b: int|
                    0 <= a < n && 0 <= b < n ==> (#[trigger] m@[a]@[b]) == edge_dist_upto(
                        self.edges@,
                        t as int,
                        self.clusters@[a],
                        self.clusters@[b],
                    ),
            decreases self.edges@.len() - t,
        {
            let e = self.edges[t];
            let li = index_of_key(&self.clusters, &e.left).unwrap();
            let ri = index_of_key(&self.clusters, &e.right).unwrap();
            proof {
                assert forall|a: int|
                    0 <= a < n && self.clusters@[a].same_key(e.left) implies a == li as int by {
                    Self::lemma_key_unique(self.clusters@, e.left, a, li as int);
                }
                assert forall|a: int|
                    0 <= a < n && self.clusters@[a].same_key(e.right) implies a == ri as int by {
                    Self::lemma_key_unique(self.clusters@, e.right, a, ri as int);
                }
            }
            let ghost prev = m@;
            let d = e.distance;
            m[li][ri] = d;
            m[ri][li] = d;
            proof {
                let cl = self.clusters@;
                let es = self.edges@;
                assert forall|a: int, b: int| 0 <= a < n && 0 <= b < n implies (
                #[trigger] m@[a]@[b]) == edge_dist_upto(es, t + 1, cl[a], cl[b]) by {
                    let joined = es[t as int].joins(cl[a], cl[b]);
                    assert(joined <==> ((a == li as int && b == ri as int) || (a == ri as int && b
                        == li as int))) by {
                        if es[t as int].joins(cl[a], cl[b]) {
                            if es[t as int].left.same_key(cl[a]) {
                                Self::lemma_key_unique(cl, e.left, a, li as int);
                                Self::lemma_key_unique(cl, e.right, b, ri as int);
                            } else {
                                Self::lemma_key_unique(cl, e.right, a, ri as int);
                                Self::lemma_key_unique(cl, e.left, b, li as int);
                            }
                        }
                    }
                    if joined {
                        assert(m@[a]@[b] == d);
                    } else {
                        assert(m@[a]@[b] == prev[a]@[b]);
                    }
                }
            }
            t += 1;
        }
        let r = Graph { distance_matrix: Some(m), ..self };
        proof {
            assert(r.adjs() =~= self.adjs());
        }
        r
    }

    /// Derives the boolean adjacency matrix from the stored distance
    /// matrix: entry `(i, j)` is set exactly when the distance entry is not
    /// zero.  The distance matrix must have been computed first.
    #[verifier::loop_isolation(false)]
    #[verifier::rlimit(100)]
    pub fn with_adjacency_matrix(self) -> (r: Graph)
        requires
            self.wf(),
            self.distance_matrix is Some,
        ensures
            r.wf(),
            r.clusters@ == self.clusters@,
            r.edges@ == self.edges@,
            r.adjacency@ == self.adjacency@,
            r.population == self.population,
            r.min_depth == self.min_depth,
            r.max_depth == self.max_depth,
            r.distance_matrix == self.distance_matrix,
            r.frontier_sizes == self.frontier_sizes,
            match r.adjacency_matrix {
                Option::Some(am) => am@.len() == self.n() && forall|i: int, j: int|
                    0 <= i < self.n() && 0 <= j < self.n() ==> ((#[trigger] am@[i]@[j])
                        <==> edge_dist(self.edges@, self.clusters@[i], self.clusters@[j]) != 0),
                Option::None => false,
            },
    {
        let n = self.clusters.len();
        let dm = match &self.distance_matrix {
            Some(dm) => dm,
            None => unreached(),
        };
        let mut am: Vec<Vec<bool>> = Vec::new();
        let mut i: usize = 0;
        while i < n
            invariant
                i <= n,
                am@.len() == i,
                forall|a: int| 0 <= a < i ==> (#[trigger] am@[a]@).len() == n,
                forall|a: int, b: int|
                    0 <= a < i && 0 <= b < n ==> ((#[trigger] am@[a]@[b]) <==> dm@[a]@[b] != 0),
            decreases n - i,
        {
            let mut row: Vec<bool> = Vec::new();
            let mut j: usize = 0;
            while j < n
                invariant
                    j <= n,
                    i < n,
                    row@.len() == j,
                    forall|b: int|
                        0 <= b < j ==> ((#[trigger] row@[b]) <==> dm@[i as int]@[b] != 0),
                decreases n - j,
            {
                row.push(dm[i][j] != 0);
                j += 1;
            }
            am.push(row);
            i += 1;
        }
        let r = Graph { adjacency_matrix: Some(am), ..self };
        proof {
            assert(r.adjs() =~= self.adjs());
        }
        r
    }

    /// Every member of a component sees the whole component: a traversal
    /// started at any member visits exactly as many clusters as the
    /// component holds.
    pub proof fn lemma_component_traversal(
        self,
        comp: Seq<Cluster>,
        t: int,
        vis: Seq<Cluster>,
        w: Seq<usize>,
    )
        requires
            self.wf(),
            self.component_ok(comp),
            0 <= t < comp.len(),
            self.traversal_ok(comp[t], vis, w),
        ensures
            vis.len() == comp.len(),
    {
        let i0 = index_of_key_spec(self.clusters@, comp[0]);
        let it = index_of_key_spec(self.clusters@, comp[t]);
        self.lemma_adjacency_symmetric();
        assert(reach_set(self.adjs(), i0).contains(it));
        lemma_reach_set_eq(self.adjs(), i0, it);
    }

    /// The width record of a traversal is determined by its start: any two
    /// valid records agree.
    pub proof fn lemma_widths_unique(self, i: int, w1: Seq<usize>, w2: Seq<usize>)
        requires
            self.widths_ok(i, w1),
            self.widths_ok(i, w2),
        ensures
            w1 == w2,
    {
        if w1.len() < w2.len() {
            let k1 = w1.len() as int;
            assert(1 <= k1 < w2.len());
            assert(!(bfs_frontier(self.adjs(), i, k1 as nat)).is_empty());
            assert(k1 as nat == w1.len());
        }
        if w2.len() < w1.len() {
            let k2 = w2.len() as int;
            assert(1 <= k2 < w1.len());
            assert(!(bfs_frontier(self.adjs(), i, k2 as nat)).is_empty());
            assert(k2 as nat == w2.len());
        }
        assert(w1.len() == w2.len());
        assert forall|k: int| 0 <= k < w1.len() implies w1[k] == w2[k] by {
            assert(w1[k] as int == bfs_frontier(self.adjs(), i, (k + 1) as nat).len());
            assert(w2[k] as int == bfs_frontier(self.adjs(), i, (k + 1) as nat).len());
        }
        assert(w1 =~= w2);
    }
}

} // verus!
