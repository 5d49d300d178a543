//! The compact, index-based view of the proximity graph: connected
//! components with array-backed analytics for the anomaly pipeline.

use vstd::prelude::*;
use vstd::set_lib::lemma_int_range;
use vstd::set_lib::lemma_len_subset;
use vstd::set_lib::set_int_range;

use crate::cluster::all_wf;
use crate::cluster::distinct_keys;
use crate::cluster::Cluster;
use crate::cluster::Ratios;
use crate::dataset::cluster_dist;
use crate::dataset::cluster_distance;
use crate::dataset::lemma_cluster_dist_sym;
use crate::dataset::overlap;
use crate::dataset::valid_for;
use crate::dataset::VecDataset;
use crate::reach::adj_in_range;
use crate::reach::adj_symmetric;
use crate::reach::lemma_closed_contains_reach;
use crate::reach::lemma_reach_set_finite;
use crate::reach::lemma_reaches_step;
use crate::reach::lemma_reaches_trans;
use crate::reach::reach_set;
use crate::reach::reaches;
use crate::reach::reaches_in;
use crate::stationary::mat_view;
use crate::stationary::norm_mat;
use crate::stationary::norm_row;
use crate::stationary::row_sum;
use crate::stationary::row_sum_upto;
use crate::stationary::stationary_from_weights;
use crate::stationary::stationary_spec;
use crate::stationary::mat_sq;
use crate::stationary::mat_iter_sq;
use crate::stationary::row_sums;
use crate::stationary::lemma_iter_fixed;
use crate::stationary::sq_entry;
use crate::stationary::dot_upto;
use crate::stationary::lemma_div_le_self;
use crate::stationary::lemma_row_sum_nonneg;
use crate::stationary::lemma_sum_zero_rows;
use crate::stationary::lemma_entry_le_sum;
use crate::stationary::PROB_SCALE;

verus! {

/// The set of component positions named by one adjacency row.
pub open spec fn pair_idx_set(row: Seq<(usize, u64)>) -> Set<int> {
    row.map_values(|p: (usize, u64)| p.0 as int).to_set()
}

/// Membership in the position set of a row.
pub proof fn lemma_pair_idx_set_contains(row: Seq<(usize, u64)>, j: int)
    ensures
        pair_idx_set(row).contains(j) <==> exists|t: int|
            0 <= t < row.len() && ((#[trigger] row[t]).0 as int) == j,
{
    let m = row.map_values(|p: (usize, u64)| p.0 as int);
    if pair_idx_set(row).contains(j) {
        assert(m.contains(j));
        let t = choose|t: int| 0 <= t < m.len() && m[t] == j;
        assert((row[t].0 as int) == j);
    }
    if exists|t: int| 0 <= t < row.len() && ((#[trigger] row[t]).0 as int) == j {
        let t = choose|t: int| 0 <= t < row.len() && ((#[trigger] row[t]).0 as int) == j;
        assert(m[t] == j);
        assert(m.contains(j));
    }
}

/// The total number of instances covered by a prefix of the member
/// records, each record carrying `(offset, cardinality, center index)`.
pub open spec fn sum_triple_card_upto(s: Seq<(usize, usize, usize)>, t: int) -> int
    decreases t,
{
    if t <= 0 {
        0
    } else {
        sum_triple_card_upto(s, t - 1) + s[t - 1].1
    }
}

/// The total number of instances covered by the member records.
pub open spec fn sum_triple_card(s: Seq<(usize, usize, usize)>) -> int {
    sum_triple_card_upto(s, s.len() as int)
}

/// Prefix sums of member cardinalities are non-negative and never exceed
/// the full sum.
pub proof fn lemma_sum_triple_card_mono(s: Seq<(usize, usize, usize)>, t: int)
    requires
        0 <= t <= s.len(),
    ensures
        0 <= sum_triple_card_upto(s, t) <= sum_triple_card(s),
    decreases s.len() - t,
{
    lemma_sum_triple_card_nonneg(s, t);
    if t < s.len() {
        lemma_sum_triple_card_mono(s, t + 1);
    }
}

proof fn lemma_sum_triple_card_nonneg(s: Seq<(usize, usize, usize)>, t: int)
    ensures
        0 <= sum_triple_card_upto(s, t),
    decreases t,
{
    if t > 0 {
        lemma_sum_triple_card_nonneg(s, t - 1);
    }
}

/// The member record of one cluster: its offset, cardinality and center
/// index.
pub open spec fn triple_of(c: Cluster) -> (usize, usize, usize) {
    (c.offset, c.cardinality, c.arg_center)
}

/// The member records of a cluster collection: each cluster reduced to its
/// `(offset, cardinality, center index)` triple.
pub open spec fn triples_of(s: Seq<Cluster>) -> Seq<(usize, usize, usize)> {
    s.map_values(|c: Cluster| (c.offset, c.cardinality, c.arg_center))
}

/// In a collection with distinct identity keys, a member record names one
/// position.
pub proof fn lemma_triple_unique(s: Seq<Cluster>, w1: int, w2: int)
    requires
        distinct_keys(s),
        0 <= w1 < s.len(),
        0 <= w2 < s.len(),
        triple_of(s[w1]) == triple_of(s[w2]),
    ensures
        w1 == w2,
{
    if w1 < w2 {
        assert(!s[w1].same_key(s[w2]));
    }
    if w2 < w1 {
        assert(!s[w2].same_key(s[w1]));
    }
}

/// The accumulated child-parent cardinality ratios of a cluster collection.
pub open spec fn cp_ratios_of(s: Seq<Cluster>) -> Seq<u64> {
    s.map_values(|c: Cluster| c.accumulated_cp_car_ratio)
}

/// The ratio-feature records of a cluster collection.
pub open spec fn ratios_of(s: Seq<Cluster>) -> Seq<Ratios> {
    s.map_values(|c: Cluster| c.ratios)
}

/// The neighbor lists of `comp` record exactly the ball-overlap relation
/// and the center distances of the clusters its member records name: two
/// members are neighbors at distance `d` precisely when their source
/// clusters are distinct, their metric balls overlap, and `d` is the
/// distance between their centers.
pub open spec fn adjacency_matches(
    comp: Component,
    clusters: Seq<Cluster>,
    data: VecDataset,
) -> bool {
    forall|a: int, b: int, d: u64, w1: int, w2: int|
        0 <= a < comp.n() && 0 <= b < comp.n() && 0 <= w1 < clusters.len() && 0 <= w2
            < clusters.len() && comp.clusters@[a] == triple_of(#[trigger] clusters[w1])
            && comp.clusters@[b] == triple_of(#[trigger] clusters[w2]) ==> ((
        #[trigger] comp.has_nbr(a, b, d)) <==> (w1 != w2 && overlap(
            data,
            clusters[w1],
            clusters[w2],
        ) && d as int == cluster_dist(data, clusters[w1], clusters[w2])))
}

/// A component holding exactly the collection's member records, with the
/// overlap relation as its neighbor relation, matches the collection.
proof fn lemma_matches_exact(comp: Component, clusters: Seq<Cluster>, data: VecDataset)
    requires
        distinct_keys(clusters),
        comp.clusters@ == triples_of(clusters),
        forall|i: int, j: int, d: u64|
            (#[trigger] comp.has_nbr(i, j, d)) <==> (0 <= i < clusters.len() && 0 <= j
                < clusters.len() && i != j && overlap(data, clusters[i], clusters[j]) && d as int
                == cluster_dist(data, clusters[i], clusters[j])),
    ensures
        adjacency_matches(comp, clusters, data),
{
    assert forall|a: int, b: int, d: u64, w1: int, w2: int|
        0 <= a < comp.n() && 0 <= b < comp.n() && 0 <= w1 < clusters.len() && 0 <= w2
            < clusters.len() && comp.clusters@[a] == triple_of(#[trigger] clusters[w1])
            && comp.clusters@[b] == triple_of(#[trigger] clusters[w2]) implies ((
    #[trigger] comp.has_nbr(a, b, d)) <==> (w1 != w2 && overlap(data, clusters[w1], clusters[w2])
        && d as int == cluster_dist(data, clusters[w1], clusters[w2]))) by {
        assert(comp.clusters@[a] == triple_of(clusters[a]));
        assert(comp.clusters@[b] == triple_of(clusters[b]));
        lemma_triple_unique(clusters, a, w1);
        lemma_triple_unique(clusters, b, w2);
    }
}

/// A part carved out of a matching component matches as well: its member
/// records and neighbor relation both transport through the position map.
proof fn lemma_matches_sel(
    prev: Component,
    part: Component,
    ks: Seq<int>,
    clusters: Seq<Cluster>,
    data: VecDataset,
)
    requires
        adjacency_matches(prev, clusters, data),
        part.n() == ks.len(),
        forall|a: int| 0 <= a < ks.len() ==> 0 <= #[trigger] ks[a] < prev.n(),
        forall|a: int|
            0 <= a < ks.len() ==> (#[trigger] part.clusters@[a]) == prev.clusters@[ks[a]],
        forall|a: int, b: int, d: u64|
            (#[trigger] part.has_nbr(a, b, d)) <==> (0 <= a < ks.len() && 0 <= b < ks.len()
                && prev.has_nbr(ks[a], ks[b], d)),
    ensures
        adjacency_matches(part, clusters, data),
{
    assert forall|a: int, b: int, d: u64, w1: int, w2: int|
        0 <= a < part.n() && 0 <= b < part.n() && 0 <= w1 < clusters.len() && 0 <= w2
            < clusters.len() && part.clusters@[a] == triple_of(#[trigger] clusters[w1])
            && part.clusters@[b] == triple_of(#[trigger] clusters[w2]) implies ((
    #[trigger] part.has_nbr(a, b, d)) <==> (w1 != w2 && overlap(data, clusters[w1], clusters[w2])
        && d as int == cluster_dist(data, clusters[w1], clusters[w2]))) by {
        assert(prev.clusters@[ks[a]] == triple_of(clusters[w1]));
        assert(prev.clusters@[ks[b]] == triple_of(clusters[w2]));
        assert(prev.has_nbr(ks[a], ks[b], d) || !prev.has_nbr(ks[a], ks[b], d));
    }
}

/// A component that matches a selection drawn from a keyed collection
/// matches the collection itself.
proof fn lemma_matches_lift(
    comp: Component,
    sorted: Seq<Cluster>,
    subtree: Seq<Cluster>,
    data: VecDataset,
)
    requires
        adjacency_matches(comp, sorted, data),
        distinct_keys(subtree),
        distinct_keys(sorted),
        forall|u: int| 0 <= u < sorted.len() ==> subtree.contains(#[trigger] sorted[u]),
        forall|t: int|
            0 <= t < comp.n() ==> triples_of(sorted).contains(#[trigger] comp.clusters@[t]),
    ensures
        adjacency_matches(comp, subtree, data),
{
    assert forall|a: int, b: int, d: u64, w1: int, w2: int|
        0 <= a < comp.n() && 0 <= b < comp.n() && 0 <= w1 < subtree.len() && 0 <= w2
            < subtree.len() && comp.clusters@[a] == triple_of(#[trigger] subtree[w1])
            && comp.clusters@[b] == triple_of(#[trigger] subtree[w2]) implies ((
    #[trigger] comp.has_nbr(a, b, d)) <==> (w1 != w2 && overlap(data, subtree[w1], subtree[w2])
        && d as int == cluster_dist(data, subtree[w1], subtree[w2]))) by {
        assert(triples_of(sorted).contains(comp.clusters@[a]));
        let u1 = choose|u: int|
            0 <= u < triples_of(sorted).len() && triples_of(sorted)[u] == comp.clusters@[a];
        assert(triple_of(sorted[u1]) == comp.clusters@[a]);
        assert(subtree.contains(sorted[u1]));
        let wq1 = choose|w: int| 0 <= w < subtree.len() && subtree[w] == sorted[u1];
        lemma_triple_unique(subtree, wq1, w1);
        assert(subtree[w1] == sorted[u1]);
        assert(triples_of(sorted).contains(comp.clusters@[b]));
        let u2 = choose|u: int|
            0 <= u < triples_of(sorted).len() && triples_of(sorted)[u] == comp.clusters@[b];
        assert(triple_of(sorted[u2]) == comp.clusters@[b]);
        assert(subtree.contains(sorted[u2]));
        let wq2 = choose|w: int| 0 <= w < subtree.len() && subtree[w] == sorted[u2];
        lemma_triple_unique(subtree, wq2, w2);
        assert(subtree[w2] == sorted[u2]);
        assert(comp.clusters@[a] == triple_of(sorted[u1]));
        assert(comp.clusters@[b] == triple_of(sorted[u2]));
        assert(comp.has_nbr(a, b, d) || !comp.has_nbr(a, b, d));
        if u1 == u2 {
            lemma_triple_unique(subtree, w1, w2);
        }
        if w1 == w2 {
            lemma_triple_unique(sorted, u1, u2);
        }
    }
}

/// One connected piece of the compact graph: member records, an
/// index-based adjacency list, and lazily computed analytics.
#[derive(Debug)]
pub struct Component {
    /// The `(offset, cardinality, center index)` record of each member.
    pub clusters: Vec<(usize, usize, usize)>,
    /// For each member position, its neighbors as `(position, distance)`
    /// pairs.
    pub adjacency_list: Vec<Vec<(usize, u64)>>,
    /// The total number of instances covered by the members.
    pub population: usize,
    /// The eccentricity of each member, once computed.
    pub eccentricities: Option<Vec<usize>>,
    /// The diameter of the component, once computed.
    pub diameter: Option<usize>,
    /// The cumulative neighborhood sizes of each member, once computed.
    pub neighborhood_sizes: Option<Vec<Vec<usize>>>,
    /// The accumulated child-parent cardinality ratio of each member.
    pub accumulated_cp_car_ratios: Vec<u64>,
    /// The ratio features of each member.
    pub anomaly_properties: Vec<Ratios>,
}

impl Component {
    /// The number of members.
    pub open spec fn n(self) -> int {
        self.clusters@.len() as int
    }

    /// The neighbor sets of the component, one per member position.
    pub open spec fn adjs(self) -> Seq<Set<int>> {
        Seq::new(self.adjacency_list@.len() as nat, |i: int| pair_idx_set(self.adjacency_list@[i]@))
    }

    /// Position `j` is recorded as a neighbor of position `i` at distance
    /// `d`.
    pub open spec fn has_nbr(self, i: int, j: int, d: u64) -> bool {
        &&& 0 <= i < self.adjacency_list@.len()
        &&& exists|t: int|
            0 <= t < self.adjacency_list@[i]@.len() && ((#[trigger] self.adjacency_list@[i]@[t]).0
                as int) == j && self.adjacency_list@[i]@[t].1 == d
    }

    /// A valid record of cumulative neighborhood sizes for member `i`: one
    /// entry per member of `i`'s connected piece, never decreasing.
    pub open spec fn nbh_ok(self, i: int, w: Seq<usize>) -> bool {
        &&& w.len() == reach_set(self.adjs(), i).len()
        &&& forall|a: int, b: int| 0 <= a <= b < w.len() ==> w[a] <= w[b]
    }

    /// The structural invariant of a component.
    pub open spec fn wf(self) -> bool {
        let n = self.n();
        &&& self.adjacency_list@.len() == n
        &&& self.accumulated_cp_car_ratios@.len() == n
        &&& self.anomaly_properties@.len() == n
        &&& forall|i: int, t: int|
            0 <= i < n && 0 <= t < self.adjacency_list@[i]@.len() ==> ((
            #[trigger] self.adjacency_list@[i]@[t]).0 as int) < n && (
            self.adjacency_list@[i]@[t].0 as int) != i
        &&& forall|i: int, t1: int, t2: int|
            0 <= i < n && 0 <= t1 < t2 < self.adjacency_list@[i]@.len()
                ==> (#[trigger] self.adjacency_list@[i]@[t1]).0 != (
            #[trigger] self.adjacency_list@[i]@[t2]).0
        &&& forall|i: int, j: int, d: u64|
            (#[trigger] self.has_nbr(i, j, d)) ==> self.has_nbr(j, i, d)
        &&& self.population as int == sum_triple_card(self.clusters@)
        &&& match self.eccentricities {
            Option::Some(e) => e@.len() == n && forall|i: int|
                0 <= i < n ==> ((#[trigger] e@[i]) as int) == reach_set(self.adjs(), i).len(),
            Option::None => true,
        }
        &&& match self.diameter {
            Option::Some(d) => (n == 0 && d == 0) || ((exists|i: int|
                0 <= i < n && d as int == (#[trigger] reach_set(self.adjs(), i)).len()) && forall|
                i: int,
            |
                0 <= i < n ==> (#[trigger] reach_set(self.adjs(), i)).len() <= d as int),
            Option::None => true,
        }
        &&& match self.neighborhood_sizes {
            Option::Some(rows) => rows@.len() == n && forall|i: int|
                0 <= i < n ==> self.nbh_ok(i, (#[trigger] rows@[i])@),
            Option::None => true,
        }
    }

    /// Every member can reach every other member through the adjacency
    /// list.
    pub open spec fn connected(self) -> bool {
        forall|i: int| 0 <= i < self.n() ==> reaches(self.adjs(), 0, i)
    }

    /// The neighbor relation of a well-formed component is symmetric and
    /// in-range in the abstract view.
    pub proof fn lemma_adj_symmetric(self)
        requires
            self.wf(),
        ensures
            adj_symmetric(self.adjs()),
            adj_in_range(self.adjs()),
    {
        assert forall|i: int, j: int|
            0 <= i < self.adjs().len() && (#[trigger] self.adjs()[i].contains(j)) implies 0 <= j
            < self.adjs().len() && self.adjs()[j].contains(i) by {
            lemma_pair_idx_set_contains(self.adjacency_list@[i]@, j);
            let t = choose|t: int|
                0 <= t < self.adjacency_list@[i]@.len() && ((
                #[trigger] self.adjacency_list@[i]@[t]).0 as int) == j;
            let d = self.adjacency_list@[i]@[t].1;
            assert(self.has_nbr(i, j, d));
            assert(self.has_nbr(j, i, d));
            let t2 = choose|t2: int|
                0 <= t2 < self.adjacency_list@[j]@.len() && ((
                #[trigger] self.adjacency_list@[j]@[t2]).0 as int) == i
                    && self.adjacency_list@[j]@[t2].1 == d;
            lemma_pair_idx_set_contains(self.adjacency_list@[j]@, i);
        }
    }

    /// The number of members of the component.
    pub fn cardinality(&self) -> (r: usize)
        ensures
            r == self.clusters@.len(),
    {
        self.clusters.len()
    }

    /// The total number of instances covered by the members.
    pub fn population(&self) -> (r: usize)
        ensures
            r == self.population,
    {
        self.population
    }

    /// Whether the component has no members.
    pub fn is_empty(&self) -> (r: bool)
        ensures
            r == (self.clusters@.len() == 0),
    {
        self.clusters.len() == 0
    }

    /// The member records, in position order.
    pub fn iter_clusters(&self) -> (r: &Vec<(usize, usize, usize)>)
        ensures
            r@ == self.clusters@,
    {
        &self.clusters
    }

    /// The neighbor lists, one per member position.
    pub fn iter_neighbors(&self) -> (r: &Vec<Vec<(usize, u64)>>)
        ensures
            r@ == self.adjacency_list@,
    {
        &self.adjacency_list
    }

    /// The ratio features, one record per member position.
    pub fn iter_anomaly_properties(&self) -> (r: &Vec<Ratios>)
        ensures
            r@ == self.anomaly_properties@,
    {
        &self.anomaly_properties
    }

    /// The accumulated child-parent cardinality ratios, aligned with the
    /// member positions.
    pub fn accumulated_cp_car_ratios(&self) -> (r: &Vec<u64>)
        ensures
            r@ == self.accumulated_cp_car_ratios@,
    {
        &self.accumulated_cp_car_ratios
    }

    /// Builds the single initial component over all selected clusters: for
    /// every member, every other member whose metric ball overlaps its own
    /// is recorded as a neighbor, labelled with the center distance.
    #[verifier::rlimit(100)]
    pub fn new(clusters: &Vec<Cluster>, data: &VecDataset) -> (r: Component)
        requires
            data.wf(),
            all_wf(clusters@),
            sum_cardinalities_of(clusters@) <= usize::MAX,
            forall|t: int| 0 <= t < clusters@.len() ==> valid_for(#[trigger] clusters@[t], *data),
        ensures
            r.wf(),
            r.clusters@ == triples_of(clusters@),
            r.accumulated_cp_car_ratios@ == cp_ratios_of(clusters@),
            r.anomaly_properties@ == ratios_of(clusters@),
            r.population as int == sum_triple_card(triples_of(clusters@)),
            r.eccentricities is None,
            r.diameter is None,
            r.neighborhood_sizes is None,
            forall|i: int, j: int, d: u64|
                (#[trigger] r.has_nbr(i, j, d)) <==> (0 <= i < clusters@.len() && 0 <= j
                    < clusters@.len() && i != j && overlap(
                    *data,
                    clusters@[i],
                    clusters@[j],
                ) && d as int == cluster_dist(*data, clusters@[i], clusters@[j])),
    {
        let n = clusters.len();
        let mut adjacency_list: Vec<Vec<(usize, u64)>> = Vec::new();
        let mut i: usize = 0;
        while i < n
            invariant
                data.wf(),
                all_wf(clusters@),
                forall|t: int|
                    0 <= t < clusters@.len() ==> valid_for(#[trigger] clusters@[t], *data),
                n == clusters@.len(),
                i <= n,
                adjacency_list@.len() == i,
                forall|a: int, t: int|
                    0 <= a < i && 0 <= t < adjacency_list@[a]@.len() ==> row_entry_ok(
                        *data,
                        clusters@,
                        a,
                        #[trigger] adjacency_list@[a]@[t],
                    ),
                forall|a: int, t1: int, t2: int|
                    0 <= a < i && 0 <= t1 < t2 < adjacency_list@[a]@.len() ==> (
                    #[trigger] adjacency_list@[a]@[t1]).0 < (
                    #[trigger] adjacency_list@[a]@[t2]).0,
                forall|a: int, b: int|
                    0 <= a < i && 0 <= b < n && a != b && overlap(
                        *data,
                        #[trigger] clusters@[a],
                        #[trigger] clusters@[b],
                    ) ==> exists|t: int|
                        0 <= t < adjacency_list@[a]@.len() && ((
                        #[trigger] adjacency_list@[a]@[t]).0 as int) == b
                            && adjacency_list@[a]@[t].1 as int == cluster_dist(
                            *data,
                            clusters@[a],
                            clusters@[b],
                        ),
            decreases n - i,
        {
            let mut row: Vec<(usize, u64)> = Vec::new();
            let mut j: usize = 0;
            while j < n
                invariant
                    data.wf(),
                    all_wf(clusters@),
                    forall|t: int|
                        0 <= t < clusters@.len() ==> valid_for(#[trigger] clusters@[t], *data),
                    n == clusters@.len(),
                    i < n,
                    j <= n,
                    forall|t: int|
                        0 <= t < row@.len() ==> row_entry_ok(
                            *data,
                            clusters@,
                            i as int,
                            #[trigger] row@[t],
                        ) && ((#[trigger] row@[t]).0 as int) < j,
                    forall|t1: int, t2: int|
                        0 <= t1 < t2 < row@.len() ==> (#[trigger] row@[t1]).0 < (
                        #[trigger] row@[t2]).0,
                    forall|b: int|
                        0 <= b < j && b != i as int && overlap(
                            *data,
                            clusters@[i as int],
                            #[trigger] clusters@[b],
                        ) ==> exists|t: int|
                            0 <= t < row@.len() && ((#[trigger] row@[t]).0 as int) == b
                                && row@[t].1 as int == cluster_dist(
                                *data,
                                clusters@[i as int],
                                clusters@[b],
                            ),
                decreases n - j,
            {
                let ghost row0 = row@;
                if j != i {
                    let c1 = clusters[i];
                    let c2 = clusters[j];
                    proof {
                        assert(clusters@[i as int].wf());
                        assert(clusters@[j as int].wf());
                    }
                    let d = cluster_distance(data, &c1, &c2);
                    if d <= c1.radius + c2.radius {
                        row.push((j, d));
                        proof {
                            assert((row@[row@.len() - 1].0 as int) == j as int && row@[row@.len()
                                - 1].1 as int == cluster_dist(
                                *data,
                                clusters@[i as int],
                                clusters@[j as int],
                            ));
                        }
                    }
                }
                proof {
                    assert forall|b: int|
                        0 <= b < j + 1 && b != i as int && overlap(
                            *data,
                            clusters@[i as int],
                            #[trigger] clusters@[b],
                        ) implies exists|t: int|
                        0 <= t < row@.len() && ((#[trigger] row@[t]).0 as int) == b && row@[t].1
                            as int == cluster_dist(*data, clusters@[i as int], clusters@[b]) by {
                        if b < j as int {
                            let t = choose|t: int|
                                0 <= t < row0.len() && ((#[trigger] row0[t]).0 as int) == b
                                    && row0[t].1 as int == cluster_dist(
                                    *data,
                                    clusters@[i as int],
                                    clusters@[b],
                                );
                            assert(row@[t] == row0[t]);
                        } else {
                            assert(((row@[row@.len() - 1]).0 as int) == b);
                        }
                    }
                }
                j += 1;
            }
            let ghost al0 = adjacency_list@;
            let ghost rowf = row@;
            adjacency_list.push(row);
            proof {
                assert forall|a: int, b: int|
                    0 <= a < i + 1 && 0 <= b < n && a != b && overlap(
                        *data,
                        #[trigger] clusters@[a],
                        #[trigger] clusters@[b],
                    ) implies exists|t: int|
                    0 <= t < adjacency_list@[a]@.len() && ((
                    #[trigger] adjacency_list@[a]@[t]).0 as int) == b
                        && adjacency_list@[a]@[t].1 as int == cluster_dist(
                        *data,
                        clusters@[a],
                        clusters@[b],
                    ) by {
                    if a < i as int {
                        assert(adjacency_list@[a]@ == al0[a]@);
                        let t = choose|t: int|
                            0 <= t < al0[a]@.len() && ((#[trigger] al0[a]@[t]).0 as int) == b
                                && al0[a]@[t].1 as int == cluster_dist(
                                *data,
                                clusters@[a],
                                clusters@[b],
                            );
                        assert((adjacency_list@[a]@[t].0 as int) == b);
                    } else {
                        assert(adjacency_list@[a]@ == rowf);
                        let t = choose|t: int|
                            0 <= t < rowf.len() && ((#[trigger] rowf[t]).0 as int) == b && rowf[t].1
                                as int == cluster_dist(*data, clusters@[a], clusters@[b]);
                        assert((adjacency_list@[a]@[t].0 as int) == b);
                    }
                }
            }
            i += 1;
        }
        let mut triples: Vec<(usize, usize, usize)> = Vec::new();
        let mut cp: Vec<u64> = Vec::new();
        let mut props: Vec<Ratios> = Vec::new();
        let mut population: usize = 0;
        let mut i: usize = 0;
        while i < n
            invariant
                n == clusters@.len(),
                i <= n,
                triples@.len() == i,
                cp@.len() == i,
                props@.len() == i,
                sum_cardinalities_of(clusters@) <= usize::MAX,
                forall|t: int| 0 <= t < i ==> (#[trigger] triples@[t]) == triples_of(clusters@)[t],
                forall|t: int| 0 <= t < i ==> (#[trigger] cp@[t]) == cp_ratios_of(clusters@)[t],
                forall|t: int| 0 <= t < i ==> (#[trigger] props@[t]) == ratios_of(clusters@)[t],
                population as int == sum_triple_card_upto(triples_of(clusters@), i as int),
            decreases n - i,
        {
            let c = clusters[i];
            proof {
                lemma_triple_card_matches(clusters@, i + 1);
                lemma_triple_card_matches(clusters@, clusters@.len() as int);
                lemma_sum_triple_card_mono(triples_of(clusters@), i + 1);
                assert(triples_of(clusters@)[i as int] == (c.offset, c.cardinality, c.arg_center));
            }
            triples.push((c.offset, c.cardinality, c.arg_center));
            cp.push(c.accumulated_cp_car_ratio);
            props.push(c.ratios);
            population = population + c.cardinality;
            i += 1;
        }
        let r = Component {
            clusters: triples,
            adjacency_list,
            population,
            eccentricities: None,
            diameter: None,
            neighborhood_sizes: None,
            accumulated_cp_car_ratios: cp,
            anomaly_properties: props,
        };
        proof {
            assert(r.clusters@ =~= triples_of(clusters@));
            assert(r.accumulated_cp_car_ratios@ =~= cp_ratios_of(clusters@));
            assert(r.anomaly_properties@ =~= ratios_of(clusters@));
            // The neighbor relation is exactly the overlap relation.
            assert forall|i: int, j: int, d: u64| (#[trigger] r.has_nbr(i, j, d)) implies (0 <= i
                < clusters@.len() && 0 <= j < clusters@.len() && i != j && overlap(
                *data,
                clusters@[i],
                clusters@[j],
            ) && d as int == cluster_dist(*data, clusters@[i], clusters@[j])) by {
                let t = choose|t: int|
                    0 <= t < r.adjacency_list@[i]@.len() && ((
                    #[trigger] r.adjacency_list@[i]@[t]).0 as int) == j
                        && r.adjacency_list@[i]@[t].1 == d;
                assert(row_entry_ok(*data, clusters@, i, r.adjacency_list@[i]@[t]));
            }
            assert forall|i: int, j: int, d: u64|
                (0 <= i < clusters@.len() && 0 <= j < clusters@.len() && i != j && overlap(
                    *data,
                    clusters@[i],
                    clusters@[j],
                ) && d as int == cluster_dist(*data, clusters@[i], clusters@[j])) implies (
            #[trigger] r.has_nbr(i, j, d)) by {
                let t = choose|t: int|
                    0 <= t < r.adjacency_list@[i]@.len() && ((
                    #[trigger] r.adjacency_list@[i]@[t]).0 as int) == j
                        && r.adjacency_list@[i]@[t].1 as int == cluster_dist(
                        *data,
                        clusters@[i],
                        clusters@[j],
                    );
                assert(r.adjacency_list@[i]@[t].1 == d);
            }
            // Symmetry of the neighbor relation follows from symmetry of
            // the overlap test.
            assert forall|i: int, j: int, d: u64| (#[trigger] r.has_nbr(i, j, d)) implies r.has_nbr(
                j,
                i,
                d,
            ) by {
                lemma_cluster_dist_sym(*data, clusters@[i], clusters@[j]);
            }
        }
        r
    }
}

/// A recorded neighbor entry of member `a` is a distinct in-range member
/// whose ball overlaps `a`'s, labelled with the center distance.
pub open spec fn row_entry_ok(
    data: VecDataset,
    clusters: Seq<Cluster>,
    a: int,
    entry: (usize, u64),
) -> bool {
    &&& (entry.0 as int) < clusters.len()
    &&& (entry.0 as int) != a
    &&& overlap(data, clusters[a], clusters[entry.0 as int])
    &&& entry.1 as int == cluster_dist(data, clusters[a], clusters[entry.0 as int])
}

/// The sum of the cardinalities of a cluster collection.
pub open spec fn sum_cardinalities_of(s: Seq<Cluster>) -> int {
    crate::graph::sum_cardinalities(s)
}

/// The member records carry the same cardinalities as the clusters they
/// came from, so the two sums agree.
proof fn lemma_triple_card_matches(s: Seq<Cluster>, t: int)
    requires
        0 <= t <= s.len(),
    ensures
        sum_triple_card_upto(triples_of(s), t) == crate::graph::sum_cardinalities_upto(s, t),
    decreases t,
{
    if t > 0 {
        lemma_triple_card_matches(s, t - 1);
        assert(triples_of(s)[t - 1].1 == s[t - 1].cardinality);
    }
}


/// The indices below `n` that belong to `keep`, in increasing order.
pub open spec fn positions_where(n: nat, keep: Set<int>) -> Seq<int>
    decreases n,
{
    if n == 0 {
        Seq::<int>::empty()
    } else {
        let p = positions_where((n - 1) as nat, keep);
        if keep.contains(n - 1) {
            p.push(n - 1)
        } else {
            p
        }
    }
}

/// The entries selected from `s` by a sequence of positions.
pub open spec fn sel<T>(s: Seq<T>, idxs: Seq<int>) -> Seq<T> {
    idxs.map_values(|i: int| s[i])
}

/// The standing facts about `positions_where`: its entries are exactly the
/// kept indices below `n`, listed strictly increasing.
pub proof fn lemma_positions_where_props(n: nat, keep: Set<int>)
    ensures
        forall|u: int|
            0 <= u < positions_where(n, keep).len() ==> 0 <= #[trigger] positions_where(
                n,
                keep,
            )[u] < n && keep.contains(positions_where(n, keep)[u]),
        forall|u1: int, u2: int|
            0 <= u1 < u2 < positions_where(n, keep).len() ==> positions_where(n, keep)[u1]
                < positions_where(n, keep)[u2],
        forall|j: int|
            0 <= j < n && keep.contains(j) ==> positions_where(n, keep).contains(j),
    decreases n,
{
    if n > 0 {
        lemma_positions_where_props((n - 1) as nat, keep);
        let p = positions_where((n - 1) as nat, keep);
        let q = positions_where(n, keep);
        assert forall|j: int| 0 <= j < n && keep.contains(j) implies q.contains(j) by {
            if j < n - 1 {
                assert(p.contains(j));
                let u = choose|u: int| 0 <= u < p.len() && p[u] == j;
                assert(q[u] == j);
            } else {
                assert(q[q.len() - 1] == j);
            }
        }
    }
}

/// Splitting the positions below `n` between a set and its complement
/// splits the member cardinality sum.
pub proof fn lemma_positions_partition_sum(
    s: Seq<(usize, usize, usize)>,
    n: nat,
    keep: Set<int>,
)
    requires
        n <= s.len(),
    ensures
        positions_where(n, keep).len() + positions_where(n, keep.complement()).len() == n,
        sum_triple_card(sel(s, positions_where(n, keep))) + sum_triple_card(
            sel(s, positions_where(n, keep.complement())),
        ) == sum_triple_card_upto(s, n as int),
    decreases n,
{
    if n > 0 {
        lemma_positions_partition_sum(s, (n - 1) as nat, keep);
        let pk = positions_where((n - 1) as nat, keep);
        let pu = positions_where((n - 1) as nat, keep.complement());
        let qk = positions_where(n, keep);
        let qu = positions_where(n, keep.complement());
        if keep.contains(n - 1) {
            assert(qk == pk.push(n - 1));
            assert(qu == pu);
            assert(sel(s, qk) =~= sel(s, pk).push(s[n - 1]));
            lemma_sum_push(sel(s, pk), s[n - 1]);
        } else {
            assert(keep.complement().contains(n - 1));
            assert(qu == pu.push(n - 1));
            assert(qk == pk);
            assert(sel(s, qu) =~= sel(s, pu).push(s[n - 1]));
            lemma_sum_push(sel(s, pu), s[n - 1]);
        }
    }
}

/// Splitting the positions below `n` between a set and its complement
/// splits the record multiset.
pub proof fn lemma_positions_partition_multiset(
    s: Seq<(usize, usize, usize)>,
    n: nat,
    keep: Set<int>,
)
    requires
        n <= s.len(),
    ensures
        sel(s, positions_where(n, keep)).to_multiset().add(
            sel(s, positions_where(n, keep.complement())).to_multiset(),
        ) == s.take(n as int).to_multiset(),
    decreases n,
{
    broadcast use vstd::seq_lib::group_to_multiset_ensures;

    if n == 0 {
        assert(sel(s, positions_where(0, keep)) =~= Seq::<(usize, usize, usize)>::empty());
        assert(sel(s, positions_where(0, keep.complement())) =~= Seq::<
            (usize, usize, usize),
        >::empty());
        assert(s.take(0) =~= Seq::<(usize, usize, usize)>::empty());
        assert(sel(s, positions_where(0, keep)).to_multiset().add(
            sel(s, positions_where(0, keep.complement())).to_multiset(),
        ) =~= s.take(0).to_multiset());
    } else {
        lemma_positions_partition_multiset(s, (n - 1) as nat, keep);
        let pk = positions_where((n - 1) as nat, keep);
        let pu = positions_where((n - 1) as nat, keep.complement());
        let qk = positions_where(n, keep);
        let qu = positions_where(n, keep.complement());
        assert(s.take(n as int) =~= s.take(n - 1).push(s[n - 1]));
        assert(s.take(n as int).to_multiset() =~= s.take(n - 1).to_multiset().insert(s[n - 1]));
        if keep.contains(n - 1) {
            assert(qk == pk.push(n - 1));
            assert(qu == pu);
            assert(sel(s, qk) =~= sel(s, pk).push(s[n - 1]));
            assert(sel(s, qk).to_multiset() =~= sel(s, pk).to_multiset().insert(s[n - 1]));
            assert(sel(s, qk).to_multiset().add(sel(s, qu).to_multiset()) =~= s.take(
                n as int,
            ).to_multiset());
        } else {
            assert(keep.complement().contains(n - 1));
            assert(qu == pu.push(n - 1));
            assert(qk == pk);
            assert(sel(s, qu) =~= sel(s, pu).push(s[n - 1]));
            assert(sel(s, qu).to_multiset() =~= sel(s, pu).to_multiset().insert(s[n - 1]));
            assert(sel(s, qk).to_multiset().add(sel(s, qu).to_multiset()) =~= s.take(
                n as int,
            ).to_multiset());
        }
    }
}

/// Appending one record adds its cardinality to the sum.
proof fn lemma_sum_push(s: Seq<(usize, usize, usize)>, x: (usize, usize, usize))
    ensures
        sum_triple_card(s.push(x)) == sum_triple_card(s) + x.1,
{
    let p = s.push(x);
    assert(p.len() == s.len() + 1);
    assert(p[p.len() - 1] == x);
    assert forall|t: int| 0 <= t < s.len() implies p[t] == s[t] by {}
    lemma_sum_prefix_eq(p, s, s.len() as int);
}

/// Two sequences that agree on a prefix have the same prefix sums.
proof fn lemma_sum_prefix_eq(a: Seq<(usize, usize, usize)>, b: Seq<(usize, usize, usize)>, t: int)
    requires
        t <= a.len(),
        t <= b.len(),
        forall|u: int| 0 <= u < t ==> a[u] == b[u],
    ensures
        sum_triple_card_upto(a, t) == sum_triple_card_upto(b, t),
    decreases t,
{
    if t > 0 {
        lemma_sum_prefix_eq(a, b, t - 1);
    }
}

impl Component {
    /// Marks every member reachable from position zero, using an explicit
    /// stack for the traversal.
    #[verifier::rlimit(100)]
    fn reach_flags(&self) -> (r: Vec<bool>)
        requires
            self.wf(),
            self.n() >= 1,
        ensures
            r@.len() == self.n(),
            forall|j: int|
                0 <= j < self.n() ==> ((#[trigger] r@[j]) <==> reach_set(self.adjs(), 0).contains(
                    j,
                )),
    {
        let n = self.clusters.len();
        proof {
            self.lemma_adj_symmetric();
        }
        let ghost adjs = self.adjs();
        let mut bits = crate::graph::falses(n);
        let mut count: usize = 0;
        let ghost mut vset: Set<int> = Set::empty();
        let mut stack: Vec<usize> = Vec::new();
        stack.push(0);
        proof {
            assert(reaches_in(adjs, 0, 0, 0));
            assert(stack@[0] == 0usize);
            assert(stack@.contains(0usize));
        }
        while stack.len() > 0
            invariant
                self.wf(),
                n == self.n(),
                adjs == self.adjs(),
                bits@.len() == n,
                vset.finite(),
                count == vset.len(),
                count <= n,
                forall|j: int| (#[trigger] vset.contains(j)) ==> 0 <= j < n,
                forall|j: int| 0 <= j < n ==> ((#[trigger] bits@[j]) <==> vset.contains(j)),
                forall|j: int| (#[trigger] vset.contains(j)) ==> reaches(adjs, 0, j),
                forall|t: int|
                    0 <= t < stack@.len() ==> ((#[trigger] stack@[t]) as int) < n && reaches(
                        adjs,
                        0,
                        stack@[t] as int,
                    ),
                forall|i: int, t: int|
                    vset.contains(i) && 0 <= t < self.adjacency_list@[i]@.len() ==> (vset.contains(
                        (#[trigger] self.adjacency_list@[i]@[t]).0 as int,
                    ) || stack@.contains(self.adjacency_list@[i]@[t].0)),
                vset.contains(0) || stack@.contains(0usize),
            decreases n - count, stack@.len(),
        {
            let ghost stack0 = stack@;
            let u = stack.pop().unwrap();
            proof {
                assert(stack0[stack0.len() - 1] == u);
                assert(stack0.contains(u));
                assert(stack0 =~= stack@.push(u));
            }
            if !bits[u] {
                bits[u] = true;
                proof {
                    assert(!vset.contains(u as int));
                    vset = vset.insert(u as int);
                    lemma_int_range(0, n as int);
                    assert forall|j: int| vset.contains(j) implies set_int_range(
                        0,
                        n as int,
                    ).contains(j) by {}
                    lemma_len_subset(vset, set_int_range(0, n as int));
                }
                count += 1;
                proof {
                    assert forall|i: int, tt: int|
                        vset.contains(i) && 0 <= tt < self.adjacency_list@[i]@.len() implies (
                    vset.contains((#[trigger] self.adjacency_list@[i]@[tt]).0 as int)
                        || stack@.contains(self.adjacency_list@[i]@[tt].0) || i == u as int) by {
                        if i != u as int {
                            let e = self.adjacency_list@[i]@[tt].0;
                            crate::graph::lemma_push_contains(stack@, u, e);
                            assert(stack0 == stack@.push(u));
                            if e == u {
                                assert(vset.contains(u as int));
                            }
                        }
                    }
                    if !(vset.contains(0) || stack@.contains(0usize)) {
                        crate::graph::lemma_push_contains(stack@, u, 0usize);
                        assert(stack0.contains(0usize));
                        assert(stack@.push(u).contains(0usize));
                        assert(u == 0usize);
                        assert(vset.contains(0));
                    }
                }
                let row_len = self.adjacency_list[u].len();
                let mut t: usize = 0;
                while t < row_len
                    invariant
                        self.wf(),
                        n == self.n(),
                        adjs == self.adjs(),
                        (u as int) < n,
                        row_len == self.adjacency_list@[u as int]@.len(),
                        t <= row_len,
                        vset.contains(u as int),
                        reaches(adjs, 0, u as int),
                        forall|j: int| (#[trigger] vset.contains(j)) ==> 0 <= j < n,
                        forall|j: int| (#[trigger] vset.contains(j)) ==> reaches(adjs, 0, j),
                        forall|tt: int|
                            0 <= tt < stack@.len() ==> ((#[trigger] stack@[tt]) as int) < n
                                && reaches(adjs, 0, stack@[tt] as int),
                        forall|i: int, tt: int|
                            vset.contains(i) && 0 <= tt < self.adjacency_list@[i]@.len() ==> (
                            vset.contains(
                                (#[trigger] self.adjacency_list@[i]@[tt]).0 as int,
                            ) || stack@.contains(self.adjacency_list@[i]@[tt].0) || (i == u as int
                                && tt >= t)),
                        vset.contains(0) || stack@.contains(0usize),
                    decreases row_len - t,
                {
                    let p = self.adjacency_list[u][t];
                    let ghost stack1 = stack@;
                    stack.push(p.0);
                    proof {
                        assert(adjs[u as int].contains(p.0 as int)) by {
                            lemma_pair_idx_set_contains(self.adjacency_list@[u as int]@, p.0 as int);
                        }
                        lemma_reaches_step(adjs, u as int, p.0 as int);
                        lemma_reaches_trans(adjs, 0, u as int, p.0 as int);
                        assert forall|i: int, tt: int|
                            vset.contains(i) && 0 <= tt
                                < self.adjacency_list@[i]@.len() implies (vset.contains(
                            (#[trigger] self.adjacency_list@[i]@[tt]).0 as int,
                        ) || stack@.contains(self.adjacency_list@[i]@[tt].0) || (i == u as int
                            && tt >= t + 1)) by {
                            let e = self.adjacency_list@[i]@[tt].0;
                            crate::graph::lemma_push_contains(stack1, p.0, e);
                        }
                        if !vset.contains(0) {
                            crate::graph::lemma_push_contains(stack1, p.0, 0usize);
                        }
                    }
                    t += 1;
                }
            } else {
                proof {
                    assert forall|i: int, tt: int|
                        vset.contains(i) && 0 <= tt < self.adjacency_list@[i]@.len() implies (
                    vset.contains((#[trigger] self.adjacency_list@[i]@[tt]).0 as int)
                        || stack@.contains(self.adjacency_list@[i]@[tt].0)) by {
                        let e = self.adjacency_list@[i]@[tt].0;
                        crate::graph::lemma_push_contains(stack@, u, e);
                        assert(stack0 == stack@.push(u));
                        if e == u {
                            assert(vset.contains(u as int));
                        }
                    }
                    if !(vset.contains(0) || stack@.contains(0usize)) {
                        crate::graph::lemma_push_contains(stack@, u, 0usize);
                        assert(stack0.contains(0usize));
                        assert(stack@.push(u).contains(0usize));
                        assert(u == 0usize);
                        assert(vset.contains(0));
                    }
                }
            }
        }
        proof {
            assert forall|j: int| 0 <= j < n implies ((#[trigger] bits@[j]) <==> reach_set(
                adjs,
                0,
            ).contains(j)) by {
                if bits@[j] {
                    assert(vset.contains(j));
                }
                if reach_set(adjs, 0).contains(j) {
                    assert forall|i: int, jj: int|
                        vset.contains(i) && (#[trigger] adjs[i].contains(jj)) implies vset.contains(
                        jj,
                    ) by {
                        if 0 <= i < n {
                            lemma_pair_idx_set_contains(self.adjacency_list@[i]@, jj);
                            let tt = choose|tt: int|
                                0 <= tt < self.adjacency_list@[i]@.len() && ((
                                #[trigger] self.adjacency_list@[i]@[tt]).0 as int) == jj;
                            assert(vset.contains(self.adjacency_list@[i]@[tt].0 as int)
                                || stack@.contains(self.adjacency_list@[i]@[tt].0));
                        }
                    }
                    assert(vset.contains(0));
                    lemma_closed_contains_reach(adjs, vset, 0, j);
                }
            }
        }
        bits
    }
}


/// `j` occurs among the selected positions.
pub open spec fn selected(iseq: Seq<usize>, j: usize) -> bool {
    exists|w: int| 0 <= w < iseq.len() && (#[trigger] iseq[w]) == j
}

/// A vector of `n` zeroed position slots.
fn zero_positions(n: usize) -> (r: Vec<usize>)
    ensures
        r@.len() == n,
{
    let mut v: Vec<usize> = Vec::new();
    let mut i: usize = 0;
    while i < n
        invariant
            i <= n,
            v@.len() == i,
        decreases n - i,
    {
        v.push(0);
        i += 1;
    }
    v
}

impl Component {
    /// Builds the part of the component standing at the given positions,
    /// remapping every neighbor entry through the inverse position map.
    #[verifier::rlimit(100)]
    pub(crate) fn extract(&self, idxs: &Vec<usize>, new_index: &Vec<usize>) -> (r: Component)
        requires
            self.wf(),
            forall|u: int| 0 <= u < idxs@.len() ==> ((#[trigger] idxs@[u]) as int) < self.n(),
            new_index@.len() == self.n(),
            forall|u: int|
                0 <= u < idxs@.len() ==> (new_index@[(#[trigger] idxs@[u]) as int] as int) == u,
            forall|u: int, t: int|
                0 <= u < idxs@.len() && 0 <= t < self.adjacency_list@[idxs@[u] as int]@.len()
                    ==> selected(
                    idxs@,
                    (#[trigger] self.adjacency_list@[idxs@[u] as int]@[t]).0,
                ),
            sum_triple_card(sel(self.clusters@, idxs@.map_values(|x: usize| x as int)))
                <= usize::MAX,
        ensures
            r.clusters@.len() == idxs@.len(),
            forall|u: int|
                0 <= u < idxs@.len() ==> (#[trigger] r.clusters@[u]) == self.clusters@[idxs@[u]
                    as int],
            forall|u: int|
                0 <= u < idxs@.len() ==> (#[trigger] r.accumulated_cp_car_ratios@[u])
                    == self.accumulated_cp_car_ratios@[idxs@[u] as int],
            forall|u: int|
                0 <= u < idxs@.len() ==> (#[trigger] r.anomaly_properties@[u])
                    == self.anomaly_properties@[idxs@[u] as int],
            forall|a: int, b: int, d: u64|
                (#[trigger] r.has_nbr(a, b, d)) <==> (0 <= a < idxs@.len() && 0 <= b < idxs@.len()
                    && self.has_nbr(idxs@[a] as int, idxs@[b] as int, d)),
            r.wf(),
            r.population as int == sum_triple_card(r.clusters@),
            r.eccentricities is None,
            r.diameter is None,
            r.neighborhood_sizes is None,
    {
        let ln = idxs.len();
        let ghost iseq = idxs@;
        let ghost sel_seq = sel(self.clusters@, idxs@.map_values(|x: usize| x as int));
        let mut triples: Vec<(usize, usize, usize)> = Vec::new();
        let mut cp: Vec<u64> = Vec::new();
        let mut props: Vec<Ratios> = Vec::new();
        let mut population: usize = 0;
        let mut u: usize = 0;
        while u < ln
            invariant
                self.wf(),
                ln == iseq.len(),
                iseq == idxs@,
                forall|w: int| 0 <= w < iseq.len() ==> ((#[trigger] iseq[w]) as int) < self.n(),
                sel_seq == sel(self.clusters@, iseq.map_values(|x: usize| x as int)),
                sum_triple_card(sel_seq) <= usize::MAX,
                u <= ln,
                triples@.len() == u,
                cp@.len() == u,
                props@.len() == u,
                forall|w: int|
                    0 <= w < u ==> (#[trigger] triples@[w]) == self.clusters@[iseq[w] as int],
                forall|w: int|
                    0 <= w < u ==> (#[trigger] cp@[w]) == self.accumulated_cp_car_ratios@[iseq[w]
                        as int],
                forall|w: int|
                    0 <= w < u ==> (#[trigger] props@[w]) == self.anomaly_properties@[iseq[w]
                        as int],
                population as int == sum_triple_card_upto(sel_seq, u as int),
            decreases ln - u,
        {
            let i = idxs[u];
            proof {
                assert(sel_seq[u as int] == self.clusters@[i as int]);
                lemma_sum_triple_card_mono(sel_seq, u + 1);
            }
            let c = self.clusters[i];
            triples.push(c);
            cp.push(self.accumulated_cp_car_ratios[i]);
            props.push(self.anomaly_properties[i]);
            population = population + c.1;
            u += 1;
        }
        let mut adjacency_list: Vec<Vec<(usize, u64)>> = Vec::new();
        let mut u: usize = 0;
        while u < ln
            invariant
                self.wf(),
                ln == iseq.len(),
                iseq == idxs@,
                new_index@.len() == self.n(),
                forall|w: int| 0 <= w < iseq.len() ==> ((#[trigger] iseq[w]) as int) < self.n(),
                forall|w: int|
                    0 <= w < iseq.len() ==> (new_index@[(#[trigger] iseq[w]) as int] as int) == w,
                forall|w: int, t: int|
                    0 <= w < iseq.len() && 0 <= t < self.adjacency_list@[iseq[w] as int]@.len()
                        ==> selected(
                        iseq,
                        (#[trigger] self.adjacency_list@[iseq[w] as int]@[t]).0,
                    ),
                u <= ln,
                adjacency_list@.len() == u,
                forall|w: int, t: int|
                    0 <= w < u && 0 <= t < adjacency_list@[w]@.len() ==> (
                    #[trigger] adjacency_list@[w]@[t]) == (
                    new_index@[self.adjacency_list@[iseq[w] as int]@[t].0 as int],
                    self.adjacency_list@[iseq[w] as int]@[t].1,
                ),
                forall|w: int|
                    0 <= w < u ==> (#[trigger] adjacency_list@[w]@).len()
                        == self.adjacency_list@[iseq[w] as int]@.len(),
            decreases ln - u,
        {
            let i = idxs[u];
            let row_len = self.adjacency_list[i].len();
            let mut row: Vec<(usize, u64)> = Vec::new();
            let mut t: usize = 0;
            while t < row_len
                invariant
                    self.wf(),
                    iseq == idxs@,
                    new_index@.len() == self.n(),
                    (u as int) < iseq.len(),
                    i == iseq[u as int],
                    (i as int) < self.n(),
                    forall|w: int|
                        0 <= w < iseq.len() ==> ((#[trigger] iseq[w]) as int) < self.n(),
                    forall|w: int|
                        0 <= w < iseq.len() ==> (new_index@[(#[trigger] iseq[w]) as int] as int)
                            == w,
                    forall|tt: int|
                        0 <= tt < self.adjacency_list@[i as int]@.len() ==> selected(
                            iseq,
                            (#[trigger] self.adjacency_list@[i as int]@[tt]).0,
                        ),
                    row_len == self.adjacency_list@[i as int]@.len(),
                    t <= row_len,
                    row@.len() == t,
                    forall|tt: int|
                        0 <= tt < t ==> (#[trigger] row@[tt]) == (
                        new_index@[self.adjacency_list@[i as int]@[tt].0 as int],
                        self.adjacency_list@[i as int]@[tt].1,
                    ),
                decreases row_len - t,
            {
                let p = self.adjacency_list[i][t];
                proof {
                    assert(selected(iseq, p.0));
                    let w = choose|w: int| 0 <= w < iseq.len() && (#[trigger] iseq[w]) == p.0;
                    assert((new_index@[p.0 as int] as int) == w);
                }
                row.push((new_index[p.0], p.1));
                t += 1;
            }
            adjacency_list.push(row);
            u += 1;
        }
        let r = Component {
            clusters: triples,
            adjacency_list,
            population,
            eccentricities: None,
            diameter: None,
            neighborhood_sizes: None,
            accumulated_cp_car_ratios: cp,
            anomaly_properties: props,
        };
        proof {
            assert(r.clusters@ =~= sel_seq);
            assert(sum_triple_card_upto(sel_seq, ln as int) == sum_triple_card(sel_seq));
            // The neighbor bridge, in both directions.
            assert forall|a: int, b: int, d: u64| (#[trigger] r.has_nbr(a, b, d)) implies (0 <= a
                < iseq.len() && 0 <= b < iseq.len() && self.has_nbr(
                iseq[a] as int,
                iseq[b] as int,
                d,
            )) by {
                let t = choose|t: int|
                    0 <= t < r.adjacency_list@[a]@.len() && ((
                    #[trigger] r.adjacency_list@[a]@[t]).0 as int) == b
                        && r.adjacency_list@[a]@[t].1 == d;
                let e = self.adjacency_list@[iseq[a] as int]@[t];
                assert(selected(iseq, e.0));
                let w = choose|w: int| 0 <= w < iseq.len() && (#[trigger] iseq[w]) == e.0;
                assert((new_index@[e.0 as int] as int) == w);
                assert(b == w);
                assert((self.adjacency_list@[iseq[a] as int]@[t].0 as int) == iseq[b] as int);
            }
            assert forall|a: int, b: int, d: u64|
                (0 <= a < iseq.len() && 0 <= b < iseq.len() && self.has_nbr(
                    iseq[a] as int,
                    iseq[b] as int,
                    d,
                )) implies (#[trigger] r.has_nbr(a, b, d)) by {
                let t = choose|t: int|
                    0 <= t < self.adjacency_list@[iseq[a] as int]@.len() && ((
                    #[trigger] self.adjacency_list@[iseq[a] as int]@[t]).0 as int) == iseq[b]
                        as int && self.adjacency_list@[iseq[a] as int]@[t].1 == d;
                assert(r.adjacency_list@[a]@[t] == (
                    new_index@[iseq[b] as int],
                    self.adjacency_list@[iseq[a] as int]@[t].1,
                ));
                assert((r.adjacency_list@[a]@[t].0 as int) == b);
            }
            // Structural invariant of the part.
            assert forall|w: int, t: int|
                0 <= w < r.n() && 0 <= t < r.adjacency_list@[w]@.len() implies ((
            #[trigger] r.adjacency_list@[w]@[t]).0 as int) < r.n() && (r.adjacency_list@[w]@[t].0
                as int) != w by {
                let e = self.adjacency_list@[iseq[w] as int]@[t];
                assert(selected(iseq, e.0));
                let x = choose|x: int| 0 <= x < iseq.len() && (#[trigger] iseq[x]) == e.0;
                assert((new_index@[e.0 as int] as int) == x);
                if x == w {
                    assert((e.0 as int) == iseq[w] as int);
                }
            }
            assert forall|w: int, t1: int, t2: int|
                0 <= w < r.n() && 0 <= t1 < t2 < r.adjacency_list@[w]@.len() implies (
            #[trigger] r.adjacency_list@[w]@[t1]).0 != (#[trigger] r.adjacency_list@[w]@[t2]).0
                by {
                let e1 = self.adjacency_list@[iseq[w] as int]@[t1];
                let e2 = self.adjacency_list@[iseq[w] as int]@[t2];
                assert(selected(iseq, e1.0));
                assert(selected(iseq, e2.0));
                let x1 = choose|x: int| 0 <= x < iseq.len() && (#[trigger] iseq[x]) == e1.0;
                let x2 = choose|x: int| 0 <= x < iseq.len() && (#[trigger] iseq[x]) == e2.0;
                assert((new_index@[e1.0 as int] as int) == x1);
                assert((new_index@[e2.0 as int] as int) == x2);
                if x1 == x2 {
                    assert(e1.0 == e2.0);
                    assert(e1.0 != e2.0);
                }
            }
            assert forall|a: int, b: int, d: u64| (#[trigger] r.has_nbr(a, b, d)) implies r.has_nbr(
                b,
                a,
                d,
            ) by {
                assert(self.has_nbr(iseq[a] as int, iseq[b] as int, d));
                assert(self.has_nbr(iseq[b] as int, iseq[a] as int, d));
            }
        }
        r
    }
}


impl Component {
    /// Splits the component in two: the members reachable from position
    /// zero, as one connected component, and all remaining members.  Member
    /// order is preserved on both sides, neighbor entries are remapped to
    /// the new positions, and the cached analytics are reset.
    #[verifier::rlimit(100)]
    pub fn partition(self) -> (r: (Component, Component))
        requires
            self.wf(),
            self.n() >= 1,
        ensures
            ({
                let keep = reach_set(self.adjs(), 0);
                let ks = positions_where(self.n() as nat, keep);
                let us = positions_where(self.n() as nat, keep.complement());
                &&& r.0.wf() && r.1.wf()
                &&& r.0.connected()
                &&& r.0.n() == ks.len() && r.1.n() == us.len()
                &&& r.0.n() >= 1
                &&& r.0.n() + r.1.n() == self.n()
                &&& r.0.population + r.1.population == self.population
                &&& r.0.clusters@ == sel(self.clusters@, ks)
                &&& r.1.clusters@ == sel(self.clusters@, us)
                &&& r.0.accumulated_cp_car_ratios@ == sel(self.accumulated_cp_car_ratios@, ks)
                &&& r.1.accumulated_cp_car_ratios@ == sel(self.accumulated_cp_car_ratios@, us)
                &&& r.0.anomaly_properties@ == sel(self.anomaly_properties@, ks)
                &&& r.1.anomaly_properties@ == sel(self.anomaly_properties@, us)
                &&& forall|a: int, b: int, d: u64|
                    (#[trigger] r.0.has_nbr(a, b, d)) <==> (0 <= a < ks.len() && 0 <= b < ks.len()
                        && self.has_nbr(ks[a], ks[b], d))
                &&& forall|a: int, b: int, d: u64|
                    (#[trigger] r.1.has_nbr(a, b, d)) <==> (0 <= a < us.len() && 0 <= b < us.len()
                        && self.has_nbr(us[a], us[b], d))
                &&& forall|a: int, b: int, d: u64|
                    0 <= a < ks.len() && 0 <= b < us.len() ==> !(#[trigger] self.has_nbr(
                        ks[a],
                        us[b],
                        d,
                    ))
                &&& r.0.eccentricities is None && r.0.diameter is None
                    && r.0.neighborhood_sizes is None
                &&& r.1.eccentricities is None && r.1.diameter is None
                    && r.1.neighborhood_sizes is None
            }),
    {
        let n = self.clusters.len();
        proof {
            self.lemma_adj_symmetric();
        }
        let ghost adjs = self.adjs();
        let ghost keep = reach_set(adjs, 0);
        let bits = self.reach_flags();
        let mut kept: Vec<usize> = Vec::new();
        let mut unkept: Vec<usize> = Vec::new();
        let mut new_index = zero_positions(n);
        let mut j: usize = 0;
        while j < n
            invariant
                n == self.n(),
                adjs == self.adjs(),
                keep == reach_set(adjs, 0),
                bits@.len() == n,
                forall|x: int| 0 <= x < n ==> ((#[trigger] bits@[x]) <==> keep.contains(x)),
                j <= n,
                kept@.len() == positions_where(j as nat, keep).len(),
                forall|u: int|
                    0 <= u < kept@.len() ==> ((#[trigger] kept@[u]) as int) == positions_where(
                        j as nat,
                        keep,
                    )[u],
                unkept@.len() == positions_where(j as nat, keep.complement()).len(),
                forall|u: int|
                    0 <= u < unkept@.len() ==> ((#[trigger] unkept@[u]) as int) == positions_where(
                        j as nat,
                        keep.complement(),
                    )[u],
                new_index@.len() == n,
                forall|u: int|
                    0 <= u < kept@.len() ==> (new_index@[(#[trigger] kept@[u]) as int] as int)
                        == u,
                forall|u: int|
                    0 <= u < unkept@.len() ==> (new_index@[(#[trigger] unkept@[u]) as int] as int)
                        == u,
            decreases n - j,
        {
            proof {
                lemma_positions_where_props(j as nat, keep);
                lemma_positions_where_props(j as nat, keep.complement());
                lemma_positions_where_props((j + 1) as nat, keep);
                lemma_positions_where_props((j + 1) as nat, keep.complement());
            }
            if bits[j] {
                let l = kept.len();
                new_index[j] = l;
                kept.push(j);
                proof {
                    assert(positions_where((j + 1) as nat, keep) =~= positions_where(
                        j as nat,
                        keep,
                    ).push(j as int));
                    assert(positions_where((j + 1) as nat, keep.complement()) =~= positions_where(
                        j as nat,
                        keep.complement(),
                    ));
                    // Earlier kept positions are all below `j`, so the
                    // updated slot leaves their inverse entries alone.
                    assert forall|u: int|
                        0 <= u < kept@.len() implies (new_index@[(#[trigger] kept@[u]) as int]
                        as int) == u by {
                        if u < kept@.len() - 1 {
                            assert((kept@[u] as int) < j as int);
                        }
                    }
                    assert forall|u: int|
                        0 <= u < unkept@.len() implies (new_index@[(#[trigger] unkept@[u]) as int]
                        as int) == u by {
                        assert((unkept@[u] as int) < j as int);
                    }
                }
            } else {
                let l = unkept.len();
                new_index[j] = l;
                unkept.push(j);
                proof {
                    assert(!keep.contains(j as int));
                    assert(keep.complement().contains(j as int));
                    assert(positions_where((j + 1) as nat, keep.complement())
                        =~= positions_where(j as nat, keep.complement()).push(j as int));
                    assert(positions_where((j + 1) as nat, keep) =~= positions_where(
                        j as nat,
                        keep,
                    ));
                    assert forall|u: int|
                        0 <= u < unkept@.len() implies (new_index@[(#[trigger] unkept@[u]) as int]
                        as int) == u by {
                        if u < unkept@.len() - 1 {
                            assert((unkept@[u] as int) < j as int);
                        }
                    }
                    assert forall|u: int|
                        0 <= u < kept@.len() implies (new_index@[(#[trigger] kept@[u]) as int]
                        as int) == u by {
                        assert((kept@[u] as int) < j as int);
                    }
                }
            }
            j += 1;
        }
        let ghost ks = positions_where(n as nat, keep);
        let ghost us = positions_where(n as nat, keep.complement());
        proof {
            lemma_positions_where_props(n as nat, keep);
            lemma_positions_where_props(n as nat, keep.complement());
            lemma_positions_partition_sum(self.clusters@, n as nat, keep);
            // Position zero is kept and stands first.
            assert(reaches_in(adjs, 0, 0, 0));
            assert(keep.contains(0));
            assert(ks.contains(0));
            assert(ks.len() >= 1);
            assert(ks[0] == 0) by {
                let u = choose|u: int| 0 <= u < ks.len() && ks[u] == 0;
                if u > 0 {
                    assert(ks[0] < ks[u]);
                    assert(ks[0] >= 0);
                }
            }
            // The kept side is closed under the adjacency.
            assert forall|u: int, t: int|
                0 <= u < kept@.len() && 0 <= t
                    < self.adjacency_list@[kept@[u] as int]@.len() implies selected(
                kept@,
                (#[trigger] self.adjacency_list@[kept@[u] as int]@[t]).0,
            ) by {
                let i = kept@[u] as int;
                let e = self.adjacency_list@[i]@[t].0;
                assert(keep.contains(i));
                assert(adjs[i].contains(e as int)) by {
                    lemma_pair_idx_set_contains(self.adjacency_list@[i]@, e as int);
                }
                lemma_reaches_step(adjs, i, e as int);
                lemma_reaches_trans(adjs, 0, i, e as int);
                assert(keep.contains(e as int));
                assert(ks.contains(e as int));
                let w = choose|w: int| 0 <= w < ks.len() && ks[w] == e as int;
                assert(kept@[w] == e);
            }
            // The remainder is closed as well: a neighbor of an unreached
            // member cannot be reached, or symmetry would reach the member.
            assert forall|u: int, t: int|
                0 <= u < unkept@.len() && 0 <= t
                    < self.adjacency_list@[unkept@[u] as int]@.len() implies selected(
                unkept@,
                (#[trigger] self.adjacency_list@[unkept@[u] as int]@[t]).0,
            ) by {
                let i = unkept@[u] as int;
                let e = self.adjacency_list@[i]@[t].0;
                assert(keep.complement().contains(i));
                assert(adjs[i].contains(e as int)) by {
                    lemma_pair_idx_set_contains(self.adjacency_list@[i]@, e as int);
                }
                if keep.contains(e as int) {
                    assert(adjs[e as int].contains(i));
                    lemma_reaches_step(adjs, e as int, i);
                    lemma_reaches_trans(adjs, 0, e as int, i);
                    assert(keep.contains(i));
                }
                assert(0 <= (e as int) && (e as int) < n);
                assert(keep.complement().contains(e as int));
                assert(us.contains(e as int));
                let w = choose|w: int| 0 <= w < us.len() && us[w] == e as int;
                assert(unkept@[w] == e);
            }
            // Both side sums fit, since together they make the whole.
            lemma_sum_triple_card_nonneg_pub(sel(self.clusters@, ks));
            lemma_sum_triple_card_nonneg_pub(sel(self.clusters@, us));
            assert(sel(self.clusters@, kept@.map_values(|x: usize| x as int)) =~= sel(
                self.clusters@,
                ks,
            ));
            assert(sel(self.clusters@, unkept@.map_values(|x: usize| x as int)) =~= sel(
                self.clusters@,
                us,
            ));
        }
        let part0 = self.extract(&kept, &new_index);
        let part1 = self.extract(&unkept, &new_index);
        proof {
            assert(part0.clusters@ =~= sel(self.clusters@, ks));
            assert(part1.clusters@ =~= sel(self.clusters@, us));
            assert(part0.accumulated_cp_car_ratios@ =~= sel(self.accumulated_cp_car_ratios@, ks));
            assert(part1.accumulated_cp_car_ratios@ =~= sel(self.accumulated_cp_car_ratios@, us));
            assert(part0.anomaly_properties@ =~= sel(self.anomaly_properties@, ks));
            assert(part1.anomaly_properties@ =~= sel(self.anomaly_properties@, us));
            assert forall|a: int, b: int, d: u64| (#[trigger] part0.has_nbr(a, b, d)) <==> (0 <= a
                < ks.len() && 0 <= b < ks.len() && self.has_nbr(ks[a], ks[b], d)) by {
                if 0 <= a < ks.len() && 0 <= b < ks.len() {
                    assert((kept@[a] as int) == ks[a] && (kept@[b] as int) == ks[b]);
                }
            }
            assert forall|a: int, b: int, d: u64| (#[trigger] part1.has_nbr(a, b, d)) <==> (0 <= a
                < us.len() && 0 <= b < us.len() && self.has_nbr(us[a], us[b], d)) by {
                if 0 <= a < us.len() && 0 <= b < us.len() {
                    assert((unkept@[a] as int) == us[a] && (unkept@[b] as int) == us[b]);
                }
            }
            // No edge crosses the split: the kept side is closed under
            // reachability.
            assert forall|a: int, b: int, d: u64|
                0 <= a < ks.len() && 0 <= b < us.len() implies !(#[trigger] self.has_nbr(
                ks[a],
                us[b],
                d,
            )) by {
                if self.has_nbr(ks[a], us[b], d) {
                    let t = choose|t: int|
                        0 <= t < self.adjacency_list@[ks[a]]@.len() && ((
                        #[trigger] self.adjacency_list@[ks[a]]@[t]).0 as int) == us[b]
                            && self.adjacency_list@[ks[a]]@[t].1 == d;
                    assert(adjs[ks[a]].contains(us[b])) by {
                        lemma_pair_idx_set_contains(self.adjacency_list@[ks[a]]@, us[b]);
                    }
                    assert(keep.contains(ks[a]));
                    lemma_reaches_step(adjs, ks[a], us[b]);
                    lemma_reaches_trans(adjs, 0, ks[a], us[b]);
                    assert(keep.contains(us[b]));
                    assert(keep.complement().contains(us[b]));
                }
            }
            // The kept part is connected: reachability transports along
            // the position map.
            self.lemma_part_connected(part0, ks);
        }
        (part0, part1)
    }
}

/// The member cardinality sum is never negative.
pub proof fn lemma_sum_triple_card_nonneg_pub(s: Seq<(usize, usize, usize)>)
    ensures
        0 <= sum_triple_card(s),
{
    lemma_sum_triple_card_nonneg(s, s.len() as int);
}


/// The fixed-point transition weight of one recorded distance: the inverse
/// distance relative to the scale, clamped so that every positive distance
/// keeps a positive weight.  A zero distance carries no weight: the
/// division by zero is guarded explicitly.
pub open spec fn dist_weight(d: u64) -> int {
    if d == 0 {
        0
    } else if (PROB_SCALE as int) / (d as int) == 0 {
        1
    } else {
        (PROB_SCALE as int) / (d as int)
    }
}

impl Component {
    /// The transition weight from member `i` to member `j`: the clamped
    /// inverse of the recorded distance, zero for non-neighbors and for
    /// zero distances.
    pub open spec fn weight_of(self, i: int, j: int) -> int {
        if exists|d: u64| self.has_nbr(i, j, d) {
            let d = choose|d: u64| self.has_nbr(i, j, d);
            dist_weight(d)
        } else {
            0
        }
    }

    /// The weight matrix of the component's random walk.
    pub open spec fn wmat(self) -> Seq<Seq<u64>> {
        Seq::new(
            self.n() as nat,
            |i: int| Seq::new(self.n() as nat, |j: int| self.weight_of(i, j) as u64),
        )
    }

    /// A member records one distance per neighbor.
    proof fn lemma_nbr_unique(self, i: int, j: int, d1: u64, d2: u64)
        requires
            self.wf(),
            0 <= i < self.n(),
            self.has_nbr(i, j, d1),
            self.has_nbr(i, j, d2),
        ensures
            d1 == d2,
    {
        let t1 = choose|t: int|
            0 <= t < self.adjacency_list@[i]@.len() && ((
            #[trigger] self.adjacency_list@[i]@[t]).0 as int) == j
                && self.adjacency_list@[i]@[t].1 == d1;
        let t2 = choose|t: int|
            0 <= t < self.adjacency_list@[i]@.len() && ((
            #[trigger] self.adjacency_list@[i]@[t]).0 as int) == j
                && self.adjacency_list@[i]@[t].1 == d2;
        if t1 != t2 {
            if t1 < t2 {
                assert(self.adjacency_list@[i]@[t1].0 != self.adjacency_list@[i]@[t2].0);
            } else {
                assert(self.adjacency_list@[i]@[t2].0 != self.adjacency_list@[i]@[t1].0);
            }
        }
    }

    /// The bounds of one transition weight.
    proof fn lemma_weight_bounds(self, i: int, j: int)
        ensures
            0 <= self.weight_of(i, j) <= PROB_SCALE,
    {
        if exists|d: u64| self.has_nbr(i, j, d) {
            let d = choose|d: u64| self.has_nbr(i, j, d);
            if d != 0 {
                lemma_div_le_self(PROB_SCALE as int, d as int);
            }
        }
    }

    /// A member's transition row carries mass exactly when some neighbor
    /// stands at a positive distance.
    pub proof fn lemma_row_mass(self, i: int)
        requires
            self.wf(),
            0 <= i < self.n(),
        ensures
            (row_sum(self.wmat()[i]) > 0) <==> (exists|j: int, d: u64|
                (#[trigger] self.has_nbr(i, j, d)) && d > 0),
    {
        let row = self.wmat()[i];
        assert(row.len() == self.n());
        if exists|j: int, d: u64| (#[trigger] self.has_nbr(i, j, d)) && d > 0 {
            let (j, d) = choose|j: int, d: u64| (#[trigger] self.has_nbr(i, j, d)) && d > 0;
            let t = choose|t: int|
                0 <= t < self.adjacency_list@[i]@.len() && ((
                #[trigger] self.adjacency_list@[i]@[t]).0 as int) == j
                    && self.adjacency_list@[i]@[t].1 == d;
            assert(0 <= j < self.n());
            assert(self.weight_of(i, j) >= 1) by {
                let d2 = choose|d2: u64| self.has_nbr(i, j, d2);
                self.lemma_nbr_unique(i, j, d, d2);
                lemma_div_le_self(PROB_SCALE as int, d as int);
            }
            self.lemma_weight_bounds(i, j);
            assert(row[j] as int == self.weight_of(i, j));
            lemma_entry_le_sum(row, j);
        }
        if row_sum(row) > 0 {
            if !(exists|j: int, d: u64| (#[trigger] self.has_nbr(i, j, d)) && d > 0) {
                assert forall|j: int| 0 <= j < row.len() implies (#[trigger] row[j]) == 0 by {
                    if exists|d: u64| self.has_nbr(i, j, d) {
                        let d = choose|d: u64| self.has_nbr(i, j, d);
                        assert(!(self.has_nbr(i, j, d) && d > 0));
                        assert(d == 0);
                    }
                }
                lemma_sum_zero_rows(row, row.len() as int);
            }
        }
    }

    /// Estimates the long-run visiting probability of each member under a
    /// random walk biased toward near neighbors, in fixed point relative
    /// to [`PROB_SCALE`].  A single-member component reports probability
    /// zero: an isolated cluster is treated as anomalous.
    #[verifier::rlimit(100)]
    pub fn compute_stationary_probabilities(&self, num_steps: usize) -> (r: Vec<u64>)
        requires
            self.wf(),
            self.n() <= 0x100000000,
        ensures
            r@ == stationary_spec(self.wmat(), num_steps as nat),
            r@.len() == self.n(),
            forall|i: int| 0 <= i < r@.len() ==> (#[trigger] r@[i]) <= PROB_SCALE,
            self.n() == 1 ==> r@ =~= seq![0u64],
            num_steps == 0 ==> forall|i: int|
                0 <= i < r@.len() ==> ((#[trigger] r@[i]) as int) == (if row_sum(
                    self.wmat()[i],
                ) == 0 {
                    0
                } else {
                    PROB_SCALE as int
                }),
            num_steps == 0 ==> forall|i: int|
                0 <= i < r@.len() ==> ((#[trigger] r@[i]) as int) == (
                if exists|j: int, d: u64| (#[trigger] self.has_nbr(i, j, d)) && d > 0 {
                    PROB_SCALE as int
                } else {
                    0
                }),
    {
        let n = self.clusters.len();
        if n == 1 {
            let mut r: Vec<u64> = Vec::new();
            r.push(0);
            proof {
                let w = self.wmat();
                assert(w.len() == 1);
                assert forall|j: int, d: u64| !(#[trigger] self.has_nbr(j, 0, d)) && !(
                #[trigger] self.has_nbr(0, j, d)) by {
                    if self.has_nbr(0, j, d) {
                        let t = choose|t: int|
                            0 <= t < self.adjacency_list@[0]@.len() && ((
                            #[trigger] self.adjacency_list@[0]@[t]).0 as int) == j
                                && self.adjacency_list@[0]@[t].1 == d;
                        assert((self.adjacency_list@[0]@[t].0 as int) < 1);
                        assert((self.adjacency_list@[0]@[t].0 as int) != 0);
                    }
                    if self.has_nbr(j, 0, d) {
                        assert(0 <= j < 1);
                        assert(self.has_nbr(0, 0, d));
                        let t = choose|t: int|
                            0 <= t < self.adjacency_list@[0]@.len() && ((
                            #[trigger] self.adjacency_list@[0]@[t]).0 as int) == 0
                                && self.adjacency_list@[0]@[t].1 == d;
                        assert((self.adjacency_list@[0]@[t].0 as int) != 0);
                    }
                }
                assert(self.weight_of(0, 0) == 0);
                assert(w[0] =~= seq![0u64]);
                assert(row_sum_upto(seq![0u64], 0) == 0);
                assert(row_sum_upto(seq![0u64], 1) == 0);
                assert(row_sum(w[0]) == 0);
                let z = norm_mat(w);
                assert(z[0] =~= seq![0u64]);
                assert(row_sum(z[0]) == 0);
                assert(mat_sq(z) =~= z) by {
                    assert(dot_upto(z[0], z, 0, 0) == 0);
                    assert(z[0][0] == 0u64);
                    assert(dot_upto(z[0], z, 0, 1) == dot_upto(z[0], z, 0, 0) + (z[0][0] as int)
                        * (z[0][0] as int));
                    assert((0int) * (0int) == 0) by (nonlinear_arith);
                    assert(dot_upto(z[0], z, 0, 1) == 0);
                    assert(sq_entry(z, 0, 0) == 0);
                    assert(mat_sq(z)[0] =~= z[0]);
                }
                lemma_iter_fixed(z, num_steps as nat);
                assert(stationary_spec(w, num_steps as nat) =~= seq![0u64]);
                assert(r@ =~= seq![0u64]);
            }
            return r;
        }
        // Build the weight matrix from the adjacency list.
        let mut w: Vec<Vec<u64>> = Vec::new();
        let mut i: usize = 0;
        while i < n
            invariant
                self.wf(),
                n == self.n(),
                i <= n,
                w@.len() == i,
                forall|a: int| 0 <= a < i ==> (#[trigger] w@[a]@) == self.wmat()[a],
            decreases n - i,
        {
            let mut row: Vec<u64> = Vec::new();
            let mut j: usize = 0;
            while j < n
                invariant
                    j <= n,
                    row@.len() == j,
                    forall|b: int| 0 <= b < j ==> (#[trigger] row@[b]) == 0,
                decreases n - j,
            {
                row.push(0);
                j += 1;
            }
            let row_len = self.adjacency_list[i].len();
            let mut t: usize = 0;
            while t < row_len
                invariant
                    self.wf(),
                    n == self.n(),
                    i < n,
                    row_len == self.adjacency_list@[i as int]@.len(),
                    t <= row_len,
                    row@.len() == n,
                    forall|b: int|
                        0 <= b < n ==> ((#[trigger] row@[b]) as int) == (
                        if exists|tt: int|
                            0 <= tt < t && ((#[trigger] self.adjacency_list@[i as int]@[tt]).0
                                as int) == b {
                            {
                                let tt = choose|tt: int|
                                    0 <= tt < t && ((
                                    #[trigger] self.adjacency_list@[i as int]@[tt]).0 as int) == b;
                                dist_weight(self.adjacency_list@[i as int]@[tt].1)
                            }
                        } else {
                            0
                        }),
                decreases row_len - t,
            {
                let e = self.adjacency_list[i][t];
                let ghost row0 = row@;
                if e.1 > 0 {
                    let q = PROB_SCALE / e.1;
                    let shared = if q == 0 {
                        1
                    } else {
                        q
                    };
                    proof {
                        crate::stationary::lemma_div_ordered(
                            PROB_SCALE as int,
                            PROB_SCALE as int,
                            e.1 as int,
                        );
                        assert(shared as int == dist_weight(e.1));
                    }
                    row[e.0] = shared;
                } else {
                    row[e.0] = 0;
                }
                proof {
                    assert forall|b: int| 0 <= b < n implies ((#[trigger] row@[b]) as int) == (
                    if exists|tt: int|
                        0 <= tt < t + 1 && ((#[trigger] self.adjacency_list@[i as int]@[tt]).0
                            as int) == b {
                        {
                            let tt = choose|tt: int|
                                0 <= tt < t + 1 && ((
                                #[trigger] self.adjacency_list@[i as int]@[tt]).0 as int) == b;
                            dist_weight(self.adjacency_list@[i as int]@[tt].1)
                        }
                    } else {
                        0
                    }) by {
                        if b == e.0 as int {
                            let tt = choose|tt: int|
                                0 <= tt < t + 1 && ((
                                #[trigger] self.adjacency_list@[i as int]@[tt]).0 as int) == b;
                            if tt != t as int {
                                if tt < t as int {
                                    assert(self.adjacency_list@[i as int]@[tt].0
                                        != self.adjacency_list@[i as int]@[t as int].0);
                                }
                            }
                        } else {
                            assert(row@[b] == row0[b]);
                            if exists|tt: int|
                                0 <= tt < t + 1 && ((
                                #[trigger] self.adjacency_list@[i as int]@[tt]).0 as int) == b {
                                let tt = choose|tt: int|
                                    0 <= tt < t + 1 && ((
                                    #[trigger] self.adjacency_list@[i as int]@[tt]).0 as int) == b;
                                assert(tt < t);
                                assert(exists|uu: int|
                                    0 <= uu < t && ((
                                    #[trigger] self.adjacency_list@[i as int]@[uu]).0 as int)
                                        == b);
                            }
                        }
                    }
                }
                t += 1;
            }
            proof {
                assert forall|b: int| 0 <= b < n implies (#[trigger] row@[b])
                    == self.wmat()[i as int][b] by {
                    if exists|d: u64| self.has_nbr(i as int, b, d) {
                        let d = choose|d: u64| self.has_nbr(i as int, b, d);
                        let tt = choose|tt: int|
                            0 <= tt < self.adjacency_list@[i as int]@.len() && ((
                            #[trigger] self.adjacency_list@[i as int]@[tt]).0 as int) == b
                                && self.adjacency_list@[i as int]@[tt].1 == d;
                        let uu = choose|uu: int|
                            0 <= uu < row_len && ((
                            #[trigger] self.adjacency_list@[i as int]@[uu]).0 as int) == b;
                        self.lemma_nbr_unique(
                            i as int,
                            b,
                            d,
                            self.adjacency_list@[i as int]@[uu].1,
                        );
                    } else {
                        if exists|uu: int|
                            0 <= uu < row_len && ((
                            #[trigger] self.adjacency_list@[i as int]@[uu]).0 as int) == b {
                            let uu = choose|uu: int|
                                0 <= uu < row_len && ((
                                #[trigger] self.adjacency_list@[i as int]@[uu]).0 as int) == b;
                            assert(self.has_nbr(i as int, b, self.adjacency_list@[i as int]@[uu].1));
                        }
                    }
                }
                assert(row@ =~= self.wmat()[i as int]);
            }
            w.push(row);
            i += 1;
        }
        proof {
            assert(mat_view(w@) =~= self.wmat());
            assert forall|a: int, b: int| 0 <= a < n && 0 <= b < n implies (#[trigger] w@[a]@[b])
                <= PROB_SCALE by {
                assert(w@[a]@ == self.wmat()[a]);
                if exists|d: u64| self.has_nbr(a, b, d) {
                    let d = choose|d: u64| self.has_nbr(a, b, d);
                    if d != 0 {
                        crate::stationary::lemma_div_ordered(
                            PROB_SCALE as int,
                            PROB_SCALE as int,
                            d as int,
                        );
                    }
                }
            }
        }
        let r = stationary_from_weights(&w, num_steps);
        proof {
            if num_steps == 0 {
                assert forall|i: int| 0 <= i < r@.len() implies ((#[trigger] r@[i]) as int) == (
                if exists|j: int, d: u64| (#[trigger] self.has_nbr(i, j, d)) && d > 0 {
                    PROB_SCALE as int
                } else {
                    0
                }) by {
                    self.lemma_row_mass(i);
                    lemma_row_sum_nonneg(self.wmat()[i], self.wmat()[i].len() as int);
                    assert(w@[i]@ == self.wmat()[i]);
                }
            }
        }
        r
    }
}



impl Component {
    /// A component that keeps its core fields and whose caches satisfy
    /// their meanings over the old view is well-formed.
    proof fn lemma_wf_caches(a: Component, b: Component)
        requires
            a.wf(),
            b.same_core(a),
            match b.eccentricities {
                Option::Some(e) => e@.len() == a.n() && forall|i: int|
                    0 <= i < a.n() ==> ((#[trigger] e@[i]) as int) == reach_set(a.adjs(), i).len(),
                Option::None => true,
            },
            match b.diameter {
                Option::Some(d) => (a.n() == 0 && d == 0) || ((exists|i: int|
                    0 <= i < a.n() && d as int == (#[trigger] reach_set(a.adjs(), i)).len())
                    && forall|i: int|
                    0 <= i < a.n() ==> (#[trigger] reach_set(a.adjs(), i)).len() <= d as int),
                Option::None => true,
            },
            match b.neighborhood_sizes {
                Option::Some(rows) => rows@.len() == a.n() && forall|i: int|
                    0 <= i < a.n() ==> a.nbh_ok(i, (#[trigger] rows@[i])@),
                Option::None => true,
            },
        ensures
            b.wf(),
    {
        assert(b.adjs() =~= a.adjs());
        assert forall|i: int, j: int, d: u64| (#[trigger] b.has_nbr(i, j, d)) implies b.has_nbr(
            j,
            i,
            d,
        ) by {
            assert(a.has_nbr(i, j, d));
            assert(a.has_nbr(j, i, d));
        }
        match b.diameter {
            Option::Some(d) => {
                if !(a.n() == 0 && d == 0) {
                    let i = choose|i: int|
                        0 <= i < a.n() && d as int == (#[trigger] reach_set(a.adjs(), i)).len();
                    assert(0 <= i < b.n() && d as int == reach_set(b.adjs(), i).len());
                    assert forall|t: int| 0 <= t < b.n() implies (#[trigger] reach_set(
                        b.adjs(),
                        t,
                    )).len() <= d as int by {
                        assert(reach_set(a.adjs(), t).len() <= d as int);
                    }
                }
            },
            Option::None => {},
        }
        match b.eccentricities {
            Option::Some(e) => {
                assert forall|t: int| 0 <= t < b.n() implies ((#[trigger] e@[t]) as int)
                    == reach_set(b.adjs(), t).len() by {
                    assert((e@[t] as int) == reach_set(a.adjs(), t).len());
                }
            },
            Option::None => {},
        }
        match b.neighborhood_sizes {
            Option::Some(rows) => {
                assert forall|t: int| 0 <= t < b.n() implies b.nbh_ok(
                    t,
                    (#[trigger] rows@[t])@,
                ) by {
                    assert(a.nbh_ok(t, rows@[t]@));
                }
            },
            Option::None => {},
        }
    }
}

/// A duplicate-free row of in-range targets has at most `n` entries.
proof fn lemma_row_len_bound(row: Seq<(usize, u64)>, n: int)
    requires
        0 <= n,
        forall|t: int| 0 <= t < row.len() ==> ((#[trigger] row[t]).0 as int) < n,
        forall|t1: int, t2: int|
            0 <= t1 < t2 < row.len() ==> (#[trigger] row[t1]).0 != (#[trigger] row[t2]).0,
    ensures
        row.len() <= n,
{
    let m = row.map_values(|p: (usize, u64)| p.0 as int);
    assert(m.no_duplicates());
    m.unique_seq_to_set();
    broadcast use vstd::seq_lib::seq_to_set_is_finite;

    lemma_int_range(0, n);
    assert forall|j: int| m.to_set().contains(j) implies set_int_range(0, n).contains(j) by {
        let t = choose|t: int| 0 <= t < m.len() && m[t] == j;
        assert((row[t].0 as int) == j);
    }
    lemma_len_subset(m.to_set(), set_int_range(0, n));
}

/// The fresh neighbors of member `u`, in row order, once `vis` has been
/// visited.
pub open spec fn fresh_targets(comp: Component, u: int, vis: Set<int>) -> Seq<usize> {
    comp.adjacency_list@[u]@.map_values(|e: (usize, u64)| e.0).filter(
        |j: usize| !vis.contains(j as int),
    )
}

/// The fresh neighbors among the first `t` entries of member `u`'s row.
pub open spec fn fresh_prefix(comp: Component, u: int, vis: Set<int>, t: int) -> Seq<usize> {
    comp.adjacency_list@[u]@.take(t).map_values(|e: (usize, u64)| e.0).filter(
        |j: usize| !vis.contains(j as int),
    )
}

/// The per-pop discovery counts of the stack-driven sweep: pop the top of
/// the stack, skip it if already seen, and otherwise record how many of
/// its neighbors are fresh and push them in row order.  The fuel bounds
/// the number of markings; any fuel at least the member count reproduces
/// the full sweep.
pub open spec fn dfs_counts(comp: Component, vis: Set<int>, stack: Seq<usize>, fuel: nat) -> Seq<
    usize,
>
    decreases fuel, stack.len(),
{
    if stack.len() == 0 {
        Seq::<usize>::empty()
    } else {
        let u = stack.last();
        let rest = stack.drop_last();
        if vis.contains(u as int) {
            dfs_counts(comp, vis, rest, fuel)
        } else if fuel == 0 {
            Seq::<usize>::empty()
        } else {
            let v2 = vis.insert(u as int);
            let news = fresh_targets(comp, u as int, v2);
            seq![news.len() as usize] + dfs_counts(comp, v2, rest + news, (fuel - 1) as nat)
        }
    }
}

/// The full discovery record of the sweep from member `i`.
pub open spec fn sweep_counts(comp: Component, i: int) -> Seq<usize> {
    dfs_counts(comp, Set::empty(), seq![(i as usize)], comp.n() as nat)
}

/// The sum of the first `t` discovery counts.
pub open spec fn counts_prefix(s: Seq<usize>, t: int) -> int
    decreases t,
{
    if t <= 0 {
        0
    } else {
        counts_prefix(s, t - 1) + s[t - 1]
    }
}

/// The exact cumulative discovery record of the sweep from member `i`:
/// entry `k` is the total number of members first seen in the first
/// `k + 1` pops that marked a member.
pub open spec fn nbh_exact(comp: Component, i: int, w: Seq<usize>) -> bool {
    &&& w.len() == sweep_counts(comp, i).len()
    &&& forall|k: int|
        0 <= k < w.len() ==> ((#[trigger] w[k]) as int) == counts_prefix(
            sweep_counts(comp, i),
            k + 1,
        )
}

/// No row prefix yields no fresh neighbors.
proof fn lemma_fresh_prefix_zero(comp: Component, u: int, vis: Set<int>)
    ensures
        fresh_prefix(comp, u, vis, 0) == Seq::<usize>::empty(),
{
    reveal(Seq::filter);
    assert(comp.adjacency_list@[u]@.take(0) =~= Seq::<(usize, u64)>::empty());
    assert(comp.adjacency_list@[u]@.take(0).map_values(|e: (usize, u64)| e.0) =~= Seq::<
        usize,
    >::empty());
    assert(fresh_prefix(comp, u, vis, 0) =~= Seq::<usize>::empty());
}

/// Extending the scanned prefix by one entry keeps or adds that entry's
/// target, depending on whether it is fresh.
proof fn lemma_fresh_prefix_step(comp: Component, u: int, vis: Set<int>, t: int)
    requires
        0 <= u < comp.adjacency_list@.len(),
        0 <= t < comp.adjacency_list@[u]@.len(),
    ensures
        fresh_prefix(comp, u, vis, t + 1) == if !vis.contains(
            comp.adjacency_list@[u]@[t].0 as int,
        ) {
            fresh_prefix(comp, u, vis, t).push(comp.adjacency_list@[u]@[t].0)
        } else {
            fresh_prefix(comp, u, vis, t)
        },
{
    reveal(Seq::filter);
    let row = comp.adjacency_list@[u]@;
    let f = |e: (usize, u64)| e.0;
    let mapped1 = row.take(t + 1).map_values(f);
    let mapped0 = row.take(t).map_values(f);
    assert(row.take(t + 1) =~= row.take(t).push(row[t]));
    assert(mapped1 =~= mapped0.push(row[t].0)) by {
        assert forall|x: int| 0 <= x < mapped1.len() implies mapped1[x] == mapped0.push(
            row[t].0,
        )[x] by {
            if x < t {
                assert(row.take(t + 1)[x] == row.take(t)[x]);
            }
        }
    }
    assert(mapped0.push(row[t].0).drop_last() =~= mapped0);
    assert(mapped0.push(row[t].0).last() == row[t].0);
}

/// The whole row scanned yields exactly the fresh neighbors.
proof fn lemma_fresh_prefix_full(comp: Component, u: int, vis: Set<int>)
    requires
        0 <= u < comp.adjacency_list@.len(),
    ensures
        fresh_prefix(comp, u, vis, comp.adjacency_list@[u]@.len() as int) == fresh_targets(
            comp,
            u,
            vis,
        ),
{
    assert(comp.adjacency_list@[u]@.take(comp.adjacency_list@[u]@.len() as int)
        =~= comp.adjacency_list@[u]@);
}

/// Popping an already-seen member records nothing.
proof fn lemma_dfs_skip(comp: Component, vis: Set<int>, stack: Seq<usize>, fuel: nat)
    requires
        stack.len() > 0,
        vis.contains(stack.last() as int),
    ensures
        dfs_counts(comp, vis, stack, fuel) == dfs_counts(comp, vis, stack.drop_last(), fuel),
{
}

/// Popping a fresh member records its fresh-neighbor count and pushes
/// those neighbors.
proof fn lemma_dfs_mark(comp: Component, vis: Set<int>, stack: Seq<usize>, fuel: nat)
    requires
        stack.len() > 0,
        !vis.contains(stack.last() as int),
        fuel >= 1,
    ensures
        dfs_counts(comp, vis, stack, fuel) == seq![
            fresh_targets(comp, stack.last() as int, vis.insert(stack.last() as int)).len() as usize,
        ] + dfs_counts(
            comp,
            vis.insert(stack.last() as int),
            stack.drop_last() + fresh_targets(
                comp,
                stack.last() as int,
                vis.insert(stack.last() as int),
            ),
            (fuel - 1) as nat,
        ),
{
}

impl Component {
    /// The cumulative number of members first seen at each step of a
    /// stack-driven sweep from member `i`: one entry per member of `i`'s
    /// connected piece, never decreasing.
    #[verifier::rlimit(100)]
    pub fn compute_neighborhood_sizes(&self, i: usize) -> (r: Vec<usize>)
        requires
            self.wf(),
            (i as int) < self.n(),
            self.n() * self.n() <= usize::MAX,
        ensures
            self.nbh_ok(i as int, r@),
            nbh_exact(*self, i as int, r@),
    {
        let n = self.clusters.len();
        proof {
            self.lemma_adj_symmetric();
        }
        let ghost adjs = self.adjs();
        let ghost full = sweep_counts(*self, i as int);
        let mut bits = crate::graph::falses(n);
        let mut counts: Vec<usize> = Vec::new();
        let ghost mut vset: Set<int> = Set::empty();
        let mut stack: Vec<usize> = Vec::new();
        stack.push(i);
        proof {
            assert(reaches_in(adjs, i as int, i as int, 0));
            assert(stack@[0] == i);
            assert(stack@.contains(i));
            assert(stack@ =~= seq![(i as usize)]);
            assert(counts@ + dfs_counts(*self, vset, stack@, (n - vset.len()) as nat) =~= full);
        }
        while stack.len() > 0
            invariant
                self.wf(),
                n == self.n(),
                adjs == self.adjs(),
                (i as int) < n,
                bits@.len() == n,
                vset.finite(),
                counts@.len() == vset.len(),
                forall|t: int| 0 <= t < counts@.len() ==> ((#[trigger] counts@[t]) as int) <= n,
                forall|j: int| (#[trigger] vset.contains(j)) ==> 0 <= j < n,
                forall|j: int| 0 <= j < n ==> ((#[trigger] bits@[j]) <==> vset.contains(j)),
                forall|j: int| (#[trigger] vset.contains(j)) ==> reaches(adjs, i as int, j),
                forall|t: int|
                    0 <= t < stack@.len() ==> ((#[trigger] stack@[t]) as int) < n && reaches(
                        adjs,
                        i as int,
                        stack@[t] as int,
                    ),
                forall|x: int, t: int|
                    vset.contains(x) && 0 <= t < self.adjacency_list@[x]@.len() ==> (vset.contains(
                        (#[trigger] self.adjacency_list@[x]@[t]).0 as int,
                    ) || stack@.contains(self.adjacency_list@[x]@[t].0)),
                vset.contains(i as int) || stack@.contains(i),
                vset.len() <= n,
                counts@ + dfs_counts(*self, vset, stack@, (n - vset.len()) as nat) == full,
            decreases n - vset.len(), stack@.len(),
        {
            let ghost stack0 = stack@;
            let ghost vset0 = vset;
            let ghost counts0 = counts@;
            let ghost fuel0 = (n - vset.len()) as nat;
            let u = stack.pop().unwrap();
            let ghost srest = stack@;
            proof {
                assert(stack0[stack0.len() - 1] == u);
                assert(stack0.contains(u));
                assert(stack0 =~= stack@.push(u));
                assert(stack0.drop_last() =~= srest);
            }
            if !bits[u] {
                bits[u] = true;
                proof {
                    assert(!vset.contains(u as int));
                    vset = vset.insert(u as int);
                    lemma_int_range(0, n as int);
                    assert forall|j: int| vset.contains(j) implies set_int_range(
                        0,
                        n as int,
                    ).contains(j) by {}
                    lemma_len_subset(vset, set_int_range(0, n as int));
                    assert forall|x: int, tt: int|
                        vset.contains(x) && 0 <= tt < self.adjacency_list@[x]@.len() implies (
                    vset.contains((#[trigger] self.adjacency_list@[x]@[tt]).0 as int)
                        || stack@.contains(self.adjacency_list@[x]@[tt].0) || x == u as int) by {
                        if x != u as int {
                            let e = self.adjacency_list@[x]@[tt].0;
                            crate::graph::lemma_push_contains(stack@, u, e);
                            if e == u {
                                assert(vset.contains(u as int));
                            }
                        }
                    }
                    if !(vset.contains(i as int) || stack@.contains(i)) {
                        crate::graph::lemma_push_contains(stack@, u, i);
                        assert(stack0.contains(i));
                        assert(stack@.push(u).contains(i));
                        assert(u == i);
                        assert(vset.contains(i as int));
                    }
                }
                let row_len = self.adjacency_list[u].len();
                proof {
                    lemma_row_len_bound(self.adjacency_list@[u as int]@, n as int);
                    lemma_fresh_prefix_zero(*self, u as int, vset);
                    assert(stack@ =~= srest + fresh_prefix(*self, u as int, vset, 0));
                }
                let mut cnt: usize = 0;
                let mut t: usize = 0;
                while t < row_len
                    invariant
                        self.wf(),
                        n == self.n(),
                        adjs == self.adjs(),
                        (i as int) < n,
                        (u as int) < n,
                        bits@.len() == n,
                        row_len == self.adjacency_list@[u as int]@.len(),
                        row_len <= n,
                        t <= row_len,
                        cnt <= t,
                        vset == vset0.insert(u as int),
                        stack@ == srest + fresh_prefix(*self, u as int, vset, t as int),
                        cnt as int == fresh_prefix(*self, u as int, vset, t as int).len(),
                        vset.contains(u as int),
                        reaches(adjs, i as int, u as int),
                        forall|j: int| (#[trigger] vset.contains(j)) ==> 0 <= j < n,
                        forall|j: int|
                            0 <= j < n ==> ((#[trigger] bits@[j]) <==> vset.contains(j)),
                        forall|j: int| (#[trigger] vset.contains(j)) ==> reaches(adjs, i as int, j),
                        forall|tt: int|
                            0 <= tt < stack@.len() ==> ((#[trigger] stack@[tt]) as int) < n
                                && reaches(adjs, i as int, stack@[tt] as int),
                        forall|x: int, tt: int|
                            vset.contains(x) && 0 <= tt < self.adjacency_list@[x]@.len() ==> (
                            vset.contains(
                                (#[trigger] self.adjacency_list@[x]@[tt]).0 as int,
                            ) || stack@.contains(self.adjacency_list@[x]@[tt].0) || (x == u as int
                                && tt >= t)),
                        vset.contains(i as int) || stack@.contains(i),
                    decreases row_len - t,
                {
                    let p = self.adjacency_list[u][t];
                    let ghost stack1 = stack@;
                    if !bits[p.0] {
                        stack.push(p.0);
                        cnt += 1;
                        proof {
                            assert(adjs[u as int].contains(p.0 as int)) by {
                                lemma_pair_idx_set_contains(
                                    self.adjacency_list@[u as int]@,
                                    p.0 as int,
                                );
                            }
                            lemma_reaches_step(adjs, u as int, p.0 as int);
                            lemma_reaches_trans(adjs, i as int, u as int, p.0 as int);
                        }
                    }
                    proof {
                        lemma_fresh_prefix_step(*self, u as int, vset, t as int);
                        if !vset.contains(p.0 as int) {
                            assert(stack@ == stack1.push(p.0));
                            assert(stack@ =~= srest + fresh_prefix(
                                *self,
                                u as int,
                                vset,
                                t + 1,
                            ));
                        } else {
                            assert(stack@ == stack1);
                            assert(stack@ =~= srest + fresh_prefix(
                                *self,
                                u as int,
                                vset,
                                t + 1,
                            ));
                        }
                    }
                    proof {
                        assert forall|x: int, tt: int|
                            vset.contains(x) && 0 <= tt
                                < self.adjacency_list@[x]@.len() implies (vset.contains(
                            (#[trigger] self.adjacency_list@[x]@[tt]).0 as int,
                        ) || stack@.contains(self.adjacency_list@[x]@[tt].0) || (x == u as int
                            && tt >= t + 1)) by {
                            let e = self.adjacency_list@[x]@[tt].0;
                            if stack@ != stack1 {
                                crate::graph::lemma_push_contains(stack1, p.0, e);
                            }
                            if x == u as int && tt == t as int {
                                if vset.contains(p.0 as int) {
                                } else {
                                    assert(stack@[stack@.len() - 1] == p.0);
                                    assert(stack@.contains(p.0));
                                }
                            }
                        }
                        if !vset.contains(i as int) {
                            if stack@ != stack1 {
                                crate::graph::lemma_push_contains(stack1, p.0, i);
                            }
                        }
                    }
                    t += 1;
                }
                counts.push(cnt);
                proof {
                    // The pop and its pushes follow one marking step of
                    // the sweep.
                    lemma_fresh_prefix_full(*self, u as int, vset);
                    lemma_dfs_mark(*self, vset0, stack0, fuel0);
                    assert(fuel0 >= 1);
                    assert((fuel0 - 1) as nat == (n - vset.len()) as nat);
                    assert(stack@ == srest + fresh_targets(*self, u as int, vset));
                    assert(counts@ =~= counts0.push(cnt));
                    assert(counts0 + dfs_counts(*self, vset0, stack0, fuel0) == full);
                    assert(counts0 + (seq![cnt] + dfs_counts(
                        *self,
                        vset,
                        stack@,
                        (n - vset.len()) as nat,
                    )) =~= counts0.push(cnt) + dfs_counts(
                        *self,
                        vset,
                        stack@,
                        (n - vset.len()) as nat,
                    ));
                    assert(counts@ + dfs_counts(*self, vset, stack@, (n - vset.len()) as nat)
                        == full);
                }
            } else {
                proof {
                    lemma_dfs_skip(*self, vset, stack0, fuel0);
                    assert(counts@ + dfs_counts(*self, vset, stack@, (n - vset.len()) as nat)
                        == full);
                    assert forall|x: int, tt: int|
                        vset.contains(x) && 0 <= tt < self.adjacency_list@[x]@.len() implies (
                    vset.contains((#[trigger] self.adjacency_list@[x]@[tt]).0 as int)
                        || stack@.contains(self.adjacency_list@[x]@[tt].0)) by {
                        let e = self.adjacency_list@[x]@[tt].0;
                        crate::graph::lemma_push_contains(stack@, u, e);
                        if e == u {
                            assert(vset.contains(u as int));
                        }
                    }
                    if !(vset.contains(i as int) || stack@.contains(i)) {
                        crate::graph::lemma_push_contains(stack@, u, i);
                        assert(stack0.contains(i));
                        assert(stack@.push(u).contains(i));
                        assert(u == i);
                        assert(vset.contains(i as int));
                    }
                }
            }
        }
        proof {
            // The stack is spent, so the record is the full sweep.
            assert(dfs_counts(*self, vset, stack@, (n - vset.len()) as nat) =~= Seq::<
                usize,
            >::empty());
            assert(counts@ + Seq::<usize>::empty() =~= counts@);
            assert(counts@ == full);
        }
        proof {
            // The marked set is the whole reachable piece.
            assert forall|j: int| reach_set(adjs, i as int).contains(j) implies vset.contains(
                j,
            ) by {
                assert forall|x: int, jj: int|
                    vset.contains(x) && (#[trigger] adjs[x].contains(jj)) implies vset.contains(
                    jj,
                ) by {
                    if 0 <= x < n {
                        lemma_pair_idx_set_contains(self.adjacency_list@[x]@, jj);
                        let tt = choose|tt: int|
                            0 <= tt < self.adjacency_list@[x]@.len() && ((
                            #[trigger] self.adjacency_list@[x]@[tt]).0 as int) == jj;
                        assert(vset.contains(self.adjacency_list@[x]@[tt].0 as int)
                            || stack@.contains(self.adjacency_list@[x]@[tt].0));
                    }
                }
                assert(vset.contains(i as int));
                lemma_closed_contains_reach(adjs, vset, i as int, j);
            }
            assert forall|j: int| vset.contains(j) implies reach_set(adjs, i as int).contains(
                j,
            ) by {}
            assert(vset =~= reach_set(adjs, i as int));
        }
        // Turn the per-step counts into cumulative totals.
        let m = counts.len();
        let mut out: Vec<usize> = Vec::new();
        let mut acc: usize = 0;
        let mut t: usize = 0;
        proof {
            assert((m as int) <= n) by {
                lemma_reach_set_finite(adjs, i as int);
            }
        }
        while t < m
            invariant
                n == self.n(),
                self.n() * self.n() <= usize::MAX,
                m == counts@.len(),
                (m as int) <= n,
                counts@ == full,
                forall|tt: int| 0 <= tt < m ==> ((#[trigger] counts@[tt]) as int) <= n,
                t <= m,
                out@.len() == t,
                acc as int == counts_prefix(counts@, t as int),
                forall|k: int|
                    0 <= k < t ==> ((#[trigger] out@[k]) as int) == counts_prefix(counts@, k + 1),
                acc as int <= (t as int) * (n as int),
                forall|a: int, b: int| 0 <= a <= b < t ==> out@[a] <= out@[b],
                forall|a: int| 0 <= a < t ==> (#[trigger] out@[a]) <= acc,
            decreases m - t,
        {
            proof {
                assert((t as int) * (n as int) + (n as int) == (t + 1) * (n as int)) by (
                nonlinear_arith);
                assert((t + 1) * (n as int) <= (n as int) * (n as int)) by (nonlinear_arith)
                    requires
                        0 <= t + 1 <= n as int,
                        0 <= n as int,
                ;
            }
            acc = acc + counts[t];
            out.push(acc);
            t += 1;
        }
        proof {
            vset.lemma_len_filter(|x: int| true);
        }
        out
    }

    /// Lazily computes and caches the cumulative neighborhood sizes of
    /// every member, and returns a copy.
    #[verifier::rlimit(100)]
    pub fn neighborhood_sizes(&mut self) -> (r: Vec<Vec<usize>>)
        requires
            old(self).wf(),
            old(self).n() * old(self).n() <= usize::MAX,
        ensures
            final(self).wf(),
            final(self).same_core(*old(self)),
            final(self).neighborhood_sizes is Some,
            final(self).eccentricities == old(self).eccentricities,
            final(self).diameter == old(self).diameter,
            old(self).neighborhood_sizes is Some ==> final(self).neighborhood_sizes == old(
                self,
            ).neighborhood_sizes,
            r@.len() == old(self).n(),
            forall|i: int| 0 <= i < r@.len() ==> old(self).nbh_ok(i, (#[trigger] r@[i])@),
            old(self).neighborhood_sizes is None ==> forall|i: int|
                0 <= i < r@.len() ==> nbh_exact(*old(self), i, (#[trigger] r@[i])@),
            match final(self).neighborhood_sizes {
                Option::Some(rows) => rows@.len() == r@.len() && forall|i: int|
                    0 <= i < r@.len() ==> (#[trigger] r@[i])@ == rows@[i]@,
                Option::None => false,
            },
    {
        let n = self.clusters.len();
        if self.neighborhood_sizes.is_none() {
            let mut rows: Vec<Vec<usize>> = Vec::new();
            let mut i: usize = 0;
            while i < n
                invariant
                    self.wf(),
                    self == old(self),
                    n == self.n(),
                    self.n() * self.n() <= usize::MAX,
                    i <= n,
                    rows@.len() == i,
                    forall|t: int| 0 <= t < i ==> self.nbh_ok(t, (#[trigger] rows@[t])@),
                    forall|t: int| 0 <= t < i ==> nbh_exact(*self, t, (#[trigger] rows@[t])@),
                decreases n - i,
            {
                let w = self.compute_neighborhood_sizes(i);
                rows.push(w);
                i += 1;
            }
            let ghost rowsg = rows@;
            self.neighborhood_sizes = Some(rows);
            proof {
                assert(self.adjs() =~= old(self).adjs());
                Self::lemma_wf_caches(*old(self), *self);
                assert(self.wf());
            }
        }
        let rows = match &self.neighborhood_sizes {
            Some(rows) => rows,
            None => unreached(),
        };
        // Return a fresh copy of the cached rows.
        let mut r: Vec<Vec<usize>> = Vec::new();
        let mut i: usize = 0;
        while i < rows.len()
            invariant
                rows@.len() == self.n(),
                self.wf(),
                self.same_core(*old(self)),
                self.neighborhood_sizes == Some(*rows),
                self.eccentricities == old(self).eccentricities,
                self.diameter == old(self).diameter,
                forall|t: int| 0 <= t < rows@.len() ==> self.nbh_ok(t, (#[trigger] rows@[t])@),
                old(self).neighborhood_sizes is None ==> forall|t: int|
                    0 <= t < rows@.len() ==> nbh_exact(*old(self), t, (#[trigger] rows@[t])@),
                i <= rows@.len(),
                r@.len() == i,
                forall|t: int| 0 <= t < i ==> (#[trigger] r@[t])@ == rows@[t]@,
            decreases rows@.len() - i,
        {
            let row = &rows[i];
            let mut c: Vec<usize> = Vec::new();
            let mut t: usize = 0;
            while t < row.len()
                invariant
                    t <= row@.len(),
                    c@.len() == t,
                    forall|u: int| 0 <= u < t ==> (#[trigger] c@[u]) == row@[u],
                decreases row@.len() - t,
            {
                c.push(row[t]);
                t += 1;
            }
            proof {
                assert(c@ =~= row@);
            }
            r.push(c);
            i += 1;
        }
        proof {
            assert forall|t: int| 0 <= t < r@.len() implies old(self).nbh_ok(
                t,
                (#[trigger] r@[t])@,
            ) by {
                assert(r@[t]@ == rows@[t]@);
                assert(self.nbh_ok(t, rows@[t]@));
                assert(self.adjs() =~= old(self).adjs());
            }
        }
        r
    }

    /// The persistent fields of the component are unchanged.
    pub open spec fn same_core(self, other: Component) -> bool {
        &&& self.clusters@ == other.clusters@
        &&& self.adjacency_list@ == other.adjacency_list@
        &&& self.population == other.population
        &&& self.accumulated_cp_car_ratios@ == other.accumulated_cp_car_ratios@
        &&& self.anomaly_properties@ == other.anomaly_properties@
    }

    /// Lazily computes and caches the eccentricity of every member: the
    /// number of members of its connected piece.
    pub fn compute_eccentricities(&mut self)
        requires
            old(self).wf(),
            old(self).n() * old(self).n() <= usize::MAX,
        ensures
            final(self).wf(),
            final(self).same_core(*old(self)),
            final(self).eccentricities is Some,
            final(self).diameter == old(self).diameter,
    {
        let rows = self.neighborhood_sizes();
        proof {
            assert(self.adjs() =~= old(self).adjs());
        }
        let n = self.clusters.len();
        let mut e: Vec<usize> = Vec::new();
        let mut i: usize = 0;
        while i < n
            invariant
                self.wf(),
                n == self.n(),
                rows@.len() == n,
                forall|t: int| 0 <= t < n ==> self.nbh_ok(t, (#[trigger] rows@[t])@),
                i <= n,
                e@.len() == i,
                forall|t: int|
                    0 <= t < i ==> ((#[trigger] e@[t]) as int) == reach_set(self.adjs(), t).len(),
                self.same_core(*old(self)),
                self.neighborhood_sizes is Some,
                self.diameter == old(self).diameter,
            decreases n - i,
        {
            proof {
                assert(self.nbh_ok(i as int, rows@[i as int]@));
            }
            e.push(rows[i].len());
            i += 1;
        }
        let ghost eg = e@;
        self.eccentricities = Some(e);
        proof {
            assert(self.adjs() =~= old(self).adjs());
            Self::lemma_wf_caches(*old(self), *self);
            assert(self.wf());
        }
    }

    /// The diameter of the component: the largest eccentricity of any
    /// member, computed lazily and cached.
    #[verifier::rlimit(100)]
    pub fn diameter(&mut self) -> (r: usize)
        requires
            old(self).wf(),
            old(self).n() * old(self).n() <= usize::MAX,
        ensures
            final(self).wf(),
            final(self).same_core(*old(self)),
            final(self).diameter == Some(r),
            (final(self).n() == 0 && r == 0) || ((exists|i: int|
                0 <= i < final(self).n() && r as int == (#[trigger] reach_set(
                    final(self).adjs(),
                    i,
                )).len()) && forall|i: int|
                0 <= i < final(self).n() ==> (#[trigger] reach_set(final(self).adjs(), i)).len()
                    <= r as int),
    {
        match self.diameter {
            Some(d) => {
                proof {
                    assert(self.same_core(*old(self)));
                }
                d
            },
            None => {
                if self.eccentricities.is_none() {
                    self.compute_eccentricities();
                }
                let e = match &self.eccentricities {
                    Some(e) => e,
                    None => unreached(),
                };
                let n = e.len();
                let mut best: usize = 0;
                let mut i: usize = 0;
                while i < n
                    invariant
                        self.wf(),
                        self.eccentricities == Some(*e),
                        e@.len() == n,
                        n == self.n(),
                        i <= n,
                        best == 0 || exists|t: int|
                            0 <= t < i && best as int == (#[trigger] reach_set(
                                self.adjs(),
                                t,
                            )).len(),
                        forall|t: int|
                            0 <= t < i ==> (#[trigger] reach_set(self.adjs(), t)).len()
                                <= best as int,
                    decreases n - i,
                {
                    let v = e[i];
                    proof {
                        assert((e@[i as int] as int) == reach_set(self.adjs(), i as int).len());
                    }
                    if v > best {
                        best = v;
                        proof {
                            assert(best as int == reach_set(self.adjs(), i as int).len());
                        }
                    }
                    i += 1;
                }
                proof {
                    if n > 0 && best == 0 {
                        assert(reaches_in(self.adjs(), 0, 0, 0));
                        assert(reach_set(self.adjs(), 0).contains(0));
                        lemma_reach_set_finite(self.adjs(), 0);
                        if reach_set(self.adjs(), 0).len() == 0 {
                            assert(reach_set(self.adjs(), 0) =~= Set::<int>::empty()) by {
                                reach_set(self.adjs(), 0).lemma_len0_is_empty();
                            }
                        }
                        assert(reach_set(self.adjs(), 0).len() >= 1);
                        assert(false);
                    }
                }
                self.diameter = Some(best);
                proof {
                    assert(self.adjs() =~= old(self).adjs());
                    Self::lemma_wf_caches(*old(self), *self);
                    assert(self.wf());
                }
                best
            },
        }
    }
}


/// The total population of the first `t` components.
pub open spec fn prefix_pop(comps: Seq<Component>, t: int) -> int
    decreases t,
{
    if t <= 0 {
        0
    } else {
        prefix_pop(comps, t - 1) + comps[t - 1].population
    }
}

/// The total member count of the first `t` components.
pub open spec fn prefix_n(comps: Seq<Component>, t: int) -> int
    decreases t,
{
    if t <= 0 {
        0
    } else {
        prefix_n(comps, t - 1) + comps[t - 1].n()
    }
}

/// The identity keys of a cluster collection.
pub open spec fn keys_of(s: Seq<Cluster>) -> Seq<(usize, usize)> {
    s.map_values(|c: Cluster| (c.offset, c.cardinality))
}


/// Two cluster collections that agree on a prefix have equal prefix sums.
proof fn lemma_cluster_sum_prefix_eq(a: Seq<Cluster>, b: Seq<Cluster>, t: int)
    requires
        t <= a.len(),
        t <= b.len(),
        forall|u: int| 0 <= u < t ==> a[u] == b[u],
    ensures
        crate::graph::sum_cardinalities_upto(a, t) == crate::graph::sum_cardinalities_upto(b, t),
    decreases t,
{
    if t > 0 {
        lemma_cluster_sum_prefix_eq(a, b, t - 1);
    }
}

/// Two component collections that agree on a prefix have equal prefix
/// populations and member counts.
proof fn lemma_prefix_eq(a: Seq<Component>, b: Seq<Component>, t: int)
    requires
        t <= a.len(),
        t <= b.len(),
        forall|u: int| 0 <= u < t ==> a[u] == b[u],
    ensures
        prefix_pop(a, t) == prefix_pop(b, t),
        prefix_n(a, t) == prefix_n(b, t),
    decreases t,
{
    if t > 0 {
        lemma_prefix_eq(a, b, t - 1);
    }
}

/// Removing one cluster removes its cardinality from the sum.
proof fn lemma_sum_remove(s: Seq<Cluster>, w: int)
    requires
        0 <= w < s.len(),
    ensures
        sum_cardinalities_of(s.remove(w)) + s[w].cardinality == sum_cardinalities_of(s),
    decreases s.len(),
{
    let q = s.remove(w);
    if w == s.len() - 1 {
        assert(q =~= s.drop_last());
        lemma_cluster_sum_prefix_eq(q, s, w);
    } else {
        lemma_sum_remove(s.drop_last(), w);
        assert(q.drop_last() =~= s.drop_last().remove(w));
        assert(q[q.len() - 1] == s[s.len() - 1]);
        lemma_cluster_sum_prefix_eq(q, q.drop_last(), q.len() - 1);
        lemma_cluster_sum_prefix_eq(s, s.drop_last(), s.len() - 1);
    }
}

/// A duplicate-free selection out of a duplicate-free collection covers at
/// most the whole collection's population.
pub proof fn lemma_subset_sum(r: Seq<Cluster>, s: Seq<Cluster>)
    requires
        distinct_keys(r),
        distinct_keys(s),
        all_wf(r),
        forall|t: int| 0 <= t < r.len() ==> s.contains(#[trigger] r[t]),
    ensures
        sum_cardinalities_of(r) <= sum_cardinalities_of(s),
        0 <= sum_cardinalities_of(s),
    decreases r.len(),
{
    crate::graph::lemma_sum_cardinalities_mono(s, 0);
    if r.len() > 0 {
        let x = r.last();
        assert(s.contains(x));
        let w = choose|w: int| 0 <= w < s.len() && s[w] == x;
        let s2 = s.remove(w);
        assert(distinct_keys(s2)) by {
            assert forall|a: int, b: int| 0 <= a < b < s2.len() implies !(#[trigger] s2[a]).same_key(
                #[trigger] s2[b],
            ) by {
                let a0 = if a < w {
                    a
                } else {
                    a + 1
                };
                let b0 = if b < w {
                    b
                } else {
                    b + 1
                };
                assert(s2[a] == s[a0] && s2[b] == s[b0]);
                assert(!s[a0].same_key(s[b0]));
            }
        }
        let rp = r.drop_last();
        assert forall|t: int| 0 <= t < rp.len() implies s2.contains(#[trigger] rp[t]) by {
            assert(r[t] == rp[t]);
            assert(s.contains(r[t]));
            let w2 = choose|w2: int| 0 <= w2 < s.len() && s[w2] == r[t];
            if w2 == w {
                assert(r[t] == x);
                assert(r[t].same_key(x));
                assert(!r[t].same_key(r[r.len() - 1]));
            } else if w2 < w {
                assert(s2[w2] == s[w2]);
                assert(s2.contains(rp[t]));
            } else {
                assert(s2[w2 - 1] == s[w2]);
                assert(s2.contains(rp[t]));
            }
        }
        lemma_subset_sum(rp, s2);
        lemma_sum_remove(s, w);
        assert(sum_cardinalities_of(r) == sum_cardinalities_of(rp) + x.cardinality) by {
            assert(r.drop_last() =~= rp);
            lemma_cluster_sum_prefix_eq(r, rp, r.len() - 1);
        }
        assert(r[r.len() - 1].wf());
    }
}

/// The cluster is eligible for score-driven selection: a leaf, or at
/// least as deep as the configured minimum.
pub open spec fn eligible(c: Cluster, min_depth: usize) -> bool {
    c.is_leaf || c.depth >= min_depth
}

/// Member `u` names a subtree cluster by its identity key.
pub open spec fn member_from_subtree(
    subtree: Seq<Cluster>,
    members: Seq<(usize, usize)>,
    u: int,
) -> bool {
    exists|w: int|
        0 <= w < subtree.len() && members[u] == (
        (#[trigger] subtree[w]).offset,
        subtree[w].cardinality,
    )
}

/// What the tree-to-graph builder guarantees of a built graph: a
/// well-formed decomposition into connected components, whose members are
/// drawn, by identity key and in offset order, from an antichain of
/// eligible subtree clusters that accounts for every eligible cluster.
pub open spec fn from_tree_post(
    subtree: Seq<Cluster>,
    min_depth: usize,
    data: VecDataset,
    g: Graph,
) -> bool {
    &&& g.wf()
    &&& g.all_connected()
    &&& forall|c: int|
        0 <= c < g.components@.len() ==> adjacency_matches(
            #[trigger] g.components@[c],
            subtree,
            data,
        )
    &&& forall|u1: int, u2: int|
        0 <= u1 < u2 < g.members@.len() ==> (#[trigger] g.members@[u1]).0 <= (
        #[trigger] g.members@[u2]).0
    &&& forall|u: int|
        0 <= u < g.members@.len() ==> #[trigger] member_from_subtree(subtree, g.members@, u)
    &&& forall|u: int, w: int|
        0 <= u < g.members@.len() && 0 <= w < subtree.len() && (#[trigger] g.members@[u]) == ((
        #[trigger] subtree[w]).offset, subtree[w].cardinality) ==> eligible(subtree[w], min_depth)
    &&& forall|u1: int, u2: int, w1: int, w2: int|
        0 <= u1 < g.members@.len() && 0 <= u2 < g.members@.len() && u1 != u2 && 0 <= w1
            < subtree.len() && 0 <= w2 < subtree.len() && (#[trigger] g.members@[u1]) == ((
        #[trigger] subtree[w1]).offset, subtree[w1].cardinality) && (#[trigger] g.members@[u2])
            == ((#[trigger] subtree[w2]).offset, subtree[w2].cardinality) ==> !subtree[w1].related(
            subtree[w2],
        )
    &&& forall|t: int|
        0 <= t < subtree.len() && eligible(#[trigger] subtree[t], min_depth) ==> selection_covers(
            subtree,
            g.members@,
            t,
        )
}

/// The subtree cluster at `t` is accounted for by the selection the
/// members name: some member's source cluster is it, or stands above or
/// below it in the tree.
pub open spec fn selection_covers(
    subtree: Seq<Cluster>,
    members: Seq<(usize, usize)>,
    t: int,
) -> bool {
    exists|u: int, w: int|
        0 <= u < members.len() && 0 <= w < subtree.len() && (#[trigger] members[u]) == (
        (#[trigger] subtree[w]).offset,
        subtree[w].cardinality,
        ) && (subtree[t].same_key(subtree[w]) || subtree[t].related(subtree[w]))
}

/// The compact, component-based view of the proximity graph.
#[derive(Debug)]
pub struct Graph {
    /// The connected components of the graph.
    pub components: Vec<Component>,
    /// Cumulative populations of the components.
    pub populations: Vec<usize>,
    /// The identity keys of the graph's members.
    pub members: Vec<(usize, usize)>,
}

impl Graph {
    /// The structural invariant of the compact graph.
    pub open spec fn wf(self) -> bool {
        &&& self.components@.len() == self.populations@.len()
        &&& forall|c: int|
            0 <= c < self.components@.len() ==> (#[trigger] self.components@[c]).wf()
        &&& forall|c: int|
            0 <= c < self.populations@.len() ==> ((#[trigger] self.populations@[c]) as int)
                == prefix_pop(self.components@, c + 1)
        &&& prefix_n(self.components@, self.components@.len() as int) <= usize::MAX
    }

    /// Every component is a non-empty connected subgraph.
    pub open spec fn all_connected(self) -> bool {
        forall|c: int|
            0 <= c < self.components@.len() ==> (#[trigger] self.components@[c]).connected()
                && self.components@[c].n() >= 1
    }

    /// Builds the compact graph from a selected cluster collection: one
    /// all-pairs overlap test, then repeated splitting into connected
    /// components.
    #[verifier::rlimit(100)]
    pub fn from_clusters(clusters: &Vec<Cluster>, data: &VecDataset) -> (r: Graph)
        requires
            data.wf(),
            all_wf(clusters@),
            distinct_keys(clusters@),
            clusters@.len() >= 1,
            sum_cardinalities_of(clusters@) <= usize::MAX,
            forall|t: int| 0 <= t < clusters@.len() ==> valid_for(#[trigger] clusters@[t], *data),
        ensures
            r.wf(),
            r.all_connected(),
            r.members@ == keys_of(clusters@),
            r.components@.len() >= 1,
            prefix_n(r.components@, r.components@.len() as int) == clusters@.len(),
            prefix_pop(r.components@, r.components@.len() as int) == sum_triple_card(
                triples_of(clusters@),
            ),
            crate::flatten::concat_triples(r.components@).to_multiset() == triples_of(
                clusters@,
            ).to_multiset(),
            forall|c: int, t: int|
                0 <= c < r.components@.len() && 0 <= t < r.components@[c].n() ==> triples_of(
                    clusters@,
                ).contains((#[trigger] r.components@[c].clusters@[t])),
            forall|c: int|
                0 <= c < r.components@.len() ==> adjacency_matches(
                    #[trigger] r.components@[c],
                    clusters@,
                    *data,
                ),
    {
        broadcast use vstd::seq_lib::lemma_multiset_commutative;

        let whole = Component::new(clusters, data);
        let ghost all_triples = triples_of(clusters@);
        let (first, mut other) = whole.partition();
        let mut components: Vec<Component> = Vec::new();
        proof {
            lemma_seq_contains_selected(whole.clusters@, all_triples);
        }
        proof {
            let keep = reach_set(whole.adjs(), 0);
            let ks = positions_where(whole.n() as nat, keep);
            let us = positions_where(whole.n() as nat, keep.complement());
            lemma_positions_where_props(whole.n() as nat, keep);
            lemma_positions_where_props(whole.n() as nat, keep.complement());
            assert forall|t: int| 0 <= t < first.n() implies all_triples.contains(
                (#[trigger] first.clusters@[t]),
            ) by {
                assert(first.clusters@[t] == whole.clusters@[ks[t]]);
                assert(whole.clusters@ == all_triples);
            }
            assert forall|t: int| 0 <= t < other.n() implies all_triples.contains(
                (#[trigger] other.clusters@[t]),
            ) by {
                assert(other.clusters@[t] == whole.clusters@[us[t]]);
                assert(whole.clusters@ == all_triples);
            }
            lemma_positions_partition_multiset(whole.clusters@, whole.n() as nat, keep);
            assert(whole.clusters@.take(whole.n() as int) =~= whole.clusters@);
            assert(first.clusters@ =~= sel(whole.clusters@, ks));
            assert(other.clusters@ =~= sel(whole.clusters@, us));
            assert(first.clusters@.to_multiset().add(other.clusters@.to_multiset())
                =~= all_triples.to_multiset());
            // Both parts keep the overlap relation of the inputs.
            lemma_matches_exact(whole, clusters@, *data);
            assert forall|a: int|
                0 <= a < ks.len() implies (#[trigger] first.clusters@[a])
                == whole.clusters@[ks[a]] by {
                assert(first.clusters@[a] == sel(whole.clusters@, ks)[a]);
            }
            assert forall|a: int|
                0 <= a < us.len() implies (#[trigger] other.clusters@[a])
                == whole.clusters@[us[a]] by {
                assert(other.clusters@[a] == sel(whole.clusters@, us)[a]);
            }
            lemma_matches_sel(whole, first, ks, clusters@, *data);
            lemma_matches_sel(whole, other, us, clusters@, *data);
        }
        components.push(first);
        proof {
            assert(crate::flatten::concat_triples(components@) =~= first.clusters@) by {
                assert(components@.drop_last() =~= Seq::<Component>::empty());
                assert(crate::flatten::concat_triples(Seq::<Component>::empty()) =~= Seq::<
                    (usize, usize, usize),
                >::empty());
                assert(Seq::<(usize, usize, usize)>::empty() + first.clusters@
                    =~= first.clusters@);
            }
            assert(crate::flatten::concat_triples(components@).to_multiset()
                == first.clusters@.to_multiset());
            assert(first.clusters@.to_multiset().add(other.clusters@.to_multiset())
                =~= all_triples.to_multiset());
            assert(crate::flatten::concat_triples(components@).to_multiset().add(
                other.clusters@.to_multiset(),
            ) == all_triples.to_multiset());
            assert(prefix_pop(components@, 0) == 0);
            assert(prefix_n(components@, 0) == 0);
            assert(prefix_pop(components@, 1) == first.population);
            assert(prefix_n(components@, 1) == first.n());
        }
        while other.clusters.len() > 0
            invariant
                other.wf(),
                forall|c: int|
                    0 <= c < components@.len() ==> (#[trigger] components@[c]).wf()
                        && components@[c].connected() && components@[c].n() >= 1,
                prefix_pop(components@, components@.len() as int) + other.population
                    == sum_triple_card(all_triples),
                prefix_n(components@, components@.len() as int) + other.n() == clusters@.len(),
                forall|c: int, t: int|
                    0 <= c < components@.len() && 0 <= t < components@[c].n()
                        ==> all_triples.contains((#[trigger] components@[c].clusters@[t])),
                forall|t: int|
                    0 <= t < other.n() ==> all_triples.contains((#[trigger] other.clusters@[t])),
                crate::flatten::concat_triples(components@).to_multiset().add(
                    other.clusters@.to_multiset(),
                ) == all_triples.to_multiset(),
                forall|c: int|
                    0 <= c < components@.len() ==> adjacency_matches(
                        #[trigger] components@[c],
                        clusters@,
                        *data,
                    ),
                adjacency_matches(other, clusters@, *data),
                components@.len() >= 1,
            decreases other.n(),
        {
            let ghost comps0 = components@;
            let ghost prev = other;
            let (nc, rest) = other.partition();
            components.push(nc);
            other = rest;
            proof {
                assert(components@.drop_last() =~= comps0);
                lemma_prefix_eq(components@, comps0, comps0.len() as int);
                assert(prefix_pop(components@, components@.len() as int) == prefix_pop(
                    comps0,
                    comps0.len() as int,
                ) + nc.population);
                assert(prefix_n(components@, components@.len() as int) == prefix_n(
                    comps0,
                    comps0.len() as int,
                ) + nc.n());
                let keep = reach_set(prev.adjs(), 0);
                let ks = positions_where(prev.n() as nat, keep);
                let us = positions_where(prev.n() as nat, keep.complement());
                lemma_positions_where_props(prev.n() as nat, keep);
                lemma_positions_where_props(prev.n() as nat, keep.complement());
                assert forall|t: int| 0 <= t < nc.n() implies all_triples.contains(
                    (#[trigger] nc.clusters@[t]),
                ) by {
                    assert(nc.clusters@[t] == prev.clusters@[ks[t]]);
                }
                assert forall|t: int| 0 <= t < other.n() implies all_triples.contains(
                    (#[trigger] other.clusters@[t]),
                ) by {
                    assert(other.clusters@[t] == prev.clusters@[us[t]]);
                }
                // The component records keep their multiset through the
                // split.
                lemma_positions_partition_multiset(prev.clusters@, prev.n() as nat, keep);
                assert(prev.clusters@.take(prev.n() as int) =~= prev.clusters@);
                assert(nc.clusters@ =~= sel(prev.clusters@, ks));
                assert(other.clusters@ =~= sel(prev.clusters@, us));
                assert(nc.clusters@.to_multiset().add(other.clusters@.to_multiset())
                    =~= prev.clusters@.to_multiset());
                assert forall|a: int|
                    0 <= a < ks.len() implies (#[trigger] nc.clusters@[a])
                    == prev.clusters@[ks[a]] by {
                    assert(nc.clusters@[a] == sel(prev.clusters@, ks)[a]);
                }
                assert forall|a: int|
                    0 <= a < us.len() implies (#[trigger] other.clusters@[a])
                    == prev.clusters@[us[a]] by {
                    assert(other.clusters@[a] == sel(prev.clusters@, us)[a]);
                }
                lemma_matches_sel(prev, nc, ks, clusters@, *data);
                lemma_matches_sel(prev, other, us, clusters@, *data);
                assert(crate::flatten::concat_triples(components@) =~= crate::flatten::concat_triples(
                    comps0,
                ) + nc.clusters@);
                vstd::seq_lib::lemma_multiset_commutative(
                    crate::flatten::concat_triples(comps0),
                    nc.clusters@,
                );
                assert((crate::flatten::concat_triples(comps0) + nc.clusters@).to_multiset()
                    == crate::flatten::concat_triples(comps0).to_multiset().add(
                    nc.clusters@.to_multiset(),
                ));
                assert(crate::flatten::concat_triples(components@).to_multiset()
                    == crate::flatten::concat_triples(comps0).to_multiset().add(
                    nc.clusters@.to_multiset(),
                ));
                assert(crate::flatten::concat_triples(components@).to_multiset().add(
                    other.clusters@.to_multiset(),
                ) == all_triples.to_multiset()) by {
                    let a = crate::flatten::concat_triples(comps0).to_multiset();
                    let b = nc.clusters@.to_multiset();
                    let c2 = other.clusters@.to_multiset();
                    assert(a.add(b).add(c2) =~= a.add(b.add(c2)));
                    assert(b.add(c2) == prev.clusters@.to_multiset());
                }
            }
        }
        proof {
            assert(other.clusters@.to_multiset() =~= vstd::multiset::Multiset::<
                (usize, usize, usize),
            >::empty()) by {
                other.clusters@.to_multiset_ensures();
            }
            assert(crate::flatten::concat_triples(components@).to_multiset()
                =~= all_triples.to_multiset());
        }
        // Cumulative populations.
        let n_comps = components.len();
        let mut populations: Vec<usize> = Vec::new();
        let mut acc: usize = 0;
        let mut c: usize = 0;
        proof {
            lemma_prefix_pop_bounds(components@, 0, n_comps as int);
            assert(other.population as int == sum_triple_card(other.clusters@));
            lemma_sum_triple_card_nonneg_pub(other.clusters@);
        }
        while c < n_comps
            invariant
                n_comps == components@.len(),
                c <= n_comps,
                populations@.len() == c,
                acc as int == prefix_pop(components@, c as int),
                prefix_pop(components@, n_comps as int) <= usize::MAX,
                forall|t: int|
                    0 <= t < c ==> ((#[trigger] populations@[t]) as int) == prefix_pop(
                        components@,
                        t + 1,
                    ),
                forall|t: int| 0 <= t < n_comps ==> (#[trigger] components@[t]).wf(),
            decreases n_comps - c,
        {
            proof {
                lemma_prefix_pop_bounds(components@, c + 1, n_comps as int);
            }
            acc = acc + components[c].population;
            populations.push(acc);
            c += 1;
        }
        // Member keys.
        let mut members: Vec<(usize, usize)> = Vec::new();
        let mut t: usize = 0;
        while t < clusters.len()
            invariant
                t <= clusters@.len(),
                members@.len() == t,
                forall|u: int| 0 <= u < t ==> (#[trigger] members@[u]) == keys_of(clusters@)[u],
            decreases clusters@.len() - t,
        {
            let cl = clusters[t];
            members.push((cl.offset, cl.cardinality));
            t += 1;
        }
        proof {
            assert(members@ =~= keys_of(clusters@));
        }
        Graph { components, populations, members }
    }

    /// Builds the compact graph from a scored subtree: the eligible
    /// clusters are ranked, a greedy antichain is extracted and ordered by
    /// tree offset, and the graph is built over it.  An empty selection
    /// yields no graph.
    #[verifier::rlimit(100)]
    pub fn from_tree(
        subtree: &Vec<Cluster>,
        scores: &Vec<u64>,
        min_depth: usize,
        data: &VecDataset,
    ) -> (r: Option<Graph>)
        requires
            data.wf(),
            all_wf(subtree@),
            distinct_keys(subtree@),
            scores@.len() == subtree@.len(),
            sum_cardinalities_of(subtree@) <= usize::MAX,
            forall|t: int| 0 <= t < subtree@.len() ==> valid_for(#[trigger] subtree@[t], *data),
        ensures
            match r {
                Option::Some(g) => from_tree_post(subtree@, min_depth, *data, g),
                Option::None => true,
            },
            (exists|t: int|
                0 <= t < subtree@.len() && eligible(#[trigger] subtree@[t], min_depth)) ==> r
                is Some,
    {

        // Keep the clusters eligible for selection: leaves, and clusters
        // at or below the configured minimum depth.
        let (cands, cscores) = Self::eligible_candidates(subtree, scores, min_depth, data);
        Self::select_and_build(cands, cscores, min_depth, data, Ghost(subtree@))
    }

    /// Ranks the candidates, extracts the greedy antichain, and builds the
    /// graph over it; an empty selection yields no graph.
    #[verifier::rlimit(100)]
    fn select_and_build(
        cands: Vec<Cluster>,
        cscores: Vec<u64>,
        min_depth: usize,
        data: &VecDataset,
        Ghost(subtree): Ghost<Seq<Cluster>>,
    ) -> (r: Option<Graph>)
        requires
            data.wf(),
            all_wf(subtree),
            distinct_keys(subtree),
            sum_cardinalities_of(subtree) <= usize::MAX,
            forall|t: int| 0 <= t < subtree.len() ==> valid_for(#[trigger] subtree[t], *data),
            cscores@.len() == cands@.len(),
            all_wf(cands@),
            distinct_keys(cands@),
            forall|u: int| 0 <= u < cands@.len() ==> subtree.contains(#[trigger] cands@[u]),
            forall|u: int| 0 <= u < cands@.len() ==> valid_for(#[trigger] cands@[u], *data),
            forall|u: int| 0 <= u < cands@.len() ==> eligible(#[trigger] cands@[u], min_depth),
            forall|w: int|
                0 <= w < subtree.len() && eligible(#[trigger] subtree[w], min_depth) ==> exists|
                    u: int,
                |
                    0 <= u < cands@.len() && (#[trigger] cands@[u]) == subtree[w],
        ensures
            match r {
                Option::Some(g) => from_tree_post(subtree, min_depth, *data, g),
                Option::None => true,
            },
            (exists|t: int|
                0 <= t < subtree.len() && eligible(#[trigger] subtree[t], min_depth)) ==> r
                is Some,
    {
        let ghost cands0 = cands@;
        let (selected, wrappers_g) = Self::rank_and_pick(cands, cscores);
        let ghost wrappers = wrappers_g@;
        if selected.len() == 0 {
            proof {
                // An empty selection means there was nothing eligible: the
                // selector covers every candidate it was handed.
                assert(wrappers.len() == cands0.len());
                if cands0.len() > 0 {
                    assert(crate::builder::covered_by(wrappers[0].cluster, selected@));
                    assert(false);
                }
                Self::lemma_nothing_eligible(subtree, cands0, min_depth);
            }
            return None;
        }
        let g = Self::from_selection(
            selected,
            data,
            min_depth,
            Ghost(subtree),
            Ghost(cands0),
            Ghost(cscores@),
            Ghost(wrappers),
        );
        Some(g)
    }

    /// Ranks the candidates by score and extracts the greedy antichain,
    /// handing back the ranked queue as a ghost witness.
    #[verifier::rlimit(100)]
    fn rank_and_pick(cands: Vec<Cluster>, cscores: Vec<u64>) -> (r: (
        Vec<Cluster>,
        Ghost<Seq<crate::builder::ClusterWrapper>>,
    ))
        requires
            cscores@.len() == cands@.len(),
            all_wf(cands@),
            distinct_keys(cands@),
        ensures
            r.1@.len() == cands@.len(),
            r.1@.to_multiset() == crate::builder::wrapped(cands@, cscores@).to_multiset(),
            forall|i: int|
                0 <= i < r.1@.len() ==> crate::builder::covered_by(
                    (#[trigger] r.1@[i]).cluster,
                    r.0@,
                ),
            all_wf(r.0@),
            distinct_keys(r.0@),
            forall|u: int| 0 <= u < r.0@.len() ==> cands@.contains(#[trigger] r.0@[u]),
            forall|a: int, b: int|
                0 <= a < r.0@.len() && 0 <= b < r.0@.len() && a != b ==> !(#[trigger] r.0@[a])
                    .related(#[trigger] r.0@[b]),
    {
        // Rank and greedily select an antichain.
        let wrappers = crate::builder::score_clusters(&cands, &cscores);
        proof {
            crate::builder::lemma_wrapper_multiset_keys(
                wrappers@,
                crate::builder::wrapped(cands@, cscores@),
            );
            assert(crate::builder::clusters_of(crate::builder::wrapped(cands@, cscores@))
                =~= cands@);
        }
        let ghost wg = wrappers@;
        let selected = crate::builder::get_clusterset(wrappers);
        proof {
            Self::lemma_selected_in_cands(cands@, cscores@, wg, selected@);
        }
        (selected, Ghost(wg))
    }

    /// Collects the clusters eligible for selection, with their scores:
    /// the leaves, and the clusters at or below the configured minimum
    /// depth.
    #[verifier::rlimit(100)]
    fn eligible_candidates(
        subtree: &Vec<Cluster>,
        scores: &Vec<u64>,
        min_depth: usize,
        data: &VecDataset,
    ) -> (r: (Vec<Cluster>, Vec<u64>))
        requires
            all_wf(subtree@),
            distinct_keys(subtree@),
            scores@.len() == subtree@.len(),
            forall|t: int| 0 <= t < subtree@.len() ==> valid_for(#[trigger] subtree@[t], *data),
        ensures
            r.0@.len() == r.1@.len(),
            all_wf(r.0@),
            distinct_keys(r.0@),
            forall|u: int| 0 <= u < r.0@.len() ==> subtree@.contains(#[trigger] r.0@[u]),
            forall|u: int| 0 <= u < r.0@.len() ==> valid_for(#[trigger] r.0@[u], *data),
            forall|u: int| 0 <= u < r.0@.len() ==> eligible(#[trigger] r.0@[u], min_depth),
            forall|w: int|
                0 <= w < subtree@.len() && eligible(#[trigger] subtree@[w], min_depth) ==> exists|
                    u: int,
                |
                    0 <= u < r.0@.len() && (#[trigger] r.0@[u]) == subtree@[w],
    {
        let mut cands: Vec<Cluster> = Vec::new();
        let mut cscores: Vec<u64> = Vec::new();
        let ghost mut srcs: Seq<int> = Seq::empty();
        let mut t: usize = 0;
        while t < subtree.len()
            invariant
                subtree@.len() == scores@.len(),
                t <= subtree@.len(),
                cands@.len() == cscores@.len(),
                srcs.len() == cands@.len(),
                forall|u: int| 0 <= u < srcs.len() ==> 0 <= #[trigger] srcs[u] < t,
                forall|u1: int, u2: int| 0 <= u1 < u2 < srcs.len() ==> srcs[u1] < srcs[u2],
                forall|u: int| 0 <= u < cands@.len() ==> (#[trigger] cands@[u]) == subtree@[srcs[u]],
                forall|u: int|
                    0 <= u < cands@.len() ==> eligible(#[trigger] cands@[u], min_depth),
                forall|w: int|
                    0 <= w < t && eligible(#[trigger] subtree@[w], min_depth) ==> exists|u: int|
                        0 <= u < cands@.len() && (#[trigger] cands@[u]) == subtree@[w],
            decreases subtree@.len() - t,
        {
            let cl = subtree[t];
            let ghost cands0 = cands@;
            if cl.is_leaf || cl.depth >= min_depth {
                cands.push(cl);
                cscores.push(scores[t]);
                proof {
                    srcs = srcs.push(t as int);
                }
            }
            proof {
                assert forall|w: int|
                    0 <= w < t + 1 && eligible(#[trigger] subtree@[w], min_depth) implies exists|
                    u: int,
                |
                    0 <= u < cands@.len() && (#[trigger] cands@[u]) == subtree@[w] by {
                    if w < t as int {
                        let u = choose|u: int|
                            0 <= u < cands0.len() && (#[trigger] cands0[u]) == subtree@[w];
                        assert(cands@[u] == subtree@[w]);
                    } else {
                        assert(cands@[cands@.len() - 1] == subtree@[w]);
                    }
                }
            }
            t += 1;
        }
        proof {
            Self::lemma_cands_facts(subtree@, cands@, srcs, *data, min_depth);
        }
        (cands, cscores)
    }

    /// With no candidate collected, the subtree held nothing eligible.
    proof fn lemma_nothing_eligible(subtree: Seq<Cluster>, cands: Seq<Cluster>, min_depth: usize)
        requires
            cands.len() == 0,
            forall|w: int|
                0 <= w < subtree.len() && eligible(#[trigger] subtree[w], min_depth) ==> exists|
                    u: int,
                |
                    0 <= u < cands.len() && (#[trigger] cands[u]) == subtree[w],
        ensures
            forall|t: int| 0 <= t < subtree.len() ==> !eligible(#[trigger] subtree[t], min_depth),
    {
        assert forall|t: int|
            0 <= t < subtree.len() implies !eligible(#[trigger] subtree[t], min_depth) by {
            if eligible(subtree[t], min_depth) {
                let u = choose|u: int| 0 <= u < cands.len() && (#[trigger] cands[u]) == subtree[t];
            }
        }
    }

    /// Builds the graph over a non-empty selection drawn from the scored
    /// candidates: the selection is ordered by tree offset and handed to
    /// the component decomposition.
    #[verifier::rlimit(100)]
    fn from_selection(
        selected: Vec<Cluster>,
        data: &VecDataset,
        min_depth: usize,
        Ghost(subtree): Ghost<Seq<Cluster>>,
        Ghost(cands): Ghost<Seq<Cluster>>,
        Ghost(cscores): Ghost<Seq<u64>>,
        Ghost(wrappers): Ghost<Seq<crate::builder::ClusterWrapper>>,
    ) -> (g: Graph)
        requires
            data.wf(),
            all_wf(subtree),
            distinct_keys(subtree),
            sum_cardinalities_of(subtree) <= usize::MAX,
            forall|t: int| 0 <= t < subtree.len() ==> valid_for(#[trigger] subtree[t], *data),
            all_wf(cands),
            distinct_keys(cands),
            forall|u: int| 0 <= u < cands.len() ==> subtree.contains(#[trigger] cands[u]),
            forall|u: int| 0 <= u < cands.len() ==> valid_for(#[trigger] cands[u], *data),
            forall|u: int| 0 <= u < cands.len() ==> eligible(#[trigger] cands[u], min_depth),
            forall|w: int|
                0 <= w < subtree.len() && eligible(#[trigger] subtree[w], min_depth) ==> exists|
                    u: int,
                |
                    0 <= u < cands.len() && (#[trigger] cands[u]) == subtree[w],
            cscores.len() == cands.len(),
            wrappers.to_multiset() == crate::builder::wrapped(cands, cscores).to_multiset(),
            forall|i: int|
                0 <= i < wrappers.len() ==> crate::builder::covered_by(
                    (#[trigger] wrappers[i]).cluster,
                    selected@,
                ),
            all_wf(selected@),
            distinct_keys(selected@),
            forall|u: int| 0 <= u < selected@.len() ==> cands.contains(#[trigger] selected@[u]),
            forall|a: int, b: int|
                0 <= a < selected@.len() && 0 <= b < selected@.len() && a != b ==> !(
                #[trigger] selected@[a]).related(#[trigger] selected@[b]),
            selected@.len() >= 1,
        ensures
            from_tree_post(subtree, min_depth, *data, g),
    {
        // Deterministic downstream order: sort the selection by offset.
        let ghost sel0 = selected@;
        let sorted = sort_by_offset(selected);
        proof {
            Self::lemma_sorted_chain(subtree, cands, sel0, sorted@, *data);
        }
        let g = Graph::from_clusters(&sorted, data);
        proof {
            // Each component's neighbor lists record the overlap relation
            // of the subtree clusters its members name.
            assert forall|c: int| 0 <= c < g.components@.len() implies adjacency_matches(
                #[trigger] g.components@[c],
                subtree,
                *data,
            ) by {
                lemma_matches_lift(g.components@[c], sorted@, subtree, *data);
            }
            Self::lemma_members_sorted(sorted@, g.members@);
            Self::lemma_from_tree_members(
                subtree,
                cands,
                sorted@,
                g.members@,
                min_depth,
            );
            Self::lemma_from_tree_antichain(subtree, sel0, sorted@, g.members@);
            Self::lemma_from_tree_coverage(
                subtree,
                cands,
                cscores,
                wrappers,
                sel0,
                sorted@,
                g.members@,
                min_depth,
            );
        }
        g
    }
}

/// Orders a duplicate-free cluster collection by tree offset, keeping the
/// collection itself: the result is a permutation holding the same
/// clusters.
#[verifier::rlimit(100)]
pub fn sort_by_offset(clusters: Vec<Cluster>) -> (r: Vec<Cluster>)
    requires
        all_wf(clusters@),
        distinct_keys(clusters@),
    ensures
        r@.len() == clusters@.len(),
        r@.to_multiset() == clusters@.to_multiset(),
        all_wf(r@),
        distinct_keys(r@),
        forall|u1: int, u2: int|
            0 <= u1 < u2 < r@.len() ==> (#[trigger] r@[u1]).offset <= (#[trigger] r@[u2]).offset,
        forall|u: int| 0 <= u < r@.len() ==> clusters@.contains(#[trigger] r@[u]),
        sum_cardinalities_of(r@) == sum_cardinalities_of(clusters@),
{
    broadcast use vstd::seq_lib::group_to_multiset_ensures;

    let ghost all = clusters@;
    let mut rem = clusters;
    let mut out: Vec<Cluster> = Vec::new();
    while rem.len() > 0
        invariant
            out@.to_multiset().add(rem@.to_multiset()) == all.to_multiset(),
            out@.len() + rem@.len() == all.len(),
            forall|u: int| 0 <= u < out@.len() ==> all.contains(#[trigger] out@[u]),
            forall|u: int| 0 <= u < rem@.len() ==> all.contains(#[trigger] rem@[u]),
            forall|u1: int, u2: int|
                0 <= u1 < u2 < out@.len() ==> (#[trigger] out@[u1]).offset <= (
                #[trigger] out@[u2]).offset,
            forall|a: int, b: int|
                0 <= a < out@.len() && 0 <= b < rem@.len() ==> (#[trigger] out@[a]).offset <= (
                #[trigger] rem@[b]).offset,
        decreases rem@.len(),
    {
        let mut best: usize = 0;
        let mut j: usize = 1;
        while j < rem.len()
            invariant
                best < j <= rem@.len(),
                forall|u: int|
                    0 <= u < j ==> (#[trigger] rem@[u]).offset >= rem@[best as int].offset,
            decreases rem@.len() - j,
        {
            if rem[j].offset < rem[best].offset {
                best = j;
            }
            j += 1;
        }
        let ghost rem0 = rem@;
        let w = rem.remove(best);
        let ghost out0 = out@;
        out.push(w);
        proof {
            assert(rem0[best as int] == w);
            assert(rem0.contains(w));
            rem0.to_multiset_ensures();
            out0.to_multiset_ensures();
            assert(rem@ == rem0.remove(best as int));
            assert(rem0.remove(best as int).to_multiset() =~= rem0.to_multiset().remove(w));
            assert(out@ == out0.push(w));
            assert(out0.push(w).to_multiset() =~= out0.to_multiset().insert(w));
            assert(out@.to_multiset().add(rem@.to_multiset()) =~= all.to_multiset());
            assert forall|a: int, b: int|
                0 <= a < out@.len() && 0 <= b < rem@.len() implies (#[trigger] out@[a]).offset <= (
            #[trigger] rem@[b]).offset by {
                if a < out0.len() {
                    assert(out@[a] == out0[a]);
                }
            }
            assert forall|u: int| 0 <= u < rem@.len() implies all.contains(#[trigger] rem@[u]) by {}
        }
    }
    proof {
        assert(rem@.to_multiset().len() == 0);
        assert(rem@.to_multiset() =~= vstd::multiset::Multiset::<Cluster>::empty());
        assert(out@.to_multiset() =~= all.to_multiset());
        lemma_cluster_multiset_keys(out@, all);
        assert forall|u: int| 0 <= u < all.len() implies out@.contains(#[trigger] all[u]) by {
            assert(all.to_multiset().contains(all[u]));
            assert(out@.to_multiset().contains(all[u]));
        }
        lemma_subset_sum(out@, all);
        lemma_subset_sum(all, out@);
    }
    out
}

/// A reordering of a cluster collection keeps its keys pairwise distinct
/// and its members well-formed.
pub proof fn lemma_cluster_multiset_keys(r: Seq<Cluster>, s: Seq<Cluster>)
    requires
        r.to_multiset() == s.to_multiset(),
        distinct_keys(s),
        all_wf(s),
    ensures
        distinct_keys(r),
        all_wf(r),
{
    broadcast use vstd::seq_lib::group_to_multiset_ensures;

    assert forall|u: int| 0 <= u < r.len() implies (#[trigger] r[u]).wf() by {
        assert(r.to_multiset().contains(r[u]));
        assert(s.to_multiset().contains(r[u]));
        assert(s.contains(r[u]));
        let w = choose|w: int| 0 <= w < s.len() && s[w] == r[u];
    }
    assert forall|u1: int, u2: int| 0 <= u1 < u2 < r.len() implies !(#[trigger] r[u1]).same_key(
        #[trigger] r[u2],
    ) by {
        if r[u1].same_key(r[u2]) {
            if r[u1] == r[u2] {
                let v = r[u1];
                assert(r.remove(u1).to_multiset() =~= r.to_multiset().remove(v));
                assert(r.remove(u1)[u2 - 1] == v);
                assert(r.remove(u1).contains(v));
                assert(r.remove(u1).to_multiset().contains(v));
                assert(r.to_multiset().count(v) >= 2);
                assert(s.to_multiset().count(v) >= 2);
                assert(s.contains(v));
                let w1 = choose|w1: int| 0 <= w1 < s.len() && s[w1] == v;
                assert(s.remove(w1).to_multiset() =~= s.to_multiset().remove(v));
                assert(s.remove(w1).to_multiset().count(v) >= 1);
                assert(s.remove(w1).contains(v));
                let w2 = choose|w2: int| 0 <= w2 < s.remove(w1).len() && s.remove(w1)[w2] == v;
                let w2o = if w2 < w1 {
                    w2
                } else {
                    w2 + 1
                };
                assert(s[w2o] == v);
                if w1 < w2o {
                    assert(!s[w1].same_key(s[w2o]));
                } else {
                    assert(!s[w2o].same_key(s[w1]));
                }
            } else {
                assert(s.contains(r[u1])) by {
                    assert(r.to_multiset().contains(r[u1]));
                }
                assert(s.contains(r[u2])) by {
                    assert(r.to_multiset().contains(r[u2]));
                }
                let w1 = choose|w1: int| 0 <= w1 < s.len() && s[w1] == r[u1];
                let w2 = choose|w2: int| 0 <= w2 < s.len() && s[w2] == r[u2];
                assert(w1 != w2);
                if w1 < w2 {
                    assert(!s[w1].same_key(s[w2]));
                } else {
                    assert(!s[w2].same_key(s[w1]));
                }
            }
        }
    }
}

/// The selected triples of a component over a collection are among the
/// collection's triples.
proof fn lemma_seq_contains_selected(s: Seq<(usize, usize, usize)>, all: Seq<(usize, usize, usize)>)
    requires
        s == all,
    ensures
        forall|t: int| 0 <= t < s.len() ==> all.contains(#[trigger] s[t]),
{
}

/// Prefix populations are monotone and bounded by the total.
pub proof fn lemma_prefix_pop_bounds(comps: Seq<Component>, t1: int, t2: int)
    requires
        0 <= t1 <= t2 <= comps.len(),
    ensures
        prefix_pop(comps, t1) <= prefix_pop(comps, t2),
        0 <= prefix_pop(comps, t1),
    decreases t2,
{
    if t1 > 0 && t1 == t2 {
        lemma_prefix_pop_bounds(comps, t1 - 1, t1 - 1);
    }
    if t2 > t1 {
        lemma_prefix_pop_bounds(comps, t1, t2 - 1);
    }
}


impl Component {
    /// The part standing at the kept positions is connected: reachability
    /// transports along the position map.
    #[verifier::rlimit(100)]
    proof fn lemma_part_connected(self, part0: Component, ks: Seq<int>)
        requires
            self.wf(),
            part0.wf(),
            self.n() >= 1,
            ks == positions_where(self.n() as nat, reach_set(self.adjs(), 0)),
            part0.n() == ks.len(),
            part0.adjacency_list@.len() == ks.len(),
            ks.len() >= 1,
            forall|a: int, b: int, d: u64|
                (#[trigger] part0.has_nbr(a, b, d)) <==> (0 <= a < ks.len() && 0 <= b < ks.len()
                    && self.has_nbr(ks[a], ks[b], d)),
        ensures
            part0.connected(),
    {
        let adjs = self.adjs();
        let keep = reach_set(adjs, 0);
        lemma_positions_where_props(self.n() as nat, keep);
        assert(reaches_in(adjs, 0, 0, 0));
        assert(keep.contains(0));
        assert(ks.contains(0));
        assert(ks[0] == 0) by {
            let u = choose|u: int| 0 <= u < ks.len() && ks[u] == 0;
            if u > 0 {
                assert(ks[0] < ks[u]);
                assert(ks[0] >= 0);
            }
        }
        part0.lemma_adj_symmetric();
        let f = ks;
            assert forall|a: int| 0 <= a < part0.n() implies reaches(part0.adjs(), 0, a) by {
                assert forall|x: int, y: int|
                    0 <= x < part0.adjs().len() && 0 <= y < part0.adjs().len() implies ((
                #[trigger] part0.adjs()[x].contains(y)) <==> adjs[f[x]].contains(f[y])) by {
                    lemma_pair_idx_set_contains(part0.adjacency_list@[x]@, y);
                    if part0.adjs()[x].contains(y) {
                        let t = choose|t: int|
                            0 <= t < part0.adjacency_list@[x]@.len() && ((
                            #[trigger] part0.adjacency_list@[x]@[t]).0 as int) == y;
                        let d = part0.adjacency_list@[x]@[t].1;
                        assert(part0.has_nbr(x, y, d));
                        assert(self.has_nbr(ks[x], ks[y], d));
                        let t2 = choose|t2: int|
                            0 <= t2 < self.adjacency_list@[ks[x]]@.len() && ((
                            #[trigger] self.adjacency_list@[ks[x]]@[t2]).0 as int) == ks[y]
                                && self.adjacency_list@[ks[x]]@[t2].1 == d;
                        lemma_pair_idx_set_contains(self.adjacency_list@[ks[x]]@, ks[y]);
                    }
                    if adjs[f[x]].contains(f[y]) {
                        lemma_pair_idx_set_contains(self.adjacency_list@[ks[x]]@, ks[y]);
                        let t = choose|t: int|
                            0 <= t < self.adjacency_list@[ks[x]]@.len() && ((
                            #[trigger] self.adjacency_list@[ks[x]]@[t]).0 as int) == ks[y];
                        let d = self.adjacency_list@[ks[x]]@[t].1;
                        assert(self.has_nbr(ks[x], ks[y], d));
                        assert(part0.has_nbr(x, y, d));
                        let t2 = choose|t2: int|
                            0 <= t2 < part0.adjacency_list@[x]@.len() && ((
                            #[trigger] part0.adjacency_list@[x]@[t2]).0 as int) == y
                                && part0.adjacency_list@[x]@[t2].1 == d;
                    }
                }
                assert forall|x: int, jj: int|
                    0 <= x < part0.adjs().len() && (#[trigger] adjs[f[x]].contains(jj)) implies
                    exists|y: int| 0 <= y < part0.adjs().len() && f[y] == jj by {
                    lemma_pair_idx_set_contains(self.adjacency_list@[ks[x]]@, jj);
                    let t = choose|t: int|
                        0 <= t < self.adjacency_list@[ks[x]]@.len() && ((
                        #[trigger] self.adjacency_list@[ks[x]]@[t]).0 as int) == jj;
                    assert(keep.contains(ks[x]));
                    lemma_reaches_step(adjs, ks[x], jj);
                    lemma_reaches_trans(adjs, 0, ks[x], jj);
                    assert(keep.contains(jj));
                    assert(ks.contains(jj));
                    let w = choose|w: int| 0 <= w < ks.len() && ks[w] == jj;
                    assert(0 <= w < part0.adjs().len() && f[w] == jj);
                }
                crate::reach::lemma_reach_iso(adjs, part0.adjs(), f, 0, a);
                assert(keep.contains(ks[a]));
                assert(reaches(adjs, ks[0], ks[a]));
            }
    }
}


/// Member counts of component prefixes are monotone and non-negative.
pub proof fn lemma_prefix_n_bounds(comps: Seq<Component>, t1: int, t2: int)
    requires
        0 <= t1 <= t2 <= comps.len(),
    ensures
        prefix_n(comps, t1) <= prefix_n(comps, t2),
        0 <= prefix_n(comps, t1),
    decreases t2,
{
    if t1 > 0 && t1 == t2 {
        lemma_prefix_n_bounds(comps, t1 - 1, t1 - 1);
    }
    if t2 > t1 {
        lemma_prefix_n_bounds(comps, t1, t2 - 1);
    }
}

/// Component collections that agree pointwise have the same prefix counts.
pub proof fn lemma_prefix_n_congr(a: Seq<Component>, b: Seq<Component>, t: int)
    requires
        t <= a.len(),
        t <= b.len(),
        forall|u: int| 0 <= u < t ==> (#[trigger] a[u]).n() == b[u].n(),
    ensures
        prefix_n(a, t) == prefix_n(b, t),
    decreases t,
{
    if t > 0 {
        lemma_prefix_n_congr(a, b, t - 1);
    }
}


/// For every earlier component, its block of positions ends at or before
/// the base of the current component's block.
pub(crate) proof fn lemma_block_bound(comps: Seq<Component>, c: int)
    requires
        0 <= c <= comps.len(),
    ensures
        forall|cc: int|
            0 <= cc < c ==> prefix_n(comps, cc) + (#[trigger] comps[cc]).n() <= prefix_n(comps, c),
{
    assert forall|cc: int|
        0 <= cc < c implies prefix_n(comps, cc) + (#[trigger] comps[cc]).n() <= prefix_n(
        comps,
        c,
    ) by {
        lemma_prefix_n_bounds(comps, cc + 1, c);
    }
}

impl Graph {
    /// Whether the graph holds a member with the given identity key.
    #[verifier::rlimit(100)]
    pub fn contains(&self, offset: usize, cardinality: usize) -> (r: bool)
        ensures
            r == self.members@.contains((offset, cardinality)),
    {
        let mut t: usize = 0;
        while t < self.members.len()
            invariant
                t <= self.members@.len(),
                forall|u: int| 0 <= u < t ==> (#[trigger] self.members@[u]) != (offset, cardinality),
            decreases self.members@.len() - t,
        {
            let m = self.members[t];
            if m.0 == offset && m.1 == cardinality {
                proof {
                    assert(self.members@[t as int] == (offset, cardinality));
                }
                return true;
            }
            t += 1;
        }
        proof {
            if self.members@.contains((offset, cardinality)) {
                let u = choose|u: int|
                    0 <= u < self.members@.len() && self.members@[u] == (offset, cardinality);
            }
        }
        false
    }

    /// The total number of instances covered by the graph's members.
    #[verifier::rlimit(100)]
    pub fn population(&self) -> (r: usize)
        requires
            self.wf(),
        ensures
            r as int == prefix_pop(self.components@, self.components@.len() as int),
    {
        let k = self.populations.len();
        if k == 0 {
            0
        } else {
            self.populations[k - 1]
        }
    }

    /// The member records of the whole graph, component by component.
    #[verifier::rlimit(100)]
    pub fn iter_clusters(&self) -> (r: Vec<(usize, usize, usize)>)
        requires
            self.wf(),
        ensures
            r@.len() == prefix_n(self.components@, self.components@.len() as int),
            forall|c: int, i: int|
                0 <= c < self.components@.len() && 0 <= i < self.components@[c].n() ==> r@[prefix_n(
                    self.components@,
                    c,
                ) + i] == (#[trigger] self.components@[c].clusters@[i]),
    {
        let mut r: Vec<(usize, usize, usize)> = Vec::new();
        let mut c: usize = 0;
        while c < self.components.len()
            invariant
                c <= self.components@.len(),
                r@.len() == prefix_n(self.components@, c as int),
                forall|cc: int, i: int|
                    0 <= cc < c && 0 <= i < self.components@[cc].n() ==> r@[prefix_n(
                        self.components@,
                        cc,
                    ) + i] == (#[trigger] self.components@[cc].clusters@[i]),
            decreases self.components@.len() - c,
        {
            proof {
                lemma_prefix_n_bounds(self.components@, c + 1, self.components@.len() as int);
                lemma_prefix_n_bounds(self.components@, 0, c as int);
            }
            let comp = &self.components[c];
            let mut i: usize = 0;
            let ghost base = r@.len() as int;
            proof {
                lemma_block_bound(self.components@, c as int);
                lemma_prefix_n_bounds(self.components@, c as int, c as int);
            }
            while i < comp.clusters.len()
                invariant
                    (c as int) < self.components@.len(),
                    comp == self.components@[c as int],
                    base == prefix_n(self.components@, c as int),
                    0 <= base,
                    i <= comp.clusters@.len(),
                    r@.len() == base + i,
                    forall|cc: int|
                        0 <= cc < c ==> prefix_n(self.components@, cc) + (
                        #[trigger] self.components@[cc]).n() <= base,
                    forall|cc: int, j: int|
                        0 <= cc < c && 0 <= j < self.components@[cc].n() ==> r@[prefix_n(
                            self.components@,
                            cc,
                        ) + j] == (#[trigger] self.components@[cc].clusters@[j]),
                    forall|j: int| 0 <= j < i ==> r@[base + j] == comp.clusters@[j],
                decreases comp.clusters@.len() - i,
            {
                let ghost r0 = r@;
                r.push(comp.clusters[i]);
                proof {
                    assert(r@ == r0.push(comp.clusters@[i as int]));
                    assert forall|u: int| 0 <= u < r0.len() implies r@[u] == r0[u] by {
                        assert(r0.push(comp.clusters@[i as int])[u] == r0[u]);
                    }
                }
                proof {
                    assert(r0.len() == base + i);
                    assert forall|cc: int, j: int|
                        0 <= cc < c && 0 <= j < self.components@[cc].n() implies r@[prefix_n(
                        self.components@,
                        cc,
                    ) + j] == (#[trigger] self.components@[cc].clusters@[j]) by {
                        lemma_prefix_n_bounds(self.components@, cc, c as int);
                        assert(prefix_n(self.components@, cc) + self.components@[cc].n() <= base);
                        assert(r@[prefix_n(self.components@, cc) + j] == r0[prefix_n(
                            self.components@,
                            cc,
                        ) + j]);
                    }
                    assert forall|j: int| 0 <= j < i + 1 implies r@[base + j]
                        == comp.clusters@[j] by {
                        if j < i {
                            assert(r@[base + j] == r0[base + j]);
                        } else {
                            assert(r@[base + i] == comp.clusters@[i as int]);
                        }
                    }
                }
                i += 1;
            }
            c += 1;
        }
        r
    }

    /// The neighbor lists of the whole graph, component by component.
    #[verifier::rlimit(100)]
    pub fn iter_neighbors(&self) -> (r: Vec<Vec<(usize, u64)>>)
        requires
            self.wf(),
        ensures
            r@.len() == prefix_n(self.components@, self.components@.len() as int),
            forall|c: int, i: int|
                0 <= c < self.components@.len() && 0 <= i < self.components@[c].n() ==> r@[prefix_n(
                    self.components@,
                    c,
                ) + i]@ == (#[trigger] self.components@[c].adjacency_list@[i])@,
    {
        let mut r: Vec<Vec<(usize, u64)>> = Vec::new();
        let mut c: usize = 0;
        while c < self.components.len()
            invariant
                c <= self.components@.len(),
                forall|cc: int|
                    0 <= cc < self.components@.len() ==> (
                    #[trigger] self.components@[cc]).adjacency_list@.len()
                        == self.components@[cc].n(),
                r@.len() == prefix_n(self.components@, c as int),
                forall|cc: int, i: int|
                    0 <= cc < c && 0 <= i < self.components@[cc].n() ==> r@[prefix_n(
                        self.components@,
                        cc,
                    ) + i]@ == (#[trigger] self.components@[cc].adjacency_list@[i])@,
            decreases self.components@.len() - c,
        {
            proof {
                lemma_prefix_n_bounds(self.components@, c + 1, self.components@.len() as int);
                lemma_prefix_n_bounds(self.components@, 0, c as int);
            }
            let comp = &self.components[c];
            let mut i: usize = 0;
            let ghost base = r@.len() as int;
            proof {
                lemma_block_bound(self.components@, c as int);
                lemma_prefix_n_bounds(self.components@, c as int, c as int);
            }
            while i < comp.adjacency_list.len()
                invariant
                    (c as int) < self.components@.len(),
                    comp == self.components@[c as int],
                    base == prefix_n(self.components@, c as int),
                    0 <= base,
                    comp.adjacency_list@.len() == comp.n(),
                    i <= comp.adjacency_list@.len(),
                    r@.len() == base + i,
                    forall|cc: int|
                        0 <= cc < c ==> prefix_n(self.components@, cc) + (
                        #[trigger] self.components@[cc]).n() <= base,
                    forall|cc: int, j: int|
                        0 <= cc < c && 0 <= j < self.components@[cc].n() ==> r@[prefix_n(
                            self.components@,
                            cc,
                        ) + j]@ == (#[trigger] self.components@[cc].adjacency_list@[j])@,
                    forall|j: int| 0 <= j < i ==> r@[base + j]@ == comp.adjacency_list@[j]@,
                decreases comp.adjacency_list@.len() - i,
            {
                let row = &comp.adjacency_list[i];
                let mut cp: Vec<(usize, u64)> = Vec::new();
                let mut t: usize = 0;
                while t < row.len()
                    invariant
                        t <= row@.len(),
                        cp@.len() == t,
                        forall|u: int| 0 <= u < t ==> (#[trigger] cp@[u]) == row@[u],
                    decreases row@.len() - t,
                {
                    cp.push(row[t]);
                    t += 1;
                }
                let ghost r0 = r@;
                let ghost vv = cp;
                proof {
                    assert(cp@ =~= row@);
                }
                r.push(cp);
                proof {
                    assert(r@ == r0.push(vv));
                    assert forall|u: int| 0 <= u < r0.len() implies r@[u] == r0[u] by {
                        assert(r0.push(vv)[u] == r0[u]);
                    }
                }
                proof {
                    assert forall|cc: int, j: int|
                        0 <= cc < c && 0 <= j < self.components@[cc].n() implies r@[prefix_n(
                        self.components@,
                        cc,
                    ) + j]@ == (#[trigger] self.components@[cc].adjacency_list@[j])@ by {
                        lemma_prefix_n_bounds(self.components@, cc, c as int);
                        assert(prefix_n(self.components@, cc) + self.components@[cc].n() <= base);
                        assert(r@[prefix_n(self.components@, cc) + j] == r0[prefix_n(
                            self.components@,
                            cc,
                        ) + j]);
                    }
                    assert forall|j: int|
                        0 <= j < i + 1 implies r@[base + j]@ == comp.adjacency_list@[j]@ by {
                        if j < i {
                            assert(r@[base + j] == r0[base + j]);
                        } else {
                            assert(r@[base + i]@ == comp.adjacency_list@[i as int]@);
                        }
                    }
                }
                i += 1;
            }
            c += 1;
        }
        r
    }

    /// The ratio-feature records of the whole graph, component by
    /// component.
    #[verifier::rlimit(100)]
    pub fn iter_anomaly_properties(&self) -> (r: Vec<Ratios>)
        requires
            self.wf(),
        ensures
            r@.len() == prefix_n(self.components@, self.components@.len() as int),
            forall|c: int, i: int|
                0 <= c < self.components@.len() && 0 <= i < self.components@[c].n() ==> r@[prefix_n(
                    self.components@,
                    c,
                ) + i] == (#[trigger] self.components@[c].anomaly_properties@[i]),
    {
        let mut r: Vec<Ratios> = Vec::new();
        let mut c: usize = 0;
        while c < self.components.len()
            invariant
                c <= self.components@.len(),
                forall|cc: int|
                    0 <= cc < self.components@.len() ==> (
                    #[trigger] self.components@[cc]).anomaly_properties@.len()
                        == self.components@[cc].n(),
                r@.len() == prefix_n(self.components@, c as int),
                forall|cc: int, i: int|
                    0 <= cc < c && 0 <= i < self.components@[cc].n() ==> r@[prefix_n(
                        self.components@,
                        cc,
                    ) + i] == (#[trigger] self.components@[cc].anomaly_properties@[i]),
            decreases self.components@.len() - c,
        {
            proof {
                lemma_prefix_n_bounds(self.components@, c + 1, self.components@.len() as int);
                lemma_prefix_n_bounds(self.components@, 0, c as int);
            }
            let comp = &self.components[c];
            let mut i: usize = 0;
            let ghost base = r@.len() as int;
            proof {
                lemma_block_bound(self.components@, c as int);
                lemma_prefix_n_bounds(self.components@, c as int, c as int);
            }
            while i < comp.anomaly_properties.len()
                invariant
                    (c as int) < self.components@.len(),
                    comp == self.components@[c as int],
                    base == prefix_n(self.components@, c as int),
                    0 <= base,
                    comp.anomaly_properties@.len() == comp.n(),
                    i <= comp.anomaly_properties@.len(),
                    r@.len() == base + i,
                    forall|cc: int|
                        0 <= cc < c ==> prefix_n(self.components@, cc) + (
                        #[trigger] self.components@[cc]).n() <= base,
                    forall|cc: int, j: int|
                        0 <= cc < c && 0 <= j < self.components@[cc].n() ==> r@[prefix_n(
                            self.components@,
                            cc,
                        ) + j] == (#[trigger] self.components@[cc].anomaly_properties@[j]),
                    forall|j: int| 0 <= j < i ==> r@[base + j] == comp.anomaly_properties@[j],
                decreases comp.anomaly_properties@.len() - i,
            {
                let ghost r0 = r@;
                r.push(comp.anomaly_properties[i]);
                proof {
                    assert(r@ == r0.push(comp.anomaly_properties@[i as int]));
                    assert forall|u: int| 0 <= u < r0.len() implies r@[u] == r0[u] by {
                        assert(r0.push(comp.anomaly_properties@[i as int])[u] == r0[u]);
                    }
                }
                proof {
                    assert forall|cc: int, j: int|
                        0 <= cc < c && 0 <= j < self.components@[cc].n() implies r@[prefix_n(
                        self.components@,
                        cc,
                    ) + j] == (#[trigger] self.components@[cc].anomaly_properties@[j]) by {
                        lemma_prefix_n_bounds(self.components@, cc, c as int);
                        assert(prefix_n(self.components@, cc) + self.components@[cc].n() <= base);
                        assert(r@[prefix_n(self.components@, cc) + j] == r0[prefix_n(
                            self.components@,
                            cc,
                        ) + j]);
                    }
                    assert forall|j: int| 0 <= j < i + 1 implies r@[base + j]
                        == comp.anomaly_properties@[j] by {
                        if j < i {
                            assert(r@[base + j] == r0[base + j]);
                        } else {
                            assert(r@[base + i] == comp.anomaly_properties@[i as int]);
                        }
                    }
                }
                i += 1;
            }
            c += 1;
        }
        r
    }

    /// The accumulated child-parent cardinality ratios of the whole graph,
    /// component by component.
    #[verifier::rlimit(100)]
    pub fn accumulated_cp_car_ratios(&self) -> (r: Vec<u64>)
        requires
            self.wf(),
        ensures
            r@.len() == prefix_n(self.components@, self.components@.len() as int),
            forall|c: int, i: int|
                0 <= c < self.components@.len() && 0 <= i < self.components@[c].n() ==> r@[prefix_n(
                    self.components@,
                    c,
                ) + i] == (#[trigger] self.components@[c].accumulated_cp_car_ratios@[i]),
    {
        let mut r: Vec<u64> = Vec::new();
        let mut c: usize = 0;
        while c < self.components.len()
            invariant
                c <= self.components@.len(),
                forall|cc: int|
                    0 <= cc < self.components@.len() ==> (
                    #[trigger] self.components@[cc]).accumulated_cp_car_ratios@.len()
                        == self.components@[cc].n(),
                r@.len() == prefix_n(self.components@, c as int),
                forall|cc: int, i: int|
                    0 <= cc < c && 0 <= i < self.components@[cc].n() ==> r@[prefix_n(
                        self.components@,
                        cc,
                    ) + i] == (#[trigger] self.components@[cc].accumulated_cp_car_ratios@[i]),
            decreases self.components@.len() - c,
        {
            proof {
                lemma_prefix_n_bounds(self.components@, c + 1, self.components@.len() as int);
                lemma_prefix_n_bounds(self.components@, 0, c as int);
            }
            let comp = &self.components[c];
            let mut i: usize = 0;
            let ghost base = r@.len() as int;
            proof {
                lemma_block_bound(self.components@, c as int);
                lemma_prefix_n_bounds(self.components@, c as int, c as int);
            }
            while i < comp.accumulated_cp_car_ratios.len()
                invariant
                    (c as int) < self.components@.len(),
                    comp == self.components@[c as int],
                    base == prefix_n(self.components@, c as int),
                    0 <= base,
                    comp.accumulated_cp_car_ratios@.len() == comp.n(),
                    i <= comp.accumulated_cp_car_ratios@.len(),
                    r@.len() == base + i,
                    forall|cc: int|
                        0 <= cc < c ==> prefix_n(self.components@, cc) + (
                        #[trigger] self.components@[cc]).n() <= base,
                    forall|cc: int, j: int|
                        0 <= cc < c && 0 <= j < self.components@[cc].n() ==> r@[prefix_n(
                            self.components@,
                            cc,
                        ) + j] == (#[trigger] self.components@[cc].accumulated_cp_car_ratios@[j]),
                    forall|j: int| 0 <= j < i ==> r@[base + j] == comp.accumulated_cp_car_ratios@[j],
                decreases comp.accumulated_cp_car_ratios@.len() - i,
            {
                let ghost r0 = r@;
                r.push(comp.accumulated_cp_car_ratios[i]);
                proof {
                    assert(r@ == r0.push(comp.accumulated_cp_car_ratios@[i as int]));
                    assert forall|u: int| 0 <= u < r0.len() implies r@[u] == r0[u] by {
                        assert(r0.push(comp.accumulated_cp_car_ratios@[i as int])[u] == r0[u]);
                    }
                }
                proof {
                    assert forall|cc: int, j: int|
                        0 <= cc < c && 0 <= j < self.components@[cc].n() implies r@[prefix_n(
                        self.components@,
                        cc,
                    ) + j] == (#[trigger] self.components@[cc].accumulated_cp_car_ratios@[j]) by {
                        lemma_prefix_n_bounds(self.components@, cc, c as int);
                        assert(prefix_n(self.components@, cc) + self.components@[cc].n() <= base);
                        assert(r@[prefix_n(self.components@, cc) + j] == r0[prefix_n(
                            self.components@,
                            cc,
                        ) + j]);
                    }
                    assert forall|j: int| 0 <= j < i + 1 implies r@[base + j]
                        == comp.accumulated_cp_car_ratios@[j] by {
                        if j < i {
                            assert(r@[base + j] == r0[base + j]);
                        } else {
                            assert(r@[base + i] == comp.accumulated_cp_car_ratios@[i as int]);
                        }
                    }
                }
                i += 1;
            }
            c += 1;
        }
        r
    }

    /// The stationary probability estimate of every member, component by
    /// component.
    #[verifier::rlimit(100)]
    pub fn compute_stationary_probabilities(&self, num_steps: usize) -> (r: Vec<u64>)
        requires
            self.wf(),
            forall|c: int|
                0 <= c < self.components@.len() ==> (#[trigger] self.components@[c]).n()
                    <= 0x100000000,
        ensures
            r@.len() == prefix_n(self.components@, self.components@.len() as int),
            forall|c: int, i: int|
                0 <= c < self.components@.len() && 0 <= i < self.components@[c].n() ==> (
                #[trigger] r@[prefix_n(self.components@, c) + i]) == stationary_spec(
                    self.components@[c].wmat(),
                    num_steps as nat,
                )[i],
    {
        let mut r: Vec<u64> = Vec::new();
        let mut c: usize = 0;
        while c < self.components.len()
            invariant
                c <= self.components@.len(),
                forall|cc: int|
                    0 <= cc < self.components@.len() ==> (#[trigger] self.components@[cc]).wf()
                        && self.components@[cc].n() <= 0x100000000,
                r@.len() == prefix_n(self.components@, c as int),
                forall|cc: int, i: int|
                    0 <= cc < c && 0 <= i < self.components@[cc].n() ==> (#[trigger] r@[prefix_n(
                        self.components@,
                        cc,
                    ) + i]) == stationary_spec(
                        self.components@[cc].wmat(),
                        num_steps as nat,
                    )[i],
            decreases self.components@.len() - c,
        {
            proof {
                lemma_prefix_n_bounds(self.components@, c + 1, self.components@.len() as int);
                lemma_prefix_n_bounds(self.components@, 0, c as int);
            }
            let comp = &self.components[c];
            let probs = comp.compute_stationary_probabilities(num_steps);
            let mut i: usize = 0;
            let ghost base = r@.len() as int;
            proof {
                lemma_block_bound(self.components@, c as int);
                lemma_prefix_n_bounds(self.components@, c as int, c as int);
            }
            while i < probs.len()
                invariant
                    (c as int) < self.components@.len(),
                    comp == self.components@[c as int],
                    probs@.len() == comp.n(),
                    probs@ == stationary_spec(comp.wmat(), num_steps as nat),
                    base == prefix_n(self.components@, c as int),
                    0 <= base,
                    i <= probs@.len(),
                    r@.len() == base + i,
                    forall|cc: int|
                        0 <= cc < c ==> prefix_n(self.components@, cc) + (
                        #[trigger] self.components@[cc]).n() <= base,
                    forall|cc: int, j: int|
                        0 <= cc < c && 0 <= j < self.components@[cc].n() ==> (#[trigger] r@[
                        prefix_n(self.components@, cc) + j]) == stationary_spec(
                            self.components@[cc].wmat(),
                            num_steps as nat,
                        )[j],
                    forall|j: int| 0 <= j < i ==> r@[base + j] == probs@[j],
                decreases probs@.len() - i,
            {
                let ghost r0 = r@;
                r.push(probs[i]);
                proof {
                    assert(r@ == r0.push(probs@[i as int]));
                    assert forall|u: int| 0 <= u < r0.len() implies r@[u] == r0[u] by {
                        assert(r0.push(probs@[i as int])[u] == r0[u]);
                    }
                }
                proof {
                    assert forall|cc: int, j: int|
                        0 <= cc < c && 0 <= j < self.components@[cc].n() implies (#[trigger] r@[
                    prefix_n(self.components@, cc) + j]) == stationary_spec(
                        self.components@[cc].wmat(),
                        num_steps as nat,
                    )[j] by {
                        lemma_prefix_n_bounds(self.components@, cc, c as int);
                        assert(prefix_n(self.components@, cc) + self.components@[cc].n() <= base);
                        assert(r@[prefix_n(self.components@, cc) + j] == r0[prefix_n(
                            self.components@,
                            cc,
                        ) + j]);
                    }
                    assert forall|j: int| 0 <= j < i + 1 implies r@[base + j] == probs@[j] by {
                        if j < i {
                            assert(r@[base + j] == r0[base + j]);
                        } else {
                            assert(r@[base + i] == probs@[i as int]);
                        }
                    }
                }
                i += 1;
            }
            c += 1;
        }
        r
    }

    /// The diameter of the graph: the largest component diameter, computed
    /// lazily per component.
    #[verifier::rlimit(100)]
    pub fn diameter(&mut self) -> (r: usize)
        requires
            old(self).wf(),
            forall|c: int|
                0 <= c < old(self).components@.len() ==> (#[trigger] old(self).components@[c]).n()
                    * old(self).components@[c].n() <= usize::MAX,
        ensures
            final(self).wf(),
            final(self).components@.len() == old(self).components@.len(),
            final(self).populations@ == old(self).populations@,
            final(self).members@ == old(self).members@,
            forall|c: int|
                0 <= c < old(self).components@.len() ==> (#[trigger] final(self).components@[c])
                    .same_core(old(self).components@[c]),
            forall|c: int|
                0 <= c < final(self).components@.len() ==> (#[trigger] final(self).components@[c]).diameter is Some,
            forall|c: int|
                0 <= c < final(self).components@.len() ==> (match (#[trigger] final(self).components@[c]).diameter {
                    Option::Some(d) => d <= r,
                    Option::None => false,
                }),
            r == 0 || exists|c: int|
                0 <= c < final(self).components@.len() && (#[trigger] final(self).components@[c]).diameter == Some(r),
    {
        let n = self.components.len();
        let mut best: usize = 0;
        let mut c: usize = 0;
        while c < n
            invariant
                n == self.components@.len(),
                self.components@.len() == old(self).components@.len(),
                self.populations@ == old(self).populations@,
                self.members@ == old(self).members@,
                forall|cc: int|
                    0 <= cc < self.components@.len() ==> (#[trigger] self.components@[cc]).wf(),
                forall|cc: int|
                    0 <= cc < old(self).components@.len() ==> (#[trigger] self.components@[cc])
                        .same_core(old(self).components@[cc]),
                forall|cc: int|
                    0 <= cc < old(self).populations@.len() ==> ((
                    #[trigger] self.populations@[cc]) as int) == prefix_pop(
                        old(self).components@,
                        cc + 1,
                    ),
                forall|cc: int|
                    0 <= cc < old(self).components@.len() ==> (#[trigger] old(self).components@[cc]).n() * old(self).components@[cc].n() <= usize::MAX,
                prefix_n(old(self).components@, old(self).components@.len() as int) <= usize::MAX,
                c <= n,
                forall|cc: int|
                    0 <= cc < c ==> (#[trigger] self.components@[cc]).diameter is Some,
                forall|cc: int|
                    0 <= cc < c ==> (match (#[trigger] self.components@[cc]).diameter {
                        Option::Some(d) => d <= best,
                        Option::None => false,
                    }),
                best == 0 || exists|cc: int|
                    0 <= cc < c && (#[trigger] self.components@[cc]).diameter == Some(best),
            decreases n - c,
        {
            let ghost comps0 = self.components@;
            let d = self.components[c].diameter();
            proof {
                assert forall|cc: int|
                    0 <= cc < self.components@.len() && cc != c as int implies (
                #[trigger] self.components@[cc]) == comps0[cc] by {}
            }
            if d > best {
                best = d;
                proof {
                    assert(self.components@[c as int].diameter == Some(best));
                }
            } else {
                proof {
                    if best != 0 {
                        let cc0 = choose|cc: int|
                            0 <= cc < c && (#[trigger] comps0[cc]).diameter == Some(best);
                        assert(self.components@[cc0] == comps0[cc0]);
                        assert(self.components@[cc0].diameter == Some(best));
                    }
                }
            }
            c += 1;
        }
        proof {
            lemma_prefix_eq_pop(self.components@, old(self).components@);
        }
        best
    }

    /// The cumulative neighborhood sizes of every member, component by
    /// component, computing and caching them on the way.
    #[verifier::rlimit(100)]
    pub fn neighborhood_sizes(&mut self) -> (r: Vec<Vec<usize>>)
        requires
            old(self).wf(),
            forall|c: int|
                0 <= c < old(self).components@.len() ==> (#[trigger] old(self).components@[c]).n()
                    * old(self).components@[c].n() <= usize::MAX,
        ensures
            final(self).wf(),
            final(self).components@.len() == old(self).components@.len(),
            final(self).populations@ == old(self).populations@,
            final(self).members@ == old(self).members@,
            forall|c: int|
                0 <= c < old(self).components@.len() ==> (#[trigger] final(self).components@[c])
                    .same_core(old(self).components@[c]),
            r@.len() == prefix_n(old(self).components@, old(self).components@.len() as int),
            forall|c: int, i: int|
                0 <= c < old(self).components@.len() && 0 <= i < old(self).components@[c].n()
                    ==> old(self).components@[c].nbh_ok(
                    i,
                    (#[trigger] r@[prefix_n(old(self).components@, c) + i])@,
                ),
    {
        let n = self.components.len();
        let mut r: Vec<Vec<usize>> = Vec::new();
        let mut c: usize = 0;
        while c < n
            invariant
                n == self.components@.len(),
                self.components@.len() == old(self).components@.len(),
                self.populations@ == old(self).populations@,
                self.members@ == old(self).members@,
                forall|cc: int|
                    0 <= cc < self.components@.len() ==> (#[trigger] self.components@[cc]).wf(),
                forall|cc: int|
                    0 <= cc < old(self).components@.len() ==> (#[trigger] self.components@[cc])
                        .same_core(old(self).components@[cc]),
                forall|cc: int|
                    0 <= cc < old(self).populations@.len() ==> ((
                    #[trigger] self.populations@[cc]) as int) == prefix_pop(
                        old(self).components@,
                        cc + 1,
                    ),
                forall|cc: int|
                    0 <= cc < old(self).components@.len() ==> (#[trigger] old(self).components@[cc]).n() * old(self).components@[cc].n() <= usize::MAX,
                prefix_n(old(self).components@, old(self).components@.len() as int) <= usize::MAX,
                c <= n,
                r@.len() == prefix_n(old(self).components@, c as int),
                forall|cc: int, i: int|
                    0 <= cc < c && 0 <= i < old(self).components@[cc].n() ==> old(
                        self,
                    ).components@[cc].nbh_ok(
                        i,
                        (#[trigger] r@[prefix_n(old(self).components@, cc) + i])@,
                    ),
            decreases n - c,
        {
            proof {
                lemma_prefix_n_congr_core(old(self).components@, self.components@, n as int);
                lemma_prefix_n_bounds(old(self).components@, c + 1,
                    old(self).components@.len() as int);
                lemma_prefix_n_bounds(old(self).components@, 0, c as int);
            }
            let ghost comps0 = self.components@;
            let rows = self.components[c].neighborhood_sizes();
            proof {
                assert forall|cc: int|
                    0 <= cc < self.components@.len() && cc != c as int implies (
                #[trigger] self.components@[cc]) == comps0[cc] by {}
            }
            let mut i: usize = 0;
            let ghost base = r@.len() as int;
            proof {
                lemma_block_bound(old(self).components@, c as int);
                lemma_prefix_n_bounds(old(self).components@, c as int, c as int);
            }
            while i < rows.len()
                invariant
                    (c as int) < old(self).components@.len(),
                    rows@.len() == old(self).components@[c as int].n(),
                    forall|j: int|
                        0 <= j < rows@.len() ==> old(self).components@[c as int].nbh_ok(
                            j,
                            (#[trigger] rows@[j])@,
                        ),
                    base == prefix_n(old(self).components@, c as int),
                    0 <= base,
                    base + old(self).components@[c as int].n() <= usize::MAX,
                    i <= rows@.len(),
                    r@.len() == base + i,
                    forall|cc: int|
                        0 <= cc < c ==> prefix_n(old(self).components@, cc) + (
                        #[trigger] old(self).components@[cc]).n() <= base,
                    forall|cc: int, j: int|
                        0 <= cc < c && 0 <= j < old(self).components@[cc].n() ==> old(self).components@[cc].nbh_ok(j, (#[trigger] r@[prefix_n(old(self).components@, cc) + j])@),
                    forall|j: int| 0 <= j < i ==> (#[trigger] r@[base + j])@ == rows@[j]@,
                decreases rows@.len() - i,
            {
                let row = &rows[i];
                let mut cp: Vec<usize> = Vec::new();
                let mut t: usize = 0;
                while t < row.len()
                    invariant
                        t <= row@.len(),
                        cp@.len() == t,
                        forall|u: int| 0 <= u < t ==> (#[trigger] cp@[u]) == row@[u],
                    decreases row@.len() - t,
                {
                    cp.push(row[t]);
                    t += 1;
                }
                let ghost r0 = r@;
                let ghost vv = cp;
                proof {
                    assert(cp@ =~= row@);
                }
                r.push(cp);
                proof {
                    assert(r@ == r0.push(vv));
                    assert forall|u: int| 0 <= u < r0.len() implies r@[u] == r0[u] by {
                        assert(r0.push(vv)[u] == r0[u]);
                    }
                }
                proof {
                    assert forall|cc: int, j: int|
                        0 <= cc < c && 0 <= j < old(self).components@[cc].n() implies old(
                        self,
                    ).components@[cc].nbh_ok(
                        j,
                        (#[trigger] r@[prefix_n(old(self).components@, cc) + j])@,
                    ) by {
                        lemma_prefix_n_bounds(old(self).components@, cc, c as int);
                        assert(prefix_n(old(self).components@, cc) + old(
                            self,
                        ).components@[cc].n() <= base);
                        assert(r@[prefix_n(old(self).components@, cc) + j] == r0[prefix_n(
                            old(self).components@,
                            cc,
                        ) + j]);
                    }
                    assert forall|j: int| 0 <= j < i + 1 implies (#[trigger] r@[base + j])@
                        == rows@[j]@ by {
                        if j < i {
                            assert(r@[base + j] == r0[base + j]);
                        } else {
                            assert(r@[base + i]@ == rows@[i as int]@);
                        }
                    }
                }
                i += 1;
            }
            proof {
                assert forall|cc: int, j: int|
                    0 <= cc < c + 1 && 0 <= j < old(self).components@[cc].n() implies old(self).components@[cc].nbh_ok(
                    j,
                    (#[trigger] r@[prefix_n(old(self).components@, cc) + j])@,
                ) by {
                    if cc == c as int {
                        assert(r@[base + j]@ == rows@[j]@);
                        assert(old(self).components@[cc].nbh_ok(j, rows@[j]@));
                    }
                }
            }
            c += 1;
        }
        proof {
            lemma_prefix_eq_pop(self.components@, old(self).components@);
        }
        r
    }
}

/// Components with equal cores carry the same populations, so the prefix
/// sums agree.
proof fn lemma_prefix_eq_pop(a: Seq<Component>, b: Seq<Component>)
    requires
        a.len() == b.len(),
        forall|u: int| 0 <= u < a.len() ==> (#[trigger] a[u]).same_core(b[u]),
    ensures
        forall|t: int| 0 <= t <= a.len() ==> (#[trigger] prefix_pop(a, t)) == prefix_pop(b, t),
        forall|t: int| 0 <= t <= a.len() ==> (#[trigger] prefix_n(a, t)) == prefix_n(b, t),
{
    assert forall|t: int| 0 <= t <= a.len() implies (#[trigger] prefix_pop(a, t)) == prefix_pop(
        b,
        t,
    ) by {
        lemma_prefix_eq_pop_rec(a, b, t);
    }
    assert forall|t: int| 0 <= t <= a.len() implies (#[trigger] prefix_n(a, t)) == prefix_n(
        b,
        t,
    ) by {
        lemma_prefix_eq_pop_rec(a, b, t);
    }
}

proof fn lemma_prefix_eq_pop_rec(a: Seq<Component>, b: Seq<Component>, t: int)
    requires
        a.len() == b.len(),
        t <= a.len(),
        forall|u: int| 0 <= u < a.len() ==> (#[trigger] a[u]).same_core(b[u]),
    ensures
        prefix_pop(a, t) == prefix_pop(b, t),
        prefix_n(a, t) == prefix_n(b, t),
    decreases t,
{
    if t > 0 {
        lemma_prefix_eq_pop_rec(a, b, t - 1);
    }
}

/// Components with equal cores have equal member counts prefix by prefix.
proof fn lemma_prefix_n_congr_core(a: Seq<Component>, b: Seq<Component>, t: int)
    requires
        t <= a.len(),
        a.len() == b.len(),
        forall|u: int| 0 <= u < a.len() ==> (#[trigger] b[u]).same_core(a[u]),
    ensures
        prefix_n(a, t) == prefix_n(b, t),
    decreases t,
{
    if t > 0 {
        lemma_prefix_n_congr_core(a, b, t - 1);
    }
}


impl Graph {
    /// Member keys inherit the offset order of the sorted selection.
    proof fn lemma_members_sorted(sorted: Seq<Cluster>, members: Seq<(usize, usize)>)
        requires
            members == keys_of(sorted),
            forall|u1: int, u2: int|
                0 <= u1 < u2 < sorted.len() ==> (#[trigger] sorted[u1]).offset <= (
                #[trigger] sorted[u2]).offset,
        ensures
            forall|u1: int, u2: int|
                0 <= u1 < u2 < members.len() ==> (#[trigger] members[u1]).0 <= (
                #[trigger] members[u2]).0,
    {
        assert forall|u1: int, u2: int|
            0 <= u1 < u2 < members.len() implies (#[trigger] members[u1]).0 <= (
        #[trigger] members[u2]).0 by {
            assert(members[u1] == keys_of(sorted)[u1]);
            assert(members[u2] == keys_of(sorted)[u2]);
            assert(sorted[u1].offset <= sorted[u2].offset);
        }
    }

    /// Every member key of the built graph names an eligible subtree
    /// cluster.
    proof fn lemma_from_tree_members(
        subtree: Seq<Cluster>,
        cands: Seq<Cluster>,
        sorted: Seq<Cluster>,
        members: Seq<(usize, usize)>,
        min_depth: usize,
    )
        requires
            distinct_keys(subtree),
            members == keys_of(sorted),
            forall|u: int| 0 <= u < sorted.len() ==> cands.contains(#[trigger] sorted[u]),
            forall|u: int| 0 <= u < cands.len() ==> eligible(#[trigger] cands[u], min_depth),
            forall|u: int| 0 <= u < sorted.len() ==> subtree.contains(#[trigger] sorted[u]),
        ensures
            forall|u: int|
                0 <= u < members.len() ==> #[trigger] member_from_subtree(subtree, members, u),
            forall|u: int, w: int|
                0 <= u < members.len() && 0 <= w < subtree.len() && (#[trigger] members[u]) == ((
                #[trigger] subtree[w]).offset, subtree[w].cardinality) ==> eligible(
                    subtree[w],
                    min_depth,
                ),
    {
        assert forall|u: int| 0 <= u < members.len() implies #[trigger] member_from_subtree(
            subtree,
            members,
            u,
        ) by {
            assert(members[u] == keys_of(sorted)[u]);
            assert(subtree.contains(sorted[u]));
            let w0 = choose|w: int| 0 <= w < subtree.len() && subtree[w] == sorted[u];
            assert(0 <= w0 < subtree.len() && members[u] == (
                subtree[w0].offset,
                subtree[w0].cardinality,
            ));
        }
        assert forall|u: int, w: int|
            0 <= u < members.len() && 0 <= w < subtree.len() && (#[trigger] members[u]) == ((
        #[trigger] subtree[w]).offset, subtree[w].cardinality) implies eligible(
            subtree[w],
            min_depth,
        ) by {
            assert(members[u] == keys_of(sorted)[u]);
            assert(cands.contains(sorted[u]));
            let wc = choose|wc: int| 0 <= wc < cands.len() && cands[wc] == sorted[u];
            assert(eligible(cands[wc], min_depth));
            assert(subtree.contains(sorted[u]));
            let w0 = choose|w0: int| 0 <= w0 < subtree.len() && subtree[w0] == sorted[u];
            assert(subtree[w].same_key(sorted[u]));
            crate::cluster::lemma_key_unique_in(subtree, sorted[u], w, w0);
            assert(subtree[w] == sorted[u]);
        }
    }

    /// The member keys of the built graph name an antichain of the tree.
    proof fn lemma_from_tree_antichain(
        subtree: Seq<Cluster>,
        sel0: Seq<Cluster>,
        sorted: Seq<Cluster>,
        members: Seq<(usize, usize)>,
    )
        requires
            distinct_keys(subtree),
            distinct_keys(sorted),
            members == keys_of(sorted),
            forall|u: int| 0 <= u < sorted.len() ==> subtree.contains(#[trigger] sorted[u]),
            forall|u: int| 0 <= u < sorted.len() ==> sel0.contains(#[trigger] sorted[u]),
            forall|a: int, b: int|
                0 <= a < sel0.len() && 0 <= b < sel0.len() && a != b ==> !(#[trigger] sel0[a])
                    .related(#[trigger] sel0[b]),
        ensures
            forall|u1: int, u2: int, w1: int, w2: int|
                0 <= u1 < members.len() && 0 <= u2 < members.len() && u1 != u2 && 0 <= w1
                    < subtree.len() && 0 <= w2 < subtree.len() && (#[trigger] members[u1]) == ((
                #[trigger] subtree[w1]).offset, subtree[w1].cardinality) && (
                #[trigger] members[u2]) == ((#[trigger] subtree[w2]).offset,
                subtree[w2].cardinality) ==> !subtree[w1].related(subtree[w2]),
    {
        assert forall|u1: int, u2: int, w1: int, w2: int|
            0 <= u1 < members.len() && 0 <= u2 < members.len() && u1 != u2 && 0 <= w1
                < subtree.len() && 0 <= w2 < subtree.len() && (#[trigger] members[u1]) == ((
            #[trigger] subtree[w1]).offset, subtree[w1].cardinality) && (#[trigger] members[u2])
            == ((#[trigger] subtree[w2]).offset, subtree[w2].cardinality) implies !subtree[w1]
            .related(subtree[w2]) by {
            assert(members[u1] == keys_of(sorted)[u1]);
            assert(members[u2] == keys_of(sorted)[u2]);
            assert(subtree.contains(sorted[u1]));
            assert(subtree.contains(sorted[u2]));
            let w1p = choose|w: int| 0 <= w < subtree.len() && subtree[w] == sorted[u1];
            let w2p = choose|w: int| 0 <= w < subtree.len() && subtree[w] == sorted[u2];
            assert(subtree[w1].same_key(sorted[u1]));
            crate::cluster::lemma_key_unique_in(subtree, sorted[u1], w1, w1p);
            assert(subtree[w2].same_key(sorted[u2]));
            crate::cluster::lemma_key_unique_in(subtree, sorted[u2], w2, w2p);
            assert(subtree[w1] == sorted[u1]);
            assert(subtree[w2] == sorted[u2]);
            assert(sel0.contains(sorted[u1]));
            assert(sel0.contains(sorted[u2]));
            let p1 = choose|p: int| 0 <= p < sel0.len() && sel0[p] == sorted[u1];
            let p2 = choose|p: int| 0 <= p < sel0.len() && sel0[p] == sorted[u2];
            if p1 == p2 {
                assert(sorted[u1] == sorted[u2]);
                if u1 < u2 {
                    assert(!sorted[u1].same_key(sorted[u2]));
                } else {
                    assert(!sorted[u2].same_key(sorted[u1]));
                }
            } else {
                assert(!sel0[p1].related(sel0[p2]));
            }
        }
    }

    /// Every eligible subtree cluster is accounted for by the selection
    /// the members name.
    proof fn lemma_from_tree_coverage(
        subtree: Seq<Cluster>,
        cands: Seq<Cluster>,
        cscores: Seq<u64>,
        wrappers: Seq<crate::builder::ClusterWrapper>,
        sel0: Seq<Cluster>,
        sorted: Seq<Cluster>,
        members: Seq<(usize, usize)>,
        min_depth: usize,
    )
        requires
            cscores.len() == cands.len(),
            forall|w: int|
                0 <= w < subtree.len() && eligible(#[trigger] subtree[w], min_depth) ==> exists|
                    u: int,
                |
                    0 <= u < cands.len() && (#[trigger] cands[u]) == subtree[w],
            wrappers.to_multiset() == crate::builder::wrapped(cands, cscores).to_multiset(),
            forall|i: int|
                0 <= i < wrappers.len() ==> crate::builder::covered_by(
                    (#[trigger] wrappers[i]).cluster,
                    sel0,
                ),
            sorted.to_multiset() == sel0.to_multiset(),
            forall|u: int| 0 <= u < sorted.len() ==> subtree.contains(#[trigger] sorted[u]),
            members == keys_of(sorted),
        ensures
            forall|t: int|
                0 <= t < subtree.len() && eligible(#[trigger] subtree[t], min_depth)
                    ==> selection_covers(subtree, members, t),
    {
        broadcast use vstd::seq_lib::group_to_multiset_ensures;

        assert forall|t: int|
            0 <= t < subtree.len() && eligible(#[trigger] subtree[t], min_depth) implies
            selection_covers(subtree, members, t) by {
            let q = choose|u: int| 0 <= u < cands.len() && (#[trigger] cands[u]) == subtree[t];
            crate::builder::lemma_wrapper_member(
                crate::builder::wrapped(cands, cscores),
                wrappers,
                q,
            );
            assert(crate::builder::wrapped(cands, cscores)[q].cluster == cands[q]);
            assert(crate::builder::clusters_of(wrappers).contains(cands[q]));
            let p = choose|p: int|
                0 <= p < crate::builder::clusters_of(wrappers).len()
                    && crate::builder::clusters_of(wrappers)[p] == cands[q];
            assert(wrappers[p].cluster == cands[q]);
            assert(crate::builder::covered_by(wrappers[p].cluster, sel0));
            let ps = choose|tt: int|
                0 <= tt < sel0.len() && ((#[trigger] sel0[tt]).same_key(cands[q])
                    || sel0[tt].ancestor_spec(cands[q]) || cands[q].ancestor_spec(sel0[tt]));
            assert(sel0.contains(sel0[ps]));
            assert(sel0.to_multiset().contains(sel0[ps]));
            assert(sorted.to_multiset().contains(sel0[ps]));
            assert(sorted.contains(sel0[ps]));
            let u = choose|u: int| 0 <= u < sorted.len() && sorted[u] == sel0[ps];
            assert(subtree.contains(sorted[u]));
            let w = choose|w: int| 0 <= w < subtree.len() && subtree[w] == sorted[u];
            assert(members[u] == keys_of(sorted)[u]);
            assert(0 <= u < members.len() && 0 <= w < subtree.len() && members[u] == (
                subtree[w].offset,
                subtree[w].cardinality,
            ) && (subtree[t].same_key(subtree[w]) || subtree[t].related(subtree[w])));
        }
    }
}


impl Graph {
    /// The filtered candidate collection inherits the standing facts of
    /// the subtree it was drawn from.
    proof fn lemma_cands_facts(
        subtree: Seq<Cluster>,
        cands: Seq<Cluster>,
        srcs: Seq<int>,
        data: VecDataset,
        min_depth: usize,
    )
        requires
            all_wf(subtree),
            distinct_keys(subtree),
            forall|t: int| 0 <= t < subtree.len() ==> valid_for(#[trigger] subtree[t], data),
            srcs.len() == cands.len(),
            forall|u: int| 0 <= u < srcs.len() ==> 0 <= #[trigger] srcs[u] < subtree.len(),
            forall|u1: int, u2: int| 0 <= u1 < u2 < srcs.len() ==> srcs[u1] < srcs[u2],
            forall|u: int| 0 <= u < cands.len() ==> (#[trigger] cands[u]) == subtree[srcs[u]],
        ensures
            forall|u: int| 0 <= u < cands.len() ==> subtree.contains(#[trigger] cands[u]),
            all_wf(cands),
            distinct_keys(cands),
            forall|u: int| 0 <= u < cands.len() ==> valid_for(#[trigger] cands[u], data),
    {
        assert forall|u: int| 0 <= u < cands.len() implies subtree.contains(
            #[trigger] cands[u],
        ) by {
            assert(cands[u] == subtree[srcs[u]]);
        }
        assert(all_wf(cands)) by {
            assert forall|u: int| 0 <= u < cands.len() implies (#[trigger] cands[u]).wf() by {
                assert(cands[u] == subtree[srcs[u]]);
            }
        }
        assert(distinct_keys(cands)) by {
            assert forall|u1: int, u2: int| 0 <= u1 < u2 < cands.len() implies !(
            #[trigger] cands[u1]).same_key(#[trigger] cands[u2]) by {
                assert(cands[u1] == subtree[srcs[u1]]);
                assert(cands[u2] == subtree[srcs[u2]]);
            }
        }
        assert forall|u: int| 0 <= u < cands.len() implies valid_for(
            #[trigger] cands[u],
            data,
        ) by {
            assert(cands[u] == subtree[srcs[u]]);
        }
    }

    /// Every selected cluster was one of the candidates.
    proof fn lemma_selected_in_cands(
        cands: Seq<Cluster>,
        cscores: Seq<u64>,
        wrappers: Seq<crate::builder::ClusterWrapper>,
        selected: Seq<Cluster>,
    )
        requires
            cscores.len() == cands.len(),
            wrappers.to_multiset() == crate::builder::wrapped(cands, cscores).to_multiset(),
            forall|t: int|
                0 <= t < selected.len() ==> crate::builder::clusters_of(wrappers).contains(
                    #[trigger] selected[t],
                ),
        ensures
            forall|u: int| 0 <= u < selected.len() ==> cands.contains(#[trigger] selected[u]),
    {
        assert forall|u: int| 0 <= u < selected.len() implies cands.contains(
            #[trigger] selected[u],
        ) by {
            assert(crate::builder::clusters_of(wrappers).contains(selected[u]));
            let w = choose|w: int|
                0 <= w < wrappers.len() && crate::builder::clusters_of(wrappers)[w]
                    == selected[u];
            crate::builder::lemma_wrapper_member(
                wrappers,
                crate::builder::wrapped(cands, cscores),
                w,
            );
            assert(crate::builder::clusters_of(crate::builder::wrapped(cands, cscores)) =~= cands);
        }
    }

    /// The sorted selection keeps the candidates' standing facts and its
    /// population fits.
    proof fn lemma_sorted_chain(
        subtree: Seq<Cluster>,
        cands: Seq<Cluster>,
        sel0: Seq<Cluster>,
        sorted: Seq<Cluster>,
        data: VecDataset,
    )
        requires
            all_wf(subtree),
            distinct_keys(subtree),
            all_wf(sorted),
            distinct_keys(sorted),
            all_wf(cands),
            distinct_keys(cands),
            sum_cardinalities_of(subtree) <= usize::MAX,
            forall|u: int| 0 <= u < cands.len() ==> subtree.contains(#[trigger] cands[u]),
            forall|u: int| 0 <= u < cands.len() ==> valid_for(#[trigger] cands[u], data),
            forall|u: int| 0 <= u < sorted.len() ==> cands.contains(#[trigger] sorted[u]),
        ensures
            forall|u: int| 0 <= u < sorted.len() ==> valid_for(#[trigger] sorted[u], data),
            forall|u: int| 0 <= u < sorted.len() ==> subtree.contains(#[trigger] sorted[u]),
            sum_cardinalities_of(sorted) <= usize::MAX,
    {
        assert forall|u: int| 0 <= u < sorted.len() implies valid_for(
            #[trigger] sorted[u],
            data,
        ) by {
            let w = choose|w: int| 0 <= w < cands.len() && cands[w] == sorted[u];
        }
        assert forall|u: int| 0 <= u < sorted.len() implies subtree.contains(
            #[trigger] sorted[u],
        ) by {
            let w = choose|w: int| 0 <= w < cands.len() && cands[w] == sorted[u];
        }
        lemma_subset_sum(cands, subtree);
        lemma_subset_sum(sorted, cands);
    }
}

} // verus!
