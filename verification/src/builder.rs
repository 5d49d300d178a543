//! Selection of graph candidates from a cluster tree: a fixed depth cut, or
//! a greedy score-driven extraction of an antichain.

use vstd::prelude::*;
use vstd::multiset::Multiset;
use vstd::seq_lib::group_to_multiset_ensures;

use crate::cluster::all_wf;
use crate::cluster::distinct_keys;
use crate::cluster::Cluster;
use crate::dataset::cluster_distance;
use crate::dataset::overlap;
use crate::dataset::valid_for;
use crate::dataset::VecDataset;
use crate::edge::edge_spec;
use crate::edge::Edge;
use crate::graph::has_edge_between;
use crate::graph::has_edge_upto;
use crate::graph::key_in;

verus! {

/// A cluster paired with the score the scoring ensemble assigned to it.
#[derive(Clone, Copy, Debug)]
pub struct ClusterWrapper {
    /// The scored cluster.
    pub cluster: Cluster,
    /// The score assigned to the cluster.
    pub score: u64,
}

/// The wrappers pairing each cluster of `subtree` with its score.
pub open spec fn wrapped(subtree: Seq<Cluster>, scores: Seq<u64>) -> Seq<ClusterWrapper> {
    Seq::new(subtree.len(), |i: int| ClusterWrapper { cluster: subtree[i], score: scores[i] })
}

/// `a` ranks at least as high as `b`: a larger score wins, and on equal
/// scores the shallower cluster wins.
pub open spec fn priority_geq(a: ClusterWrapper, b: ClusterWrapper) -> bool {
    a.score > b.score || (a.score == b.score && a.cluster.depth <= b.cluster.depth)
}

/// The sequence is ordered from the highest priority down; in particular
/// its scores never increase.
pub open spec fn sorted_by_priority(s: Seq<ClusterWrapper>) -> bool {
    forall|i: int, j: int|
        0 <= i < j < s.len() ==> #[trigger] priority_geq(s[i], s[j])
}

/// The clusters carried by a sequence of wrappers.
pub open spec fn clusters_of(s: Seq<ClusterWrapper>) -> Seq<Cluster> {
    s.map_values(|w: ClusterWrapper| w.cluster)
}

/// `x` is accounted for by the selection `s`: it is a member, or it stands
/// above or below a member in the tree.
pub open spec fn covered_by(x: Cluster, s: Seq<Cluster>) -> bool {
    exists|t: int|
        0 <= t < s.len() && ((#[trigger] s[t]).same_key(x) || s[t].ancestor_spec(x)
            || x.ancestor_spec(s[t]))
}

/// The sum of a sequence of scores.
pub open spec fn sum_scores(s: Seq<u64>) -> int
    decreases s.len(),
{
    if s.len() == 0 {
        0
    } else {
        sum_scores(s.drop_last()) + s.last()
    }
}

/// Selects every cluster of the subtree standing at half the depth of the
/// subtree's root.  The root is the first entry of `subtree`.
#[verifier::loop_isolation(false)]
pub fn select_clusters(subtree: &Vec<Cluster>) -> (r: Vec<Cluster>)
    requires
        subtree@.len() >= 1,
    ensures
        r@ == subtree@.filter(|c: Cluster| c.depth == subtree@[0].depth / 2),
{
    let target = subtree[0].depth / 2;
    let ghost pred = |c: Cluster| c.depth == subtree@[0].depth / 2;
    let mut r: Vec<Cluster> = Vec::new();
    let mut i: usize = 0;
    proof {
        reveal(Seq::filter);
        assert(subtree@.take(0).filter(pred) =~= Seq::<Cluster>::empty());
    }
    while i < subtree.len()
        invariant
            i <= subtree@.len(),
            target == subtree@[0].depth / 2,
            r@ == subtree@.take(i as int).filter(pred),
        decreases subtree@.len() - i,
    {
        let c = subtree[i];
        proof {
            reveal(Seq::filter);
            assert(subtree@.take(i + 1).drop_last() =~= subtree@.take(i as int));
            assert(subtree@.take(i + 1).last() == c);
        }
        if c.depth == target {
            r.push(c);
        }
        i += 1;
    }
    proof {
        assert(subtree@.take(subtree@.len() as int) =~= subtree@);
    }
    r
}

/// Pairs every cluster of the subtree with its score and orders the result
/// from the highest priority down, so that draining it yields a
/// non-increasing score sequence.
#[verifier::loop_isolation(false)]
#[verifier::rlimit(100)]
pub fn score_clusters(subtree: &Vec<Cluster>, scores: &Vec<u64>) -> (r: Vec<ClusterWrapper>)
    requires
        scores@.len() == subtree@.len(),
    ensures
        r@.len() == subtree@.len(),
        sorted_by_priority(r@),
        r@.to_multiset() == wrapped(subtree@, scores@).to_multiset(),
{
    broadcast use group_to_multiset_ensures;

    let ghost all = wrapped(subtree@, scores@);
    let mut rem: Vec<ClusterWrapper> = Vec::new();
    let mut i: usize = 0;
    while i < subtree.len()
        invariant
            i <= subtree@.len(),
            rem@.len() == i,
            forall|t: int| 0 <= t < i ==> (#[trigger] rem@[t]) == all[t],
        decreases subtree@.len() - i,
    {
        rem.push(ClusterWrapper { cluster: subtree[i], score: scores[i] });
        i += 1;
    }
    proof {
        assert(rem@ =~= all);
    }
    let mut out: Vec<ClusterWrapper> = Vec::new();
    while rem.len() > 0
        invariant
            sorted_by_priority(out@),
            out@.to_multiset().add(rem@.to_multiset()) == all.to_multiset(),
            out@.len() + rem@.len() == all.len(),
            forall|a: int, b: int|
                0 <= a < out@.len() && 0 <= b < rem@.len() ==> #[trigger] priority_geq(
                    out@[a],
                    #[trigger] rem@[b],
                ),
        decreases rem@.len(),
    {
        // Find the highest-priority remaining wrapper.
        let mut best: usize = 0;
        let mut j: usize = 1;
        while j < rem.len()
            invariant
                best < j <= rem@.len(),
                forall|t: int| 0 <= t < j ==> #[trigger] priority_geq(rem@[best as int], rem@[t]),
            decreases rem@.len() - j,
        {
            let b = rem[best];
            let c = rem[j];
            if !(b.score > c.score || (b.score == c.score && b.cluster.depth <= c.cluster.depth)) {
                proof {
                    assert forall|t: int| 0 <= t < j + 1 implies #[trigger] priority_geq(
                        rem@[j as int],
                        rem@[t],
                    ) by {
                        assert(priority_geq(rem@[j as int], rem@[best as int]));
                        if t < j {
                            assert(priority_geq(rem@[best as int], rem@[t]));
                        }
                    }
                }
                best = j;
            }
            j += 1;
        }
        let w = rem.remove(best);
        let ghost out0 = out@;
        out.push(w);
        proof {
            assert(out@.to_multiset().add(rem@.to_multiset()) =~= all.to_multiset());
            assert forall|a: int, b: int|
                0 <= a < out@.len() && 0 <= b < rem@.len() implies #[trigger] priority_geq(
                out@[a],
                #[trigger] rem@[b],
            ) by {
                if a < out0.len() {
                    assert(out@[a] == out0[a]);
                }
            }
        }
    }
    proof {
        assert(rem@.to_multiset().len() == 0);
        assert(rem@.to_multiset() =~= Multiset::<ClusterWrapper>::empty());
        assert(out@.to_multiset() =~= all.to_multiset());
    }
    out
}

/// Greedily extracts an antichain from a priority-ordered candidate
/// collection: the best candidate is selected, every candidate standing
/// above or below it in the tree is discarded, and the process repeats
/// until no candidate is left.
#[verifier::loop_isolation(false)]
#[verifier::rlimit(100)]
pub fn get_clusterset(clusters: Vec<ClusterWrapper>) -> (r: Vec<Cluster>)
    requires
        all_wf(clusters_of(clusters@)),
        distinct_keys(clusters_of(clusters@)),
        sorted_by_priority(clusters@),
    ensures
        forall|t: int| 0 <= t < r@.len() ==> clusters_of(clusters@).contains(#[trigger] r@[t]),
        all_wf(r@),
        distinct_keys(r@),
        forall|a: int, b: int|
            0 <= a < r@.len() && 0 <= b < r@.len() && a != b ==> !(#[trigger] r@[a]).related(
                #[trigger] r@[b],
            ),
        forall|i: int|
            0 <= i < clusters@.len() ==> covered_by((#[trigger] clusters@[i]).cluster, r@),
        clusters@.len() > 0 ==> r@.len() > 0 && r@[0] == clusters@[0].cluster,
        r@.len() == 0 <==> clusters@.len() == 0,
{
    let ghost all = clusters@;
    let mut remaining = clusters;
    let mut picked: Vec<Cluster> = Vec::new();
    proof {
        assert forall|t: int| 0 <= t < remaining@.len() implies clusters_of(all).contains(
            (#[trigger] remaining@[t]).cluster,
        ) by {
            assert(clusters_of(all)[t] == remaining@[t].cluster);
        }
    }
    while remaining.len() > 0
        invariant
            (picked@.len() == 0 && remaining@ == all) || (picked@.len() > 0 && all.len() > 0
                && picked@[0] == all[0].cluster),
            all_wf(clusters_of(remaining@)),
            distinct_keys(clusters_of(remaining@)),
            all_wf(picked@),
            distinct_keys(picked@),
            forall|t: int|
                0 <= t < picked@.len() ==> clusters_of(all).contains(#[trigger] picked@[t]),
            forall|w: int, p: int|
                0 <= w < remaining@.len() && 0 <= p < picked@.len() ==> !(#[trigger] remaining@[w])
                    .cluster.related(#[trigger] picked@[p]) && !remaining@[w].cluster.same_key(
                    picked@[p],
                ),
            forall|a: int, b: int|
                0 <= a < picked@.len() && 0 <= b < picked@.len() && a != b ==> !(
                #[trigger] picked@[a]).related(#[trigger] picked@[b]),
            forall|i: int|
                0 <= i < all.len() ==> (covered_by((#[trigger] all[i]).cluster, picked@) || exists|
                    t: int,
                |
                    0 <= t < remaining@.len() && (#[trigger] remaining@[t]) == all[i]),
            forall|t: int|
                0 <= t < remaining@.len() ==> clusters_of(all).contains(
                    (#[trigger] remaining@[t]).cluster,
                ),
        decreases remaining@.len(),
    {
        let ghost rem0 = remaining@;
        let best = remaining[0].cluster;
        let ghost picked0 = picked@;
        proof {
            assert(clusters_of(rem0)[0] == best);
        }
        picked.push(best);
        proof {
            if picked0.len() == 0 {
                assert(rem0 == all);
                assert(picked@[0] == all[0].cluster);
            } else {
                assert(picked@[0] == picked0[0]);
            }
        }
        proof {
            assert(clusters_of(all).contains(best));
            assert forall|a: int, b: int|
                0 <= a < picked@.len() && 0 <= b < picked@.len() && a != b implies !(
            #[trigger] picked@[a]).related(#[trigger] picked@[b]) by {
                if a < picked0.len() && b < picked0.len() {
                    assert(picked@[a] == picked0[a] && picked@[b] == picked0[b]);
                } else if b == picked0.len() {
                    assert(!rem0[0].cluster.related(picked0[a]));
                    assert(picked@[b] == best);
                } else {
                    assert(a == picked0.len());
                    assert(!rem0[0].cluster.related(picked0[b]));
                }
            }
            assert forall|a: int, b: int| 0 <= a < b < picked@.len() implies !(
            #[trigger] picked@[a]).same_key(#[trigger] picked@[b]) by {
                if b == picked0.len() {
                    assert(!rem0[0].cluster.same_key(picked0[a]));
                }
            }
        }
        // Discard every remaining candidate related to the selection.
        let mut kept: Vec<ClusterWrapper> = Vec::new();
        let ghost mut idxs: Seq<int> = Seq::empty();
        let mut t: usize = 1;
        while t < remaining.len()
            invariant
                1 <= t <= rem0.len(),
                remaining@ == rem0,
                best == rem0[0].cluster,
                idxs.len() == kept@.len(),
                forall|u: int| 0 <= u < idxs.len() ==> 1 <= #[trigger] idxs[u] < t,
                forall|u1: int, u2: int| 0 <= u1 < u2 < idxs.len() ==> idxs[u1] < idxs[u2],
                forall|u: int|
                    0 <= u < kept@.len() ==> (#[trigger] kept@[u]) == rem0[idxs[u]],
                forall|u: int|
                    0 <= u < kept@.len() ==> !(#[trigger] kept@[u]).cluster.related(best),
                forall|v: int|
                    1 <= v < t ==> ((#[trigger] rem0[v]).cluster.related(best)
                        || kept@.contains(rem0[v])),
            decreases rem0.len() - t,
        {
            let w = remaining[t];
            proof {
                assert(clusters_of(rem0)[t as int] == w.cluster);
            }
            let related = w.cluster.is_ancestor_of(&best) || w.cluster.is_descendant_of(&best);
            if !related {
                let ghost kept0 = kept@;
                kept.push(w);
                proof {
                    idxs = idxs.push(t as int);
                    assert(kept@.contains(rem0[t as int])) by {
                        assert(kept@[kept@.len() - 1] == rem0[t as int]);
                    }
                    assert forall|v: int|
                        1 <= v < t && !(#[trigger] rem0[v]).cluster.related(best) implies
                        kept@.contains(rem0[v]) by {
                        let u = choose|u: int| 0 <= u < kept0.len() && kept0[u] == rem0[v];
                        assert(kept@[u] == rem0[v]);
                    }
                }
            }
            t += 1;
        }
        proof {
            lemma_increasing_positions(idxs);
            if kept@.len() > 0 {
                assert(idxs[idxs.len() - 1] >= idxs.len());
                assert(idxs[idxs.len() - 1] < rem0.len());
            }
            assert(kept@.len() < rem0.len());
        }
        remaining = kept;
        proof {
            // The kept candidates inherit the standing facts through their
            // original positions.
            assert forall|u: int| 0 <= u < remaining@.len() implies clusters_of(all).contains(
                (#[trigger] remaining@[u]).cluster,
            ) by {
                assert(remaining@[u] == rem0[idxs[u]]);
            }
            assert forall|u1: int, u2: int|
                0 <= u1 < u2 < clusters_of(remaining@).len() implies !(#[trigger] clusters_of(
                remaining@,
            )[u1]).same_key(#[trigger] clusters_of(remaining@)[u2]) by {
                assert(clusters_of(remaining@)[u1] == rem0[idxs[u1]].cluster);
                assert(clusters_of(remaining@)[u2] == rem0[idxs[u2]].cluster);
                assert(clusters_of(rem0)[idxs[u1]] == rem0[idxs[u1]].cluster);
                assert(clusters_of(rem0)[idxs[u2]] == rem0[idxs[u2]].cluster);
            }
            assert forall|u: int| 0 <= u < clusters_of(remaining@).len() implies (
            #[trigger] clusters_of(remaining@)[u]).wf() by {
                assert(clusters_of(remaining@)[u] == rem0[idxs[u]].cluster);
                assert(clusters_of(rem0)[idxs[u]] == rem0[idxs[u]].cluster);
                assert(clusters_of(rem0)[idxs[u]].wf());
            }
            assert forall|w: int, p: int|
                0 <= w < remaining@.len() && 0 <= p < picked@.len() implies !(
            #[trigger] remaining@[w]).cluster.related(#[trigger] picked@[p]) && !remaining@[w]
                .cluster.same_key(picked@[p]) by {
                assert(remaining@[w] == rem0[idxs[w]]);
                if p < picked0.len() {
                    assert(picked@[p] == picked0[p]);
                    assert(!rem0[idxs[w]].cluster.related(picked0[p]));
                    assert(!rem0[idxs[w]].cluster.same_key(picked0[p]));
                } else {
                    assert(picked@[p] == best);
                    assert(!remaining@[w].cluster.related(best));
                    // Distinct keys in the old queue separate the kept
                    // candidate from the selected one.
                    assert(clusters_of(rem0)[idxs[w]] == rem0[idxs[w]].cluster);
                    assert(clusters_of(rem0)[0] == best);
                    assert(!clusters_of(rem0)[0].same_key(clusters_of(rem0)[idxs[w]]));
                    assert(!rem0[idxs[w]].cluster.same_key(best));
                }
            }
            // Coverage: everything not kept is now accounted for.
            assert forall|i: int| 0 <= i < all.len() implies (covered_by(
                (#[trigger] all[i]).cluster,
                picked@,
            ) || exists|t: int|
                0 <= t < remaining@.len() && (#[trigger] remaining@[t]) == all[i]) by {
                if covered_by(all[i].cluster, picked0) {
                    let t = choose|t: int|
                        0 <= t < picked0.len() && ((#[trigger] picked0[t]).same_key(all[i].cluster)
                            || picked0[t].ancestor_spec(all[i].cluster)
                            || all[i].cluster.ancestor_spec(picked0[t]));
                    assert(picked@[t] == picked0[t]);
                } else if exists|v: int| 0 <= v < rem0.len() && (#[trigger] rem0[v]) == all[i] {
                    let v = choose|v: int| 0 <= v < rem0.len() && (#[trigger] rem0[v]) == all[i];
                    if v == 0 {
                        assert(picked@[picked@.len() - 1] == best);
                        assert(best.same_key(all[i].cluster));
                    } else if rem0[v].cluster.related(best) {
                        assert(picked@[picked@.len() - 1] == best);
                        assert(best.ancestor_spec(all[i].cluster) || all[i].cluster.ancestor_spec(
                            best,
                        ));
                    } else {
                        assert(kept@.contains(rem0[v]));
                        let u = choose|u: int| 0 <= u < kept@.len() && kept@[u] == rem0[v];
                        assert(remaining@[u] == all[i]);
                    }
                }
            }
        }
    }
    proof {
        assert forall|i: int| 0 <= i < all.len() implies covered_by(
            (#[trigger] all[i]).cluster,
            picked@,
        ) by {}
    }
    picked
}


/// The pair `(a, b)` with `a < b` has already been examined when the outer
/// scan stands at `(i, j)`.
pub open spec fn pair_done(a: int, b: int, i: int, j: int) -> bool {
    a < i || (a == i && b < j)
}

/// Examines every unordered pair of candidate clusters once and emits an
/// edge for each pair whose metric balls overlap, labelled with the
/// distance between their centers.
#[verifier::rlimit(100)]
pub fn detect_edges(clusters: &Vec<Cluster>, data: &VecDataset) -> (r: Vec<Edge>)
    requires
        data.wf(),
        all_wf(clusters@),
        distinct_keys(clusters@),
        forall|t: int| 0 <= t < clusters@.len() ==> valid_for(#[trigger] clusters@[t], *data),
    ensures
        forall|t: int|
            0 <= t < r@.len() ==> (#[trigger] r@[t]).wf() && key_in(clusters@, r@[t].left)
                && key_in(clusters@, r@[t].right) && !r@[t].left.same_key(r@[t].right),
        forall|t1: int, t2: int|
            0 <= t1 < t2 < r@.len() ==> !(#[trigger] r@[t1]).joins(
                (#[trigger] r@[t2]).left,
                r@[t2].right,
            ),
        forall|a: int, b: int|
            0 <= a < b < clusters@.len() ==> (overlap(*data, #[trigger] clusters@[a], #[trigger] clusters@[b])
                <==> has_edge_between(r@, clusters@[a], clusters@[b])),
        forall|a: int, b: int|
            0 <= a < b < clusters@.len() && overlap(*data, #[trigger] clusters@[a], #[trigger] clusters@[b])
                ==> r@.contains(
                edge_spec(
                    clusters@[a],
                    clusters@[b],
                    crate::dataset::cluster_dist(*data, clusters@[a], clusters@[b]) as u64,
                ),
            ),
{
    let n = clusters.len();
    let mut r: Vec<Edge> = Vec::new();
    let mut i: usize = 0;
    while i < n
        invariant
            data.wf(),
            all_wf(clusters@),
            distinct_keys(clusters@),
            forall|t: int| 0 <= t < clusters@.len() ==> valid_for(#[trigger] clusters@[t], *data),
            n == clusters@.len(),
            i <= n,
            forall|t: int|
                0 <= t < r@.len() ==> (#[trigger] r@[t]).wf() && key_in(clusters@, r@[t].left)
                    && key_in(clusters@, r@[t].right) && !r@[t].left.same_key(r@[t].right),
            forall|t1: int, t2: int|
                0 <= t1 < t2 < r@.len() ==> !(#[trigger] r@[t1]).joins(
                    (#[trigger] r@[t2]).left,
                    r@[t2].right,
                ),
            forall|a: int, b: int|
                0 <= a < b < n ==> (has_edge_between(r@, #[trigger] clusters@[a], #[trigger] clusters@[b])
                    <==> (pair_done(a, b, i as int, i + 1) && overlap(*data, clusters@[a], clusters@[b]))),
            forall|a: int, b: int|
                0 <= a < b < n && pair_done(a, b, i as int, i + 1) && overlap(
                    *data,
                    #[trigger] clusters@[a],
                    #[trigger] clusters@[b],
                ) ==> r@.contains(
                    edge_spec(
                        clusters@[a],
                        clusters@[b],
                        crate::dataset::cluster_dist(*data, clusters@[a], clusters@[b]) as u64,
                    ),
                ),
        decreases n - i,
    {
        let mut j: usize = i + 1;
        while j < n
            invariant
                data.wf(),
                all_wf(clusters@),
                distinct_keys(clusters@),
                forall|t: int| 0 <= t < clusters@.len() ==> valid_for(#[trigger] clusters@[t], *data),
                n == clusters@.len(),
                i < n,
                i < j <= n,
                forall|t: int|
                    0 <= t < r@.len() ==> (#[trigger] r@[t]).wf() && key_in(clusters@, r@[t].left)
                        && key_in(clusters@, r@[t].right) && !r@[t].left.same_key(r@[t].right),
                forall|t1: int, t2: int|
                    0 <= t1 < t2 < r@.len() ==> !(#[trigger] r@[t1]).joins(
                        (#[trigger] r@[t2]).left,
                        r@[t2].right,
                    ),
                forall|a: int, b: int|
                    0 <= a < b < n ==> (has_edge_between(r@, #[trigger] clusters@[a], #[trigger] clusters@[b])
                        <==> (pair_done(a, b, i as int, j as int) && overlap(
                            *data,
                            clusters@[a],
                            clusters@[b],
                        ))),
                forall|a: int, b: int|
                    0 <= a < b < n && pair_done(a, b, i as int, j as int) && overlap(
                        *data,
                        #[trigger] clusters@[a],
                        #[trigger] clusters@[b],
                    ) ==> r@.contains(
                        edge_spec(
                            clusters@[a],
                            clusters@[b],
                            crate::dataset::cluster_dist(*data, clusters@[a], clusters@[b]) as u64,
                        ),
                    ),
            decreases n - j,
        {
            let c1 = clusters[i];
            let c2 = clusters[j];
            proof {
                assert(clusters@[i as int].wf());
                assert(clusters@[j as int].wf());
            }
            let d = cluster_distance(data, &c1, &c2);
            let ghost r0 = r@;
            if d <= c1.radius + c2.radius {
                let e = Edge::new(c1, c2, d);
                proof {
                    // No earlier edge joins this fresh pair.
                    assert forall|t: int| 0 <= t < r0.len() implies !(#[trigger] r0[t]).joins(
                        c1,
                        c2,
                    ) by {
                        if r0[t].joins(c1, c2) {
                            assert(has_edge_between(r0, clusters@[i as int], clusters@[j as int]))
                                by {
                                assert(r0[t].joins(clusters@[i as int], clusters@[j as int]));
                            }
                        }
                    }
                }
                r.push(e);
            }
            proof {
                let es = r@;
                let cl = clusters@;
                assert forall|a: int, b: int| 0 <= a < b < n implies (has_edge_between(
                    es,
                    #[trigger] cl[a],
                    #[trigger] cl[b],
                ) <==> (pair_done(a, b, i as int, j + 1) && overlap(*data, cl[a], cl[b]))) by {
                    let joined_new = es.len() > r0.len();
                    if a == i as int && b == j as int {
                        if overlap(*data, cl[a], cl[b]) {
                            assert(es[es.len() - 1].joins(cl[a], cl[b]));
                            assert(has_edge_between(es, cl[a], cl[b]));
                        } else {
                            if has_edge_between(es, cl[a], cl[b]) {
                                let t = choose|t: int|
                                    0 <= t < es.len() && (#[trigger] es[t]).joins(cl[a], cl[b]);
                                assert(t < r0.len());
                                assert(has_edge_between(r0, cl[a], cl[b]));
                            }
                        }
                    } else {
                        assert(pair_done(a, b, i as int, j + 1) <==> pair_done(
                            a,
                            b,
                            i as int,
                            j as int,
                        ));
                        if has_edge_between(es, cl[a], cl[b]) {
                            let t = choose|t: int|
                                0 <= t < es.len() && (#[trigger] es[t]).joins(cl[a], cl[b]);
                            if t >= r0.len() {
                                // The fresh edge joins exactly the fresh
                                // pair, whose keys are unique.
                                assert(t == es.len() - 1);
                                assert(es[t] == edge_spec(
                                    cl[i as int],
                                    cl[j as int],
                                    crate::dataset::cluster_dist(
                                        *data,
                                        cl[i as int],
                                        cl[j as int],
                                    ) as u64,
                                ));
                                if cl[a].same_key(cl[i as int]) {
                                    crate::cluster::lemma_key_unique_in(cl, cl[a], a, i as int);
                                    crate::cluster::lemma_key_unique_in(cl, cl[b], b, j as int);
                                } else {
                                    crate::cluster::lemma_key_unique_in(cl, cl[a], a, j as int);
                                    crate::cluster::lemma_key_unique_in(cl, cl[b], b, i as int);
                                }
                                assert(false);
                            } else {
                                assert(has_edge_between(r0, cl[a], cl[b]));
                            }
                        }
                        if pair_done(a, b, i as int, j as int) && overlap(*data, cl[a], cl[b]) {
                            assert(r0.contains(
                                edge_spec(
                                    cl[a],
                                    cl[b],
                                    crate::dataset::cluster_dist(*data, cl[a], cl[b]) as u64,
                                ),
                            ));
                            let t = choose|t: int|
                                0 <= t < r0.len() && r0[t] == edge_spec(
                                    cl[a],
                                    cl[b],
                                    crate::dataset::cluster_dist(*data, cl[a], cl[b]) as u64,
                                );
                            assert(es[t] == r0[t]);
                            assert(es[t].joins(cl[a], cl[b]));
                            assert(has_edge_between(es, cl[a], cl[b]));
                        }
                    }
                }
                assert forall|a: int, b: int|
                    0 <= a < b < n && pair_done(a, b, i as int, j + 1) && overlap(
                        *data,
                        #[trigger] cl[a],
                        #[trigger] cl[b],
                    ) implies es.contains(
                    edge_spec(
                        cl[a],
                        cl[b],
                        crate::dataset::cluster_dist(*data, cl[a], cl[b]) as u64,
                    ),
                ) by {
                    if a == i as int && b == j as int {
                        assert(es[es.len() - 1] == edge_spec(
                            cl[a],
                            cl[b],
                            crate::dataset::cluster_dist(*data, cl[a], cl[b]) as u64,
                        ));
                    } else {
                        assert(r0.contains(
                            edge_spec(
                                cl[a],
                                cl[b],
                                crate::dataset::cluster_dist(*data, cl[a], cl[b]) as u64,
                            ),
                        ));
                        let t = choose|t: int|
                            0 <= t < r0.len() && r0[t] == edge_spec(
                                cl[a],
                                cl[b],
                                crate::dataset::cluster_dist(*data, cl[a], cl[b]) as u64,
                            );
                        assert(es[t] == r0[t]);
                    }
                }
            }
            j += 1;
        }
        i += 1;
    }
    r
}

/// The mean of the scores that the ensemble's models assigned to one
/// cluster.
pub fn avg_score(model_scores: &Vec<u64>) -> (r: u64)
    requires
        model_scores@.len() >= 1,
        sum_scores(model_scores@) <= u64::MAX,
    ensures
        r as int == sum_scores(model_scores@) / (model_scores@.len() as int),
{
    let mut sum: u64 = 0;
    let mut i: usize = 0;
    proof {
        lemma_sum_scores_prefix(model_scores@, 0);
    }
    while i < model_scores.len()
        invariant
            i <= model_scores@.len(),
            sum as int == sum_scores(model_scores@.take(i as int)),
            sum_scores(model_scores@) <= u64::MAX,
        decreases model_scores@.len() - i,
    {
        proof {
            assert(model_scores@.take(i + 1).drop_last() =~= model_scores@.take(i as int));
            lemma_sum_scores_prefix(model_scores@, i + 1);
        }
        sum = sum + model_scores[i];
        i += 1;
    }
    proof {
        assert(model_scores@.take(model_scores@.len() as int) =~= model_scores@);
    }
    sum / (model_scores.len() as u64)
}

/// Prefix sums of scores are non-negative and never exceed the full sum.
proof fn lemma_sum_scores_prefix(s: Seq<u64>, t: int)
    requires
        0 <= t <= s.len(),
    ensures
        0 <= sum_scores(s.take(t)),
        sum_scores(s.take(t)) <= sum_scores(s),
    decreases s.len(),
{
    lemma_sum_scores_nonneg(s.take(t));
    if t == s.len() {
        assert(s.take(t) =~= s);
        lemma_sum_scores_nonneg(s);
    } else {
        assert(s.drop_last().take(t) =~= s.take(t));
        lemma_sum_scores_prefix(s.drop_last(), t);
        lemma_sum_scores_nonneg(s);
    }
}

/// A strictly increasing sequence of positions starting at one or later
/// stands everywhere at or above its own index plus one.
proof fn lemma_increasing_positions(idxs: Seq<int>)
    requires
        forall|u: int| 0 <= u < idxs.len() ==> 1 <= #[trigger] idxs[u],
        forall|u1: int, u2: int| 0 <= u1 < u2 < idxs.len() ==> idxs[u1] < idxs[u2],
    ensures
        forall|u: int| 0 <= u < idxs.len() ==> #[trigger] idxs[u] >= u + 1,
    decreases idxs.len(),
{
    if idxs.len() > 0 {
        lemma_increasing_positions(idxs.drop_last());
        assert forall|u: int| 0 <= u < idxs.len() implies #[trigger] idxs[u] >= u + 1 by {
            if u < idxs.len() - 1 {
                assert(idxs.drop_last()[u] == idxs[u]);
            } else if u > 0 {
                assert(idxs.drop_last()[u - 1] == idxs[u - 1]);
                assert(idxs[u - 1] >= u);
                assert(idxs[u - 1] < idxs[u]);
            }
        }
    }
}

proof fn lemma_sum_scores_nonneg(s: Seq<u64>)
    ensures
        0 <= sum_scores(s),
    decreases s.len(),
{
    if s.len() > 0 {
        lemma_sum_scores_nonneg(s.drop_last());
    }
}


/// A reordering of scored wrappers keeps the carried clusters well-formed
/// and their keys pairwise distinct.
pub proof fn lemma_wrapper_multiset_keys(r: Seq<ClusterWrapper>, s: Seq<ClusterWrapper>)
    requires
        r.to_multiset() == s.to_multiset(),
        distinct_keys(clusters_of(s)),
        all_wf(clusters_of(s)),
    ensures
        distinct_keys(clusters_of(r)),
        all_wf(clusters_of(r)),
{
    broadcast use group_to_multiset_ensures;

    assert forall|u: int| 0 <= u < r.len() implies (#[trigger] clusters_of(r)[u]).wf() by {
        assert(r.to_multiset().contains(r[u]));
        assert(s.contains(r[u]));
        let w = choose|w: int| 0 <= w < s.len() && s[w] == r[u];
        assert(clusters_of(s)[w] == r[u].cluster);
    }
    assert forall|u1: int, u2: int| 0 <= u1 < u2 < r.len() implies !(#[trigger] clusters_of(
        r,
    )[u1]).same_key(#[trigger] clusters_of(r)[u2]) by {
        if clusters_of(r)[u1].same_key(clusters_of(r)[u2]) {
            if r[u1] == r[u2] {
                let v = r[u1];
                assert(r.remove(u1).to_multiset() =~= r.to_multiset().remove(v));
                assert(r.remove(u1)[u2 - 1] == v);
                assert(r.remove(u1).contains(v));
                assert(r.remove(u1).to_multiset().contains(v));
                assert(r.to_multiset().count(v) >= 2);
                assert(s.to_multiset().count(v) >= 2);
                assert(s.contains(v));
                let w1 = choose|w1: int| 0 <= w1 < s.len() && s[w1] == v;
                assert(s.remove(w1).to_multiset() =~= s.to_multiset().remove(v));
                assert(s.remove(w1).to_multiset().count(v) >= 1);
                assert(s.remove(w1).contains(v));
                let w2 = choose|w2: int| 0 <= w2 < s.remove(w1).len() && s.remove(w1)[w2] == v;
                let w2o = if w2 < w1 {
                    w2
                } else {
                    w2 + 1
                };
                assert(s[w2o] == v);
                assert(clusters_of(s)[w1] == v.cluster && clusters_of(s)[w2o] == v.cluster);
                if w1 < w2o {
                    assert(!clusters_of(s)[w1].same_key(clusters_of(s)[w2o]));
                } else {
                    assert(!clusters_of(s)[w2o].same_key(clusters_of(s)[w1]));
                }
            } else {
                assert(s.contains(r[u1])) by {
                    assert(r.to_multiset().contains(r[u1]));
                }
                assert(s.contains(r[u2])) by {
                    assert(r.to_multiset().contains(r[u2]));
                }
                let w1 = choose|w1: int| 0 <= w1 < s.len() && s[w1] == r[u1];
                let w2 = choose|w2: int| 0 <= w2 < s.len() && s[w2] == r[u2];
                assert(w1 != w2);
                assert(clusters_of(s)[w1] == r[u1].cluster && clusters_of(s)[w2] == r[u2].cluster);
                if w1 < w2 {
                    assert(!clusters_of(s)[w1].same_key(clusters_of(s)[w2]));
                } else {
                    assert(!clusters_of(s)[w2].same_key(clusters_of(s)[w1]));
                }
            }
        }
    }
}

/// Every wrapper of a reordered collection carries a cluster of the
/// original collection.
pub proof fn lemma_wrapper_member(r: Seq<ClusterWrapper>, s: Seq<ClusterWrapper>, w: int)
    requires
        r.to_multiset() == s.to_multiset(),
        0 <= w < r.len(),
    ensures
        clusters_of(s).contains(r[w].cluster),
{
    broadcast use group_to_multiset_ensures;

    assert(r.to_multiset().contains(r[w]));
    assert(s.contains(r[w]));
    let u = choose|u: int| 0 <= u < s.len() && s[u] == r[w];
    assert(clusters_of(s)[u] == r[w].cluster);
}

} // verus!
