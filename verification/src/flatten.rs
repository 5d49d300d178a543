//! Reflattening the compact graph into a single component, ordered by
//! tree offset, for terminal export.

use vstd::prelude::*;
use vstd::seq_lib::group_to_multiset_ensures;

use crate::component::prefix_n;
use crate::component::prefix_pop;
use crate::component::lemma_prefix_pop_bounds;
use crate::component::sum_triple_card;
use crate::component::sum_triple_card_upto;
use crate::component::lemma_prefix_n_bounds;
use crate::component::lemma_sum_triple_card_mono;
use crate::component::sel;
use crate::component::Component;
use crate::component::Graph;

verus! {

/// The member records of all components, in component order.
pub open spec fn concat_triples(comps: Seq<Component>) -> Seq<(usize, usize, usize)>
    decreases comps.len(),
{
    if comps.len() == 0 {
        Seq::<(usize, usize, usize)>::empty()
    } else {
        concat_triples(comps.drop_last()) + comps.last().clusters@
    }
}

/// The cardinality ratios of all components, in component order.
pub open spec fn concat_cp(comps: Seq<Component>) -> Seq<u64>
    decreases comps.len(),
{
    if comps.len() == 0 {
        Seq::<u64>::empty()
    } else {
        concat_cp(comps.drop_last()) + comps.last().accumulated_cp_car_ratios@
    }
}

/// The ratio features of all components, in component order.
pub open spec fn concat_props(comps: Seq<Component>) -> Seq<crate::cluster::Ratios>
    decreases comps.len(),
{
    if comps.len() == 0 {
        Seq::<crate::cluster::Ratios>::empty()
    } else {
        concat_props(comps.drop_last()) + comps.last().anomaly_properties@
    }
}

/// Positions `p` and `q` of the flattened member order are neighbors at
/// distance `d`: they lie in the same component's block, and that
/// component records the edge.
pub open spec fn flat_has_nbr(comps: Seq<Component>, p: int, q: int, d: u64) -> bool {
    exists|c: int|
        0 <= c < comps.len() && prefix_n(comps, c) <= p < prefix_n(comps, c + 1) && prefix_n(
            comps,
            c,
        ) <= q < prefix_n(comps, c + 1) && (#[trigger] comps[c]).has_nbr(
            p - prefix_n(comps, c),
            q - prefix_n(comps, c),
            d,
        )
}

/// The single component `c0` is a reordering of the flattened graph along
/// the position map `perm`: records and neighbor relations all transport
/// through it.
pub open spec fn single_reorder(comps: Seq<Component>, c0: Component, perm: Seq<int>) -> bool {
    let n = prefix_n(comps, comps.len() as int);
    &&& perm.len() == n
    &&& c0.n() == n
    &&& forall|a: int| 0 <= a < n ==> 0 <= #[trigger] perm[a] < n
    &&& forall|a: int, b: int|
        0 <= a < n && 0 <= b < n && a != b ==> #[trigger] perm[a] != #[trigger] perm[b]
    &&& forall|a: int|
        0 <= a < n ==> (#[trigger] c0.clusters@[a]) == concat_triples(comps)[perm[a]]
    &&& forall|a: int|
        0 <= a < n ==> (#[trigger] c0.accumulated_cp_car_ratios@[a]) == concat_cp(comps)[perm[a]]
    &&& forall|a: int|
        0 <= a < n ==> (#[trigger] c0.anomaly_properties@[a]) == concat_props(comps)[perm[a]]
    &&& forall|a: int, b: int, d: u64|
        (#[trigger] c0.has_nbr(a, b, d)) <==> (0 <= a < n && 0 <= b < n && flat_has_nbr(
            comps,
            perm[a],
            perm[b],
            d,
        ))
}

/// Every position below the total member count lies in exactly one
/// component's block.
proof fn lemma_pos_block(comps: Seq<Component>, t: int, p: int)
    requires
        0 <= t <= comps.len(),
        0 <= p < prefix_n(comps, t),
    ensures
        exists|c: int|
            0 <= c < t && prefix_n(comps, c) <= p < #[trigger] prefix_n(comps, c + 1),
    decreases t,
{
    if p >= prefix_n(comps, t - 1) {
        assert(0 <= t - 1 < t && prefix_n(comps, t - 1) <= p < prefix_n(comps, (t - 1) + 1));
    } else {
        lemma_pos_block(comps, t - 1, p);
        let c = choose|c: int|
            0 <= c < t - 1 && prefix_n(comps, c) <= p < #[trigger] prefix_n(comps, c + 1);
        assert(0 <= c < t && prefix_n(comps, c) <= p < prefix_n(comps, c + 1));
    }
}

/// Two block intervals never overlap.
proof fn lemma_block_unique(comps: Seq<Component>, c1: int, c2: int, p: int)
    requires
        0 <= c1 < comps.len(),
        0 <= c2 < comps.len(),
        prefix_n(comps, c1) <= p < prefix_n(comps, c1 + 1),
        prefix_n(comps, c2) <= p < prefix_n(comps, c2 + 1),
    ensures
        c1 == c2,
{
    if c1 < c2 {
        lemma_prefix_n_bounds(comps, c1 + 1, c2);
    }
    if c2 < c1 {
        lemma_prefix_n_bounds(comps, c2 + 1, c1);
    }
}

/// Removing one record removes its cardinality from the sum.
proof fn lemma_triple_sum_remove(s: Seq<(usize, usize, usize)>, w: int)
    requires
        0 <= w < s.len(),
    ensures
        sum_triple_card(s.remove(w)) + s[w].1 == sum_triple_card(s),
    decreases s.len(),
{
    let q = s.remove(w);
    if w == s.len() - 1 {
        assert(q =~= s.drop_last());
        lemma_triple_sum_prefix_eq(q, s, w);
    } else {
        lemma_triple_sum_remove(s.drop_last(), w);
        assert(q.drop_last() =~= s.drop_last().remove(w));
        assert(q[q.len() - 1] == s[s.len() - 1]);
        lemma_triple_sum_prefix_eq(q, q.drop_last(), q.len() - 1);
        lemma_triple_sum_prefix_eq(s, s.drop_last(), s.len() - 1);
    }
}

/// Record collections that agree on a prefix have equal prefix sums.
proof fn lemma_triple_sum_prefix_eq(
    a: Seq<(usize, usize, usize)>,
    b: Seq<(usize, usize, usize)>,
    t: int,
)
    requires
        t <= a.len(),
        t <= b.len(),
        forall|u: int| 0 <= u < t ==> a[u] == b[u],
    ensures
        sum_triple_card_upto(a, t) == sum_triple_card_upto(b, t),
    decreases t,
{
    if t > 0 {
        lemma_triple_sum_prefix_eq(a, b, t - 1);
    }
}

/// Selecting along a bijection keeps the record multiset and the
/// population sum.
proof fn lemma_sel_perm(s: Seq<(usize, usize, usize)>, perm: Seq<int>)
    requires
        perm.len() == s.len(),
        forall|a: int| 0 <= a < perm.len() ==> 0 <= #[trigger] perm[a] < s.len(),
        forall|a: int, b: int|
            0 <= a < perm.len() && 0 <= b < perm.len() && a != b ==> #[trigger] perm[a] != (
            #[trigger] perm[b]),
    ensures
        sel(s, perm).to_multiset() == s.to_multiset(),
        sum_triple_card(sel(s, perm)) == sum_triple_card(s),
    decreases s.len(),
{
    broadcast use group_to_multiset_ensures;

    if s.len() == 0 {
        assert(sel(s, perm) =~= Seq::<(usize, usize, usize)>::empty());
        assert(sel(s, perm).to_multiset() =~= s.to_multiset());
    } else {
        let j = perm.last();
        let pprev = perm.drop_last();
        let sprev = s.remove(j);
        let pnext = Seq::new(
            pprev.len(),
            |a: int|
                if pprev[a] < j {
                    pprev[a]
                } else {
                    pprev[a] - 1
                },
        );
        assert forall|a: int| 0 <= a < pnext.len() implies 0 <= #[trigger] pnext[a]
            < sprev.len() by {
            assert(perm[a] != perm[perm.len() - 1]);
        }
        assert forall|a: int, b: int|
            0 <= a < pnext.len() && 0 <= b < pnext.len() && a != b implies #[trigger] pnext[a]
            != (#[trigger] pnext[b]) by {
            assert(perm[a] != perm[b]);
            assert(perm[a] != perm[perm.len() - 1]);
            assert(perm[b] != perm[perm.len() - 1]);
        }
        lemma_sel_perm(sprev, pnext);
        assert(sel(sprev, pnext) =~= sel(s, pprev)) by {
            assert forall|a: int| 0 <= a < pnext.len() implies sel(sprev, pnext)[a] == sel(
                s,
                pprev,
            )[a] by {
                assert(perm[a] != perm[perm.len() - 1]);
                if pprev[a] < j {
                    assert(sprev[pnext[a]] == s[pprev[a]]);
                } else {
                    assert(sprev[pnext[a]] == s[pprev[a]]);
                }
            }
        }
        assert(sel(s, perm) =~= sel(s, pprev).push(s[j]));
        assert(sel(s, perm).to_multiset() =~= sel(s, pprev).to_multiset().insert(s[j]));
        assert(sprev.to_multiset() =~= s.to_multiset().remove(s[j]));
        assert(s.contains(s[j]));
        assert(s.to_multiset().count(s[j]) >= 1);
        assert(sel(s, perm).to_multiset() =~= s.to_multiset());
        lemma_triple_sum_remove(s, j);
        lemma_triple_sum_prefix_eq(sel(s, perm), sel(s, pprev), pprev.len() as int);
        assert(sum_triple_card(sel(s, perm)) == sum_triple_card(sel(s, pprev)) + s[j].1);
    }
}


/// The concatenation of record collections sums componentwise.
proof fn lemma_triple_sum_append(a: Seq<(usize, usize, usize)>, b: Seq<(usize, usize, usize)>)
    ensures
        sum_triple_card(a + b) == sum_triple_card(a) + sum_triple_card(b),
    decreases b.len(),
{
    if b.len() == 0 {
        assert(a + b =~= a);
    } else {
        lemma_triple_sum_append(a, b.drop_last());
        assert((a + b).drop_last() =~= a + b.drop_last());
        assert((a + b).last() == b.last());
        lemma_triple_sum_prefix_eq(a + b, (a + b).drop_last(), (a + b).len() - 1);
        lemma_triple_sum_prefix_eq(b, b.drop_last(), b.len() - 1);
    }
}

impl Graph {
    /// Appends every component's per-member arrays into one unpartitioned
    /// component, shifting neighbor entries by each component's base
    /// position.
    #[verifier::rlimit(100)]
    fn flatten(&self) -> (r: Component)
        requires
            self.wf(),
        ensures
            r.wf(),
            r.clusters@ == concat_triples(self.components@),
            r.accumulated_cp_car_ratios@ == concat_cp(self.components@),
            r.anomaly_properties@ == concat_props(self.components@),
            r.n() == prefix_n(self.components@, self.components@.len() as int),
            forall|p: int, q: int, d: u64|
                (#[trigger] r.has_nbr(p, q, d)) <==> flat_has_nbr(self.components@, p, q, d),
            r.eccentricities is None,
            r.diameter is None,
            r.neighborhood_sizes is None,
    {
        let ghost comps = self.components@;
        let k = self.components.len();
        let mut triples: Vec<(usize, usize, usize)> = Vec::new();
        let mut cp: Vec<u64> = Vec::new();
        let mut props: Vec<crate::cluster::Ratios> = Vec::new();
        let mut adjacency: Vec<Vec<(usize, u64)>> = Vec::new();
        let mut population: usize = 0;
        let mut c: usize = 0;
        while c < k
            invariant
                self.wf(),
                comps == self.components@,
                k == comps.len(),
                c <= k,
                triples@ == concat_triples(comps.take(c as int)),
                cp@ == concat_cp(comps.take(c as int)),
                props@ == concat_props(comps.take(c as int)),
                triples@.len() == prefix_n(comps, c as int),
                cp@.len() == triples@.len(),
                props@.len() == triples@.len(),
                adjacency@.len() == triples@.len(),
                population as int == prefix_pop(comps, c as int),
                population as int == sum_triple_card(triples@),
                forall|cc: int, i: int|
                    0 <= cc < c && 0 <= i < comps[cc].n() ==> (#[trigger] adjacency@[prefix_n(
                        comps,
                        cc,
                    ) + i])@ == comps[cc].adjacency_list@[i]@.map_values(
                        |e: (usize, u64)| (((e.0 + prefix_n(comps, cc)) as usize), e.1),
                    ),
            decreases k - c,
        {
            proof {
                lemma_prefix_n_bounds(comps, c + 1, k as int);
                lemma_prefix_n_bounds(comps, 0, c as int);
                lemma_prefix_pop_bounds(comps, c + 1, k as int);
                assert(prefix_pop(comps, k as int) <= usize::MAX) by {
                    assert(self.populations@.len() == k);
                    if k > 0 {
                        assert((self.populations@[k - 1] as int) == prefix_pop(comps, k as int));
                    }
                }
                assert(prefix_n(comps, k as int) <= usize::MAX);
            }
            let comp = &self.components[c];
            let base = triples.len();
            let nc = comp.clusters.len();
            proof {
                crate::component::lemma_block_bound(comps, c as int);
            }
            let mut i: usize = 0;
            while i < nc
                invariant
                    forall|cc: int|
                        0 <= cc < c ==> prefix_n(comps, cc) + (#[trigger] comps[cc]).n()
                            <= base as int,
                    self.wf(),
                    comps == self.components@,
                    (c as int) < comps.len(),
                    comp == comps[c as int],
                    comp.wf(),
                    nc == comp.n(),
                    base as int == prefix_n(comps, c as int),
                    base + nc <= usize::MAX,
                    i <= nc,
                    triples@ == concat_triples(comps.take(c as int)) + comp.clusters@.take(
                        i as int,
                    ),
                    cp@ == concat_cp(comps.take(c as int))
                        + comp.accumulated_cp_car_ratios@.take(i as int),
                    props@ == concat_props(comps.take(c as int)) + comp.anomaly_properties@.take(
                        i as int,
                    ),
                    triples@.len() == base + i,
                    cp@.len() == triples@.len(),
                    props@.len() == triples@.len(),
                    adjacency@.len() == triples@.len(),
                    forall|cc: int, ii: int|
                        0 <= cc < c && 0 <= ii < comps[cc].n() ==> (#[trigger] adjacency@[prefix_n(
                            comps,
                            cc,
                        ) + ii])@ == comps[cc].adjacency_list@[ii]@.map_values(
                            |e: (usize, u64)| (((e.0 + prefix_n(comps, cc)) as usize), e.1),
                        ),
                    forall|ii: int|
                        0 <= ii < i ==> (#[trigger] adjacency@[base + ii])@
                            == comp.adjacency_list@[ii]@.map_values(
                            |e: (usize, u64)| (((e.0 + prefix_n(comps, c as int)) as usize), e.1),
                        ),
                decreases nc - i,
            {
                let row = &comp.adjacency_list[i];
                let mut nr: Vec<(usize, u64)> = Vec::new();
                let mut t: usize = 0;
                while t < row.len()
                    invariant
                        comp.wf(),
                        (c as int) < comps.len(),
                        comp == comps[c as int],
                        (i as int) < comp.n(),
                        row == comp.adjacency_list@[i as int],
                        base as int == prefix_n(comps, c as int),
                        base + comp.n() <= usize::MAX,
                        t <= row@.len(),
                        nr@.len() == t,
                        forall|u: int|
                            0 <= u < t ==> (#[trigger] nr@[u]) == (
                            ((row@[u].0 + prefix_n(comps, c as int)) as usize),
                            row@[u].1,
                        ),
                    decreases row@.len() - t,
                {
                    let e = row[t];
                    proof {
                        assert((e.0 as int) < comp.n());
                    }
                    nr.push((e.0 + base, e.1));
                    t += 1;
                }
                let ghost adj0 = adjacency@;
                let ghost nrv = nr;
                adjacency.push(nr);
                proof {
                    assert(nrv@ =~= comp.adjacency_list@[i as int]@.map_values(
                        |e: (usize, u64)| (((e.0 + prefix_n(comps, c as int)) as usize), e.1),
                    ));
                    assert(adjacency@ == adj0.push(nrv));
                    assert forall|u: int| 0 <= u < adj0.len() implies adjacency@[u] == adj0[u] by {
                        assert(adj0.push(nrv)[u] == adj0[u]);
                    }
                    assert forall|cc: int, ii: int|
                        0 <= cc < c && 0 <= ii < comps[cc].n() implies (#[trigger] adjacency@[
                    prefix_n(comps, cc) + ii])@ == comps[cc].adjacency_list@[ii]@.map_values(
                        |e: (usize, u64)| (((e.0 + prefix_n(comps, cc)) as usize), e.1),
                    ) by {
                        lemma_prefix_n_bounds(comps, cc, c as int);
                        assert(prefix_n(comps, cc) + ii < base as int);
                        assert(adjacency@[prefix_n(comps, cc) + ii] == adj0[prefix_n(comps, cc)
                            + ii]);
                    }
                }
                let ghost tr0 = triples@;
                let cl = comp.clusters[i];
                triples.push(cl);
                cp.push(comp.accumulated_cp_car_ratios[i]);
                props.push(comp.anomaly_properties[i]);
                proof {
                    assert(comp.clusters@.take(i + 1) =~= comp.clusters@.take(i as int).push(cl));
                    assert(triples@ =~= concat_triples(comps.take(c as int)) + comp.clusters@.take(
                        i + 1,
                    ));
                    assert(comp.accumulated_cp_car_ratios@.take(i + 1)
                        =~= comp.accumulated_cp_car_ratios@.take(i as int).push(
                        comp.accumulated_cp_car_ratios@[i as int],
                    ));
                    assert(cp@ =~= concat_cp(comps.take(c as int))
                        + comp.accumulated_cp_car_ratios@.take(i + 1));
                    assert(comp.anomaly_properties@.take(i + 1)
                        =~= comp.anomaly_properties@.take(i as int).push(
                        comp.anomaly_properties@[i as int],
                    ));
                    assert(props@ =~= concat_props(comps.take(c as int))
                        + comp.anomaly_properties@.take(i + 1));
                }
                i += 1;
            }
            proof {
                assert forall|ii: int| 0 <= ii < comps[c as int].n() implies (
                #[trigger] adjacency@[prefix_n(comps, c as int) + ii])@
                    == comps[c as int].adjacency_list@[ii]@.map_values(
                    |e: (usize, u64)| (((e.0 + prefix_n(comps, c as int)) as usize), e.1),
                ) by {
                    assert(adjacency@[base + ii]@ == comp.adjacency_list@[ii]@.map_values(
                        |e: (usize, u64)| (((e.0 + prefix_n(comps, c as int)) as usize), e.1),
                    ));
                }
                // One more component absorbed.
                assert(comp.clusters@.take(nc as int) =~= comp.clusters@);
                assert(comp.accumulated_cp_car_ratios@.take(nc as int)
                    =~= comp.accumulated_cp_car_ratios@);
                assert(comp.anomaly_properties@.take(nc as int) =~= comp.anomaly_properties@);
                assert(comps.take(c + 1).drop_last() =~= comps.take(c as int));
                assert(comps.take(c + 1).last() == comps[c as int]);
                assert(triples@ =~= concat_triples(comps.take(c + 1)));
                assert(cp@ =~= concat_cp(comps.take(c + 1)));
                assert(props@ =~= concat_props(comps.take(c + 1)));
                lemma_triple_sum_append(concat_triples(comps.take(c as int)), comp.clusters@);
            }
            population = population + comp.population;
            c += 1;
        }
        let r = Component {
            clusters: triples,
            adjacency_list: adjacency,
            population,
            eccentricities: None,
            diameter: None,
            neighborhood_sizes: None,
            accumulated_cp_car_ratios: cp,
            anomaly_properties: props,
        };
        proof {
            assert(comps.take(k as int) =~= comps);
            self.lemma_flat_wf(r);
        }
        r
    }
}


impl Graph {
    /// The assembled flat component is well-formed, and its neighbor
    /// relation is exactly the blockwise relation of the components.
    #[verifier::rlimit(100)]
    proof fn lemma_flat_wf(self, r: Component)
        requires
            self.wf(),
            r.clusters@ == concat_triples(self.components@),
            r.accumulated_cp_car_ratios@ == concat_cp(self.components@),
            r.anomaly_properties@ == concat_props(self.components@),
            r.clusters@.len() == prefix_n(self.components@, self.components@.len() as int),
            r.adjacency_list@.len() == r.clusters@.len(),
            r.accumulated_cp_car_ratios@.len() == r.clusters@.len(),
            r.anomaly_properties@.len() == r.clusters@.len(),
            r.population as int == sum_triple_card(r.clusters@),
            r.eccentricities is None,
            r.diameter is None,
            r.neighborhood_sizes is None,
            forall|cc: int, i: int|
                0 <= cc < self.components@.len() && 0 <= i < self.components@[cc].n() ==> (
                #[trigger] r.adjacency_list@[prefix_n(self.components@, cc) + i])@
                    == self.components@[cc].adjacency_list@[i]@.map_values(
                    |e: (usize, u64)| (((e.0 + prefix_n(self.components@, cc)) as usize), e.1),
                ),
        ensures
            r.wf(),
            forall|p: int, q: int, d: u64|
                (#[trigger] r.has_nbr(p, q, d)) <==> flat_has_nbr(self.components@, p, q, d),
    {
        let comps = self.components@;
        let k = comps.len() as int;
        let n = prefix_n(comps, k);
        assert(n <= usize::MAX);
        // Row entries stay inside their own block.
        assert forall|p: int, t: int|
            0 <= p < n && 0 <= t < r.adjacency_list@[p]@.len() implies ((
        #[trigger] r.adjacency_list@[p]@[t]).0 as int) < n && (r.adjacency_list@[p]@[t].0 as int)
            != p by {
            lemma_pos_block(comps, k, p);
            let c = choose|c: int|
                0 <= c < k && prefix_n(comps, c) <= p < #[trigger] prefix_n(comps, c + 1);
            let i = p - prefix_n(comps, c);
            assert(r.adjacency_list@[prefix_n(comps, c) + i]@
                == comps[c].adjacency_list@[i]@.map_values(
                |e: (usize, u64)| (((e.0 + prefix_n(comps, c)) as usize), e.1),
            ));
            let e = comps[c].adjacency_list@[i]@[t];
            assert((e.0 as int) < comps[c].n() && (e.0 as int) != i);
            lemma_prefix_n_bounds(comps, c + 1, k);
            lemma_prefix_n_bounds(comps, c, k);
            assert(prefix_n(comps, c + 1) == prefix_n(comps, c) + comps[c].n());
            assert(0 <= e.0 + prefix_n(comps, c) <= usize::MAX);
            assert((r.adjacency_list@[p]@[t].0 as int) == e.0 + prefix_n(comps, c));
        }
        assert forall|p: int, t1: int, t2: int|
            0 <= p < n && 0 <= t1 < t2 < r.adjacency_list@[p]@.len() implies (
        #[trigger] r.adjacency_list@[p]@[t1]).0 != (#[trigger] r.adjacency_list@[p]@[t2]).0 by {
            lemma_pos_block(comps, k, p);
            let c = choose|c: int|
                0 <= c < k && prefix_n(comps, c) <= p < #[trigger] prefix_n(comps, c + 1);
            let i = p - prefix_n(comps, c);
            assert(r.adjacency_list@[prefix_n(comps, c) + i]@
                == comps[c].adjacency_list@[i]@.map_values(
                |e: (usize, u64)| (((e.0 + prefix_n(comps, c)) as usize), e.1),
            ));
            lemma_prefix_n_bounds(comps, c + 1, k);
            lemma_prefix_n_bounds(comps, c, k);
            assert(prefix_n(comps, c + 1) == prefix_n(comps, c) + comps[c].n());
            let e1 = comps[c].adjacency_list@[i]@[t1];
            let e2 = comps[c].adjacency_list@[i]@[t2];
            assert(e1.0 != e2.0);
            assert((e1.0 as int) < comps[c].n() && (e2.0 as int) < comps[c].n());
            assert((r.adjacency_list@[p]@[t1].0 as int) == e1.0 + prefix_n(comps, c));
            assert((r.adjacency_list@[p]@[t2].0 as int) == e2.0 + prefix_n(comps, c));
        }
        // The neighbor relation is the blockwise relation.
        assert forall|p: int, q: int, d: u64| (#[trigger] r.has_nbr(p, q, d)) implies flat_has_nbr(
            comps,
            p,
            q,
            d,
        ) by {
            let t = choose|t: int|
                0 <= t < r.adjacency_list@[p]@.len() && ((#[trigger] r.adjacency_list@[p]@[t]).0
                    as int) == q && r.adjacency_list@[p]@[t].1 == d;
            lemma_pos_block(comps, k, p);
            let c = choose|c: int|
                0 <= c < k && prefix_n(comps, c) <= p < #[trigger] prefix_n(comps, c + 1);
            let i = p - prefix_n(comps, c);
            assert(r.adjacency_list@[prefix_n(comps, c) + i]@
                == comps[c].adjacency_list@[i]@.map_values(
                |e: (usize, u64)| (((e.0 + prefix_n(comps, c)) as usize), e.1),
            ));
            let e = comps[c].adjacency_list@[i]@[t];
            assert((e.0 as int) < comps[c].n());
            lemma_prefix_n_bounds(comps, c + 1, k);
            lemma_prefix_n_bounds(comps, c, k);
            assert(prefix_n(comps, c + 1) == prefix_n(comps, c) + comps[c].n());
            assert(q == e.0 + prefix_n(comps, c));
            assert(comps[c].has_nbr(i, e.0 as int, d)) by {
                assert(((comps[c].adjacency_list@[i]@[t]).0 as int) == e.0 as int);
            }
            assert(prefix_n(comps, c) <= q < prefix_n(comps, c + 1));
        }
        assert forall|p: int, q: int, d: u64|
            flat_has_nbr(comps, p, q, d) implies #[trigger] r.has_nbr(p, q, d) by {
            let c = choose|c: int|
                0 <= c < comps.len() && prefix_n(comps, c) <= p < prefix_n(comps, c + 1)
                    && prefix_n(comps, c) <= q < prefix_n(comps, c + 1) && (
                #[trigger] comps[c]).has_nbr(p - prefix_n(comps, c), q - prefix_n(comps, c), d);
            let i = p - prefix_n(comps, c);
            let j = q - prefix_n(comps, c);
            let t = choose|t: int|
                0 <= t < comps[c].adjacency_list@[i]@.len() && ((
                #[trigger] comps[c].adjacency_list@[i]@[t]).0 as int) == j
                    && comps[c].adjacency_list@[i]@[t].1 == d;
            assert(r.adjacency_list@[prefix_n(comps, c) + i]@
                == comps[c].adjacency_list@[i]@.map_values(
                |e: (usize, u64)| (((e.0 + prefix_n(comps, c)) as usize), e.1),
            ));
            lemma_prefix_n_bounds(comps, c + 1, k);
            lemma_prefix_n_bounds(comps, c, k);
            assert(prefix_n(comps, c + 1) == prefix_n(comps, c) + comps[c].n());
            assert(0 <= j + prefix_n(comps, c) <= usize::MAX);
            assert((r.adjacency_list@[p]@[t].0 as int) == j + prefix_n(comps, c));
            assert(r.adjacency_list@[p]@[t].1 == d);
        }
        // Symmetry transports blockwise.
        assert forall|p: int, q: int, d: u64| (#[trigger] r.has_nbr(p, q, d)) implies r.has_nbr(
            q,
            p,
            d,
        ) by {
            assert(flat_has_nbr(comps, p, q, d));
            let c = choose|c: int|
                0 <= c < comps.len() && prefix_n(comps, c) <= p < prefix_n(comps, c + 1)
                    && prefix_n(comps, c) <= q < prefix_n(comps, c + 1) && (
                #[trigger] comps[c]).has_nbr(p - prefix_n(comps, c), q - prefix_n(comps, c), d);
            assert(comps[c].has_nbr(q - prefix_n(comps, c), p - prefix_n(comps, c), d));
            assert(flat_has_nbr(comps, q, p, d));
        }
    }
}


impl Graph {
    /// Reflattens all components into a single one, with every per-member
    /// array re-sorted by tree offset and every neighbor entry remapped to
    /// the new positions.  The result deliberately breaks the
    /// per-component connectivity invariant and is meant only for
    /// terminal export or merging, never as input to further
    /// component-aware analytics.
    #[verifier::rlimit(100)]
    pub fn as_single_component(&self) -> (r: Graph)
        requires
            self.wf(),
        ensures
            r.wf(),
            r.components@.len() == 1,
            r.members@ == self.members@,
            r.components@[0].clusters@.to_multiset() == concat_triples(
                self.components@,
            ).to_multiset(),
            forall|u1: int, u2: int|
                0 <= u1 < u2 < r.components@[0].clusters@.len() ==> (
                #[trigger] r.components@[0].clusters@[u1]).0 <= (
                #[trigger] r.components@[0].clusters@[u2]).0,
            exists|perm: Seq<int>| single_reorder(self.components@, r.components@[0], perm),
            r.components@[0].eccentricities is None,
            r.components@[0].diameter is None,
            r.components@[0].neighborhood_sizes is None,
    {
        let ghost comps = self.components@;
        let flat = self.flatten();
        let n = flat.clusters.len();
        // Order the flat positions by member offset.
        let mut rem: Vec<usize> = Vec::new();
        let mut t: usize = 0;
        while t < n
            invariant
                t <= n,
                rem@.len() == t,
                forall|u: int| 0 <= u < t ==> ((#[trigger] rem@[u]) as int) == u,
            decreases n - t,
        {
            rem.push(t);
            t += 1;
        }
        let mut perm: Vec<usize> = Vec::new();
        proof {
            assert forall|j: int| 0 <= j < n implies rem@.contains(#[trigger] (j as usize)) by {
                assert(rem@[j] == j as usize);
            }
        }
        while rem.len() > 0
            invariant
                n == flat.clusters@.len(),
                perm@.len() + rem@.len() == n,
                forall|u: int| 0 <= u < perm@.len() ==> ((#[trigger] perm@[u]) as int) < n,
                forall|u: int| 0 <= u < rem@.len() ==> ((#[trigger] rem@[u]) as int) < n,
                perm@.no_duplicates(),
                rem@.no_duplicates(),
                forall|a: int, b: int|
                    0 <= a < perm@.len() && 0 <= b < rem@.len() ==> (#[trigger] perm@[a]) != (
                    #[trigger] rem@[b]),
                forall|j: int|
                    0 <= j < n ==> (perm@.contains(#[trigger] (j as usize)) || rem@.contains(
                        j as usize,
                    )),
                forall|a: int, b: int|
                    0 <= a < b < perm@.len() ==> (#[trigger] flat.clusters@[perm@[a] as int]).0
                        <= (#[trigger] flat.clusters@[perm@[b] as int]).0,
                forall|a: int, b: int|
                    0 <= a < perm@.len() && 0 <= b < rem@.len() ==> (
                    #[trigger] flat.clusters@[perm@[a] as int]).0 <= (
                    #[trigger] flat.clusters@[rem@[b] as int]).0,
            decreases rem@.len(),
        {
            let mut best: usize = 0;
            let mut j: usize = 1;
            while j < rem.len()
                invariant
                    n == flat.clusters@.len(),
                    forall|u: int| 0 <= u < rem@.len() ==> ((#[trigger] rem@[u]) as int) < n,
                    best < j <= rem@.len(),
                    forall|u: int|
                        0 <= u < j ==> (#[trigger] flat.clusters@[rem@[u] as int]).0
                            >= flat.clusters@[rem@[best as int] as int].0,
                decreases rem@.len() - j,
            {
                if flat.clusters[rem[j]].0 < flat.clusters[rem[best]].0 {
                    best = j;
                }
                j += 1;
            }
            let ghost rem0 = rem@;
            let w = rem.remove(best);
            let ghost perm0 = perm@;
            proof {
                assert(rem0[best as int] == w);
                assert(!perm0.contains(w)) by {
                    if perm0.contains(w) {
                        let a = choose|a: int| 0 <= a < perm0.len() && perm0[a] == w;
                    }
                }
                crate::graph::lemma_push_no_dup(perm0, w);
            }
            perm.push(w);
            proof {
                // The removed entries keep their identities.
                assert forall|b: int| 0 <= b < rem@.len() implies ((#[trigger] rem@[b]) as int) < n
                    && rem@[b] != w by {
                    if b < best as int {
                        assert(rem@[b] == rem0[b]);
                    } else {
                        assert(rem@[b] == rem0[b + 1]);
                    }
                }
                assert forall|a: int, b: int|
                    0 <= a < perm@.len() && 0 <= b < rem@.len() implies (#[trigger] perm@[a]) != (
                #[trigger] rem@[b]) by {
                    if a < perm0.len() {
                        assert(perm@[a] == perm0[a]);
                        if b < best as int {
                            assert(rem@[b] == rem0[b]);
                        } else {
                            assert(rem@[b] == rem0[b + 1]);
                        }
                    } else {
                        assert(perm@[a] == w);
                    }
                }
                assert(rem@.no_duplicates()) by {
                    assert forall|b1: int, b2: int|
                        0 <= b1 < b2 < rem@.len() implies (#[trigger] rem@[b1]) != (
                    #[trigger] rem@[b2]) by {
                        let o1 = if b1 < best as int {
                            b1
                        } else {
                            b1 + 1
                        };
                        let o2 = if b2 < best as int {
                            b2
                        } else {
                            b2 + 1
                        };
                        assert(rem@[b1] == rem0[o1] && rem@[b2] == rem0[o2]);
                    }
                }
                assert forall|jj: int|
                    0 <= jj < n implies (perm@.contains(#[trigger] (jj as usize))
                    || rem@.contains(jj as usize)) by {
                    if perm0.contains(jj as usize) {
                        let a = choose|a: int| 0 <= a < perm0.len() && perm0[a] == jj as usize;
                        assert(perm@[a] == jj as usize);
                        assert(perm@.contains(jj as usize));
                    } else {
                        let b = choose|b: int| 0 <= b < rem0.len() && rem0[b] == jj as usize;
                        if b == best as int {
                            assert(perm@[perm@.len() - 1] == jj as usize);
                            assert(perm@.contains(jj as usize));
                        } else {
                            let bn = if b < best as int {
                                b
                            } else {
                                b - 1
                            };
                            assert(rem@[bn] == jj as usize);
                            assert(rem@.contains(jj as usize));
                        }
                    }
                }
                assert forall|a: int, b: int|
                    0 <= a < perm@.len() && 0 <= b < rem@.len() implies (
                #[trigger] flat.clusters@[perm@[a] as int]).0 <= (
                #[trigger] flat.clusters@[rem@[b] as int]).0 by {
                    let o = if b < best as int {
                        b
                    } else {
                        b + 1
                    };
                    assert(rem@[b] == rem0[o]);
                    if a < perm0.len() {
                        assert(perm@[a] == perm0[a]);
                    } else {
                        assert(perm@[a] == w);
                        assert(flat.clusters@[rem0[o] as int].0
                            >= flat.clusters@[rem0[best as int] as int].0);
                    }
                }
            }
        }
        // Invert the position map.
        let mut inv: Vec<usize> = Vec::new();
        let mut t: usize = 0;
        while t < n
            invariant
                t <= n,
                inv@.len() == t,
            decreases n - t,
        {
            inv.push(0);
            t += 1;
        }
        let mut a: usize = 0;
        while a < perm.len()
            invariant
                n == flat.clusters@.len(),
                perm@.len() == n,
                perm@.no_duplicates(),
                forall|u: int| 0 <= u < perm@.len() ==> ((#[trigger] perm@[u]) as int) < n,
                inv@.len() == n,
                a <= n,
                forall|u: int| 0 <= u < a ==> (inv@[(#[trigger] perm@[u]) as int] as int) == u,
            decreases n - a,
        {
            let p = perm[a];
            inv[p] = a;
            proof {
                assert forall|u: int| 0 <= u < a + 1 implies (inv@[(#[trigger] perm@[u]) as int]
                    as int) == u by {
                    if u < a as int {
                        assert(perm@[u] != perm@[a as int]);
                    }
                }
            }
            a += 1;
        }
        let ghost perm_int = perm@.map_values(|u: usize| u as int);
        proof {
            // Every flat position is selected, so the neighbor closure
            // holds trivially.
            assert forall|u: int, t: int|
                0 <= u < perm@.len() && 0 <= t
                    < flat.adjacency_list@[perm@[u] as int]@.len() implies crate::component::selected(
                perm@,
                (#[trigger] flat.adjacency_list@[perm@[u] as int]@[t]).0,
            ) by {
                let e = flat.adjacency_list@[perm@[u] as int]@[t].0;
                assert((e as int) < flat.n());
                assert(((e as int) as usize) == e);
                assert(perm@.contains(#[trigger] ((e as int) as usize)) || rem@.contains(
                    (e as int) as usize,
                ));
                if rem@.contains(e) {
                    let b = choose|b: int| 0 <= b < rem@.len() && rem@[b] == e;
                }
                assert(perm@.contains(e));
                let w = choose|w: int| 0 <= w < perm@.len() && perm@[w] == e;
                assert(crate::component::selected(perm@, e));
            }
            // The permuted population is the flat population.
            assert forall|a2: int, b2: int|
                0 <= a2 < perm_int.len() && 0 <= b2 < perm_int.len() && a2 != b2 implies
                #[trigger] perm_int[a2] != (#[trigger] perm_int[b2]) by {
                assert(perm@[a2] != perm@[b2]);
            }
            lemma_sel_perm(flat.clusters@, perm_int);
            assert(sel(flat.clusters@, perm_int) =~= sel(
                flat.clusters@,
                perm@.map_values(|u: usize| u as int),
            ));
            assert(sum_triple_card(sel(flat.clusters@, perm@.map_values(|u: usize| u as int)))
                <= usize::MAX);
        }
        let single = flat.extract(&perm, &inv);
        // Assemble the single-component graph.
        let pop = single.population;
        let mut components: Vec<Component> = Vec::new();
        components.push(single);
        let mut populations: Vec<usize> = Vec::new();
        populations.push(pop);
        let mut members: Vec<(usize, usize)> = Vec::new();
        let mut t: usize = 0;
        while t < self.members.len()
            invariant
                t <= self.members@.len(),
                members@.len() == t,
                forall|u: int| 0 <= u < t ==> (#[trigger] members@[u]) == self.members@[u],
            decreases self.members@.len() - t,
        {
            members.push(self.members[t]);
            t += 1;
        }
        let r = Graph { components, populations, members };
        proof {
            let single = r.components@[0];
            assert(members@ =~= self.members@);
            assert(prefix_pop(r.components@, 0) == 0);
            assert(prefix_pop(r.components@, 1) == single.population);
            assert(prefix_n(r.components@, 0) == 0);
            assert(prefix_n(r.components@, 1) == single.n());
            // The records survive as a multiset.
            assert(single.clusters@ =~= sel(flat.clusters@, perm_int));
            assert(single.clusters@.to_multiset() == concat_triples(comps).to_multiset());
            // Offset order.
            assert forall|u1: int, u2: int|
                0 <= u1 < u2 < single.clusters@.len() implies (#[trigger] single.clusters@[u1]).0
                    <= (#[trigger] single.clusters@[u2]).0 by {
                assert(single.clusters@[u1] == flat.clusters@[perm@[u1] as int]);
                assert(single.clusters@[u2] == flat.clusters@[perm@[u2] as int]);
                assert(flat.clusters@[perm@[u1] as int].0 <= flat.clusters@[perm@[u2] as int].0);
            }
            // The reorder witness.
            assert(single_reorder(comps, single, perm_int)) by {
                assert(flat.clusters@ == concat_triples(comps));
                assert(flat.accumulated_cp_car_ratios@ == concat_cp(comps));
                assert(flat.anomaly_properties@ == concat_props(comps));
                assert forall|a2: int| 0 <= a2 < prefix_n(comps, comps.len() as int) implies (
                #[trigger] single.clusters@[a2]) == concat_triples(comps)[perm_int[a2]] by {
                    assert(single.clusters@[a2] == flat.clusters@[perm@[a2] as int]);
                }
                assert forall|a2: int| 0 <= a2 < prefix_n(comps, comps.len() as int) implies (
                #[trigger] single.accumulated_cp_car_ratios@[a2]) == concat_cp(
                    comps,
                )[perm_int[a2]] by {
                    assert(single.accumulated_cp_car_ratios@[a2]
                        == flat.accumulated_cp_car_ratios@[perm@[a2] as int]);
                }
                assert forall|a2: int| 0 <= a2 < prefix_n(comps, comps.len() as int) implies (
                #[trigger] single.anomaly_properties@[a2]) == concat_props(
                    comps,
                )[perm_int[a2]] by {
                    assert(single.anomaly_properties@[a2]
                        == flat.anomaly_properties@[perm@[a2] as int]);
                }
                assert forall|a2: int, b2: int, d: u64| (#[trigger] single.has_nbr(
                    a2,
                    b2,
                    d,
                )) <==> (0 <= a2 < prefix_n(comps, comps.len() as int) && 0 <= b2 < prefix_n(
                    comps,
                    comps.len() as int,
                ) && flat_has_nbr(comps, perm_int[a2], perm_int[b2], d)) by {
                    if single.has_nbr(a2, b2, d) {
                        assert(flat.has_nbr(perm@[a2] as int, perm@[b2] as int, d));
                        assert(flat_has_nbr(comps, perm_int[a2], perm_int[b2], d));
                    }
                    if 0 <= a2 < prefix_n(comps, comps.len() as int) && 0 <= b2 < prefix_n(
                        comps,
                        comps.len() as int,
                    ) && flat_has_nbr(comps, perm_int[a2], perm_int[b2], d) {
                        assert(flat.has_nbr(perm@[a2] as int, perm@[b2] as int, d));
                        assert(single.has_nbr(a2, b2, d));
                    }
                }
            }
        }
        r
    }
}

} // verus!
