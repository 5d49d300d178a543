//! Reachability and breadth-first expansion over a finite graph.
//!
//! A graph on `n` vertices is given as a sequence of `n` neighbor sets over
//! vertex indices.  Both graph views of this crate reduce their adjacency
//! structures to this form, so the traversal facts proved here serve both.

use vstd::prelude::*;
use vstd::set_lib::lemma_len_subset;
use vstd::set_lib::lemma_int_range;
use vstd::set_lib::set_int_range;

verus! {

/// Every listed neighbor is a vertex, and every edge is present in both
/// directions.
pub open spec fn adj_symmetric(adj: Seq<Set<int>>) -> bool {
    forall|i: int, j: int|
        0 <= i < adj.len() && (#[trigger] adj[i].contains(j)) ==> 0 <= j < adj.len()
            && adj[j].contains(i)
}

/// `b` can be reached from `a` in at most `k` steps along `adj`.
pub open spec fn reaches_in(adj: Seq<Set<int>>, a: int, b: int, k: nat) -> bool
    decreases k,
{
    if a == b {
        true
    } else if k == 0 {
        false
    } else {
        &&& 0 <= a < adj.len()
        &&& exists|m: int|
            (#[trigger] adj[a].contains(m)) && reaches_in(adj, m, b, (k - 1) as nat)
    }
}

/// `b` can be reached from `a` in some number of steps along `adj`.
pub open spec fn reaches(adj: Seq<Set<int>>, a: int, b: int) -> bool {
    exists|k: nat| reaches_in(adj, a, b, k)
}

/// All vertices reachable from `a`.
pub open spec fn reach_set(adj: Seq<Set<int>>, a: int) -> Set<int> {
    Set::new(|b: int| 0 <= b < adj.len() && reaches(adj, a, b))
}

/// Reaching in at most `k` steps also reaches in at most `k2 >= k` steps.
pub proof fn lemma_reaches_in_mono(adj: Seq<Set<int>>, a: int, b: int, k: nat, k2: nat)
    requires
        reaches_in(adj, a, b, k),
        k <= k2,
    ensures
        reaches_in(adj, a, b, k2),
    decreases k,
{
    if a == b {
    } else {
        let m = choose|m: int|
            (#[trigger] adj[a].contains(m)) && reaches_in(adj, m, b, (k - 1) as nat);
        lemma_reaches_in_mono(adj, m, b, (k - 1) as nat, (k2 - 1) as nat);
    }
}

/// A vertex reaches each of its neighbors.
pub proof fn lemma_reaches_step(adj: Seq<Set<int>>, a: int, m: int)
    requires
        0 <= a < adj.len(),
        adj[a].contains(m),
    ensures
        reaches(adj, a, m),
{
    if a == m {
        assert(reaches_in(adj, a, m, 1));
    } else {
        assert(reaches_in(adj, m, m, 0));
        assert(reaches_in(adj, a, m, 1));
    }
}

/// Reachability is transitive.
pub proof fn lemma_reaches_trans(adj: Seq<Set<int>>, a: int, b: int, c: int)
    requires
        reaches(adj, a, b),
        reaches(adj, b, c),
    ensures
        reaches(adj, a, c),
{
    let k1 = choose|k: nat| reaches_in(adj, a, b, k);
    let k2 = choose|k: nat| reaches_in(adj, b, c, k);
    lemma_reaches_in_trans(adj, a, b, c, k1, k2);
}

proof fn lemma_reaches_in_trans(adj: Seq<Set<int>>, a: int, b: int, c: int, k1: nat, k2: nat)
    requires
        reaches_in(adj, a, b, k1),
        reaches_in(adj, b, c, k2),
    ensures
        reaches_in(adj, a, c, (k1 + k2) as nat),
    decreases k1,
{
    if a == b {
        lemma_reaches_in_mono(adj, b, c, k2, (k1 + k2) as nat);
    } else {
        let m = choose|m: int|
            (#[trigger] adj[a].contains(m)) && reaches_in(adj, m, b, (k1 - 1) as nat);
        lemma_reaches_in_trans(adj, m, b, c, (k1 - 1) as nat, k2);
    }
}

/// In a symmetric graph, reachability is symmetric.
pub proof fn lemma_reaches_sym(adj: Seq<Set<int>>, a: int, b: int)
    requires
        adj_symmetric(adj),
        reaches(adj, a, b),
    ensures
        reaches(adj, b, a),
{
    let k = choose|k: nat| reaches_in(adj, a, b, k);
    lemma_reaches_in_sym(adj, a, b, k);
}

proof fn lemma_reaches_in_sym(adj: Seq<Set<int>>, a: int, b: int, k: nat)
    requires
        adj_symmetric(adj),
        reaches_in(adj, a, b, k),
    ensures
        reaches(adj, b, a),
    decreases k,
{
    if a == b {
        assert(reaches_in(adj, b, a, 0));
    } else {
        let m = choose|m: int|
            (#[trigger] adj[a].contains(m)) && reaches_in(adj, m, b, (k - 1) as nat);
        lemma_reaches_in_sym(adj, m, b, (k - 1) as nat);
        assert(adj[m].contains(a) && 0 <= m < adj.len());
        lemma_reaches_step(adj, m, a);
        lemma_reaches_trans(adj, b, m, a);
    }
}

/// Any set that contains `a` and is closed under taking neighbors contains
/// everything reachable from `a`.
pub proof fn lemma_closed_contains_reach(adj: Seq<Set<int>>, s: Set<int>, a: int, b: int)
    requires
        s.contains(a),
        forall|i: int, j: int|
            s.contains(i) && (#[trigger] adj[i].contains(j)) ==> s.contains(j),
        reaches(adj, a, b),
    ensures
        s.contains(b),
{
    let k = choose|k: nat| reaches_in(adj, a, b, k);
    lemma_closed_contains_reach_in(adj, s, a, b, k);
}

proof fn lemma_closed_contains_reach_in(adj: Seq<Set<int>>, s: Set<int>, a: int, b: int, k: nat)
    requires
        s.contains(a),
        forall|i: int, j: int|
            s.contains(i) && (#[trigger] adj[i].contains(j)) ==> s.contains(j),
        reaches_in(adj, a, b, k),
    ensures
        s.contains(b),
    decreases k,
{
    if a == b {
    } else {
        let m = choose|m: int|
            (#[trigger] adj[a].contains(m)) && reaches_in(adj, m, b, (k - 1) as nat);
        lemma_closed_contains_reach_in(adj, s, m, b, (k - 1) as nat);
    }
}

/// The reach set of a vertex is finite and no larger than the graph.
pub proof fn lemma_reach_set_finite(adj: Seq<Set<int>>, a: int)
    ensures
        reach_set(adj, a).finite(),
        reach_set(adj, a).len() <= adj.len(),
{
    lemma_int_range(0, adj.len() as int);
    lemma_len_subset(reach_set(adj, a), set_int_range(0, adj.len() as int));
}

/// In a symmetric graph, two vertices that reach one another have the same
/// reach set.
pub proof fn lemma_reach_set_eq(adj: Seq<Set<int>>, a: int, b: int)
    requires
        adj_symmetric(adj),
        reaches(adj, a, b),
    ensures
        reach_set(adj, a) == reach_set(adj, b),
{
    lemma_reaches_sym(adj, a, b);
    assert forall|c: int| reach_set(adj, a).contains(c) implies reach_set(adj, b).contains(
        c,
    ) by {
        lemma_reaches_trans(adj, b, a, c);
    }
    assert forall|c: int| reach_set(adj, b).contains(c) implies reach_set(adj, a).contains(
        c,
    ) by {
        lemma_reaches_trans(adj, a, b, c);
    }
    assert(reach_set(adj, a) =~= reach_set(adj, b));
}

/// Every listed neighbor is itself a vertex of the graph.
pub open spec fn adj_in_range(adj: Seq<Set<int>>) -> bool {
    forall|i: int, j: int|
        0 <= i < adj.len() && (#[trigger] adj[i].contains(j)) ==> 0 <= j < adj.len()
}

/// The set of all neighbors of the vertices of `s`.
pub open spec fn nbrs_of(adj: Seq<Set<int>>, s: Set<int>) -> Set<int> {
    Set::new(
        |j: int|
            exists|i: int|
                (#[trigger] s.contains(i)) && 0 <= i < adj.len() && adj[i].contains(j),
    )
}

/// The pair (visited set, frontier set) after `k` rounds of breadth-first
/// expansion from `start`: each round absorbs the frontier into the visited
/// set and takes as the new frontier every unvisited neighbor of the old one.
pub open spec fn bfs_state(adj: Seq<Set<int>>, start: int, k: nat) -> (Set<int>, Set<int>)
    decreases k,
{
    if k == 0 {
        (Set::<int>::empty(), Set::<int>::empty().insert(start))
    } else {
        let prev = bfs_state(adj, start, (k - 1) as nat);
        let vis = prev.0.union(prev.1);
        (vis, nbrs_of(adj, prev.1).difference(vis))
    }
}

/// The visited set after `k` rounds of breadth-first expansion.
pub open spec fn bfs_visited(adj: Seq<Set<int>>, start: int, k: nat) -> Set<int> {
    bfs_state(adj, start, k).0
}

/// The frontier after `k` rounds of breadth-first expansion.
pub open spec fn bfs_frontier(adj: Seq<Set<int>>, start: int, k: nat) -> Set<int> {
    bfs_state(adj, start, k).1
}

/// A graph embedded into another along an index map has the same
/// reachability: `f` names, for each vertex of `adj2`, its image in
/// `adj1`; edges correspond exactly, and the image is closed under the
/// edges of `adj1`.
pub proof fn lemma_reach_iso(adj1: Seq<Set<int>>, adj2: Seq<Set<int>>, f: Seq<int>, a: int, b: int)
    requires
        adj_in_range(adj2),
        f.len() == adj2.len(),
        forall|x: int| 0 <= x < f.len() ==> 0 <= #[trigger] f[x] < adj1.len(),
        forall|x: int, y: int|
            0 <= x < adj2.len() && 0 <= y < adj2.len() ==> ((#[trigger] adj2[x].contains(y))
                <==> adj1[f[x]].contains(f[y])),
        forall|x: int, j: int|
            0 <= x < adj2.len() && (#[trigger] adj1[f[x]].contains(j)) ==> exists|y: int|
                0 <= y < adj2.len() && f[y] == j,
        forall|x: int, y: int|
            0 <= x < f.len() && 0 <= y < f.len() && #[trigger] f[x] == #[trigger] f[y] ==> x == y,
        0 <= a < adj2.len(),
        0 <= b < adj2.len(),
    ensures
        reaches(adj2, a, b) <==> reaches(adj1, f[a], f[b]),
{
    if reaches(adj2, a, b) {
        let k = choose|k: nat| reaches_in(adj2, a, b, k);
        lemma_reach_iso_fwd(adj1, adj2, f, a, b, k);
    }
    if reaches(adj1, f[a], f[b]) {
        let k = choose|k: nat| reaches_in(adj1, f[a], f[b], k);
        lemma_reach_iso_bwd(adj1, adj2, f, a, b, k);
    }
}

proof fn lemma_reach_iso_fwd(
    adj1: Seq<Set<int>>,
    adj2: Seq<Set<int>>,
    f: Seq<int>,
    a: int,
    b: int,
    k: nat,
)
    requires
        adj_in_range(adj2),
        f.len() == adj2.len(),
        forall|x: int| 0 <= x < f.len() ==> 0 <= #[trigger] f[x] < adj1.len(),
        forall|x: int, y: int|
            0 <= x < adj2.len() && 0 <= y < adj2.len() ==> ((#[trigger] adj2[x].contains(y))
                <==> adj1[f[x]].contains(f[y])),
        0 <= a < adj2.len(),
        0 <= b < adj2.len(),
        reaches_in(adj2, a, b, k),
    ensures
        reaches_in(adj1, f[a], f[b], k),
    decreases k,
{
    if a == b {
    } else {
        let m = choose|m: int|
            (#[trigger] adj2[a].contains(m)) && reaches_in(adj2, m, b, (k - 1) as nat);
        assert(0 <= m < adj2.len());
        lemma_reach_iso_fwd(adj1, adj2, f, m, b, (k - 1) as nat);
        assert(adj1[f[a]].contains(f[m]));
    }
}

proof fn lemma_reach_iso_bwd(
    adj1: Seq<Set<int>>,
    adj2: Seq<Set<int>>,
    f: Seq<int>,
    a: int,
    b: int,
    k: nat,
)
    requires
        adj_in_range(adj2),
        f.len() == adj2.len(),
        forall|x: int| 0 <= x < f.len() ==> 0 <= #[trigger] f[x] < adj1.len(),
        forall|x: int, y: int|
            0 <= x < adj2.len() && 0 <= y < adj2.len() ==> ((#[trigger] adj2[x].contains(y))
                <==> adj1[f[x]].contains(f[y])),
        forall|x: int, j: int|
            0 <= x < adj2.len() && (#[trigger] adj1[f[x]].contains(j)) ==> exists|y: int|
                0 <= y < adj2.len() && f[y] == j,
        forall|x: int, y: int|
            0 <= x < f.len() && 0 <= y < f.len() && #[trigger] f[x] == #[trigger] f[y] ==> x == y,
        0 <= a < adj2.len(),
        0 <= b < adj2.len(),
        reaches_in(adj1, f[a], f[b], k),
    ensures
        reaches(adj2, a, b),
    decreases k,
{
    if f[a] == f[b] {
        assert(a == b);
        assert(reaches_in(adj2, a, b, 0));
    } else {
        let j = choose|j: int|
            (#[trigger] adj1[f[a]].contains(j)) && reaches_in(adj1, j, f[b], (k - 1) as nat);
        let m = choose|m: int| 0 <= m < adj2.len() && f[m] == j;
        lemma_reach_iso_bwd(adj1, adj2, f, m, b, (k - 1) as nat);
        assert(adj2[a].contains(m));
        lemma_reaches_step(adj2, a, m);
        lemma_reaches_trans(adj2, a, m, b);
    }
}

/// The standing facts about breadth-first expansion: visited set and
/// frontier are finite in-range disjoint sets of vertices reachable from
/// `start`, every neighbor of a visited vertex is visited or on the
/// frontier, and from the first round on, `start` is visited.
pub proof fn lemma_bfs_invariants(adj: Seq<Set<int>>, start: int, k: nat)
    requires
        adj_in_range(adj),
        0 <= start < adj.len(),
    ensures
        bfs_visited(adj, start, k).finite(),
        bfs_frontier(adj, start, k).finite(),
        bfs_visited(adj, start, k).disjoint(bfs_frontier(adj, start, k)),
        forall|b: int|
            (#[trigger] bfs_visited(adj, start, k).contains(b)) ==> 0 <= b < adj.len()
                && reaches(adj, start, b),
        forall|b: int|
            (#[trigger] bfs_frontier(adj, start, k).contains(b)) ==> 0 <= b < adj.len()
                && reaches(adj, start, b),
        forall|i: int, j: int|
            (#[trigger] bfs_visited(adj, start, k).contains(i)) && (#[trigger] adj[i].contains(
                j,
            )) ==> bfs_visited(adj, start, k).contains(j) || bfs_frontier(adj, start, k).contains(
                j,
            ),
        k >= 1 ==> bfs_visited(adj, start, k).contains(start),
    decreases k,
{
    lemma_int_range(0, adj.len() as int);
    if k == 0 {
        assert(bfs_frontier(adj, start, 0).contains(start));
        assert(reaches_in(adj, start, start, 0));
        assert(bfs_frontier(adj, start, 0) =~= Set::<int>::empty().insert(start));
    } else {
        lemma_bfs_invariants(adj, start, (k - 1) as nat);
        let pv = bfs_visited(adj, start, (k - 1) as nat);
        let pf = bfs_frontier(adj, start, (k - 1) as nat);
        let vis = pv.union(pf);
        let fr = nbrs_of(adj, pf).difference(vis);
        assert(bfs_visited(adj, start, k) == vis);
        assert(bfs_frontier(adj, start, k) == fr);
        // The new frontier lies in range and is reachable.
        assert forall|b: int| (#[trigger] fr.contains(b)) implies 0 <= b < adj.len()
            && reaches(adj, start, b) by {
            let i = choose|i: int|
                (#[trigger] pf.contains(i)) && 0 <= i < adj.len() && adj[i].contains(b);
            lemma_reaches_step(adj, i, b);
            lemma_reaches_trans(adj, start, i, b);
        }
        // The new frontier is finite.
        lemma_len_subset(fr, set_int_range(0, adj.len() as int));
        // Every neighbor of a newly visited vertex is visited or on the
        // new frontier.
        assert forall|i: int, j: int|
            (#[trigger] vis.contains(i)) && (#[trigger] adj[i].contains(j)) implies vis.contains(
            j,
        ) || fr.contains(j) by {
            if pv.contains(i) {
                assert(pv.contains(j) || pf.contains(j));
            } else {
                assert(pf.contains(i));
                assert(0 <= i < adj.len());
                assert(nbrs_of(adj, pf).contains(j));
            }
        }
        if k == 1 {
            assert(pf.contains(start));
        }
    }
}

/// When the frontier empties, the visited set is exactly everything
/// reachable from `start`.
pub proof fn lemma_bfs_done(adj: Seq<Set<int>>, start: int, k: nat)
    requires
        adj_in_range(adj),
        0 <= start < adj.len(),
        k >= 1,
        bfs_frontier(adj, start, k).is_empty(),
    ensures
        bfs_visited(adj, start, k) == reach_set(adj, start),
{
    lemma_bfs_invariants(adj, start, k);
    let vis = bfs_visited(adj, start, k);
    assert forall|b: int| reach_set(adj, start).contains(b) implies vis.contains(b) by {
        assert forall|i: int, j: int|
            vis.contains(i) && (#[trigger] adj[i].contains(j)) implies vis.contains(j) by {
            assert(!bfs_frontier(adj, start, k).contains(j));
        }
        lemma_closed_contains_reach(adj, vis, start, b);
    }
    assert(vis =~= reach_set(adj, start));
}

/// Each round of breadth-first expansion grows the visited set by exactly
/// the size of the frontier it absorbs.
pub proof fn lemma_bfs_growth(adj: Seq<Set<int>>, start: int, k: nat)
    requires
        adj_in_range(adj),
        0 <= start < adj.len(),
    ensures
        bfs_visited(adj, start, (k + 1) as nat).len() == bfs_visited(adj, start, k).len()
            + bfs_frontier(adj, start, k).len(),
        bfs_visited(adj, start, k).len() <= adj.len(),
{
    lemma_bfs_invariants(adj, start, k);
    let pv = bfs_visited(adj, start, k);
    let pf = bfs_frontier(adj, start, k);
    assert(bfs_visited(adj, start, (k + 1) as nat) == pv.union(pf));
    vstd::set_lib::lemma_set_disjoint_lens(pv, pf);
    assert(pv + pf == pv.union(pf));
    lemma_int_range(0, adj.len() as int);
    lemma_len_subset(pv, set_int_range(0, adj.len() as int));
}

} // verus!
