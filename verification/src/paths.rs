//! The mathematical model of a graph and of hop distances in it.
//!
//! A graph is modelled by its adjacency table, a `Seq<Seq<usize>>`: entry `u`
//! lists the vertices adjacent to `u`, with multiplicity. Vertices are the
//! integers `0 .. adj.len()`.

use vstd::prelude::*;

verus! {

/// Every entry of the table names a vertex of the graph.
pub open spec fn in_range(adj: Seq<Seq<usize>>) -> bool {
    forall|u: int, j: int|
        0 <= u < adj.len() && 0 <= j < adj[u].len() ==> (#[trigger] adj[u][j]) < adj.len()
}

/// `v` occurs in the adjacency list of `u`.
pub open spec fn has_edge(adj: Seq<Seq<usize>>, u: int, v: int) -> bool {
    &&& 0 <= u < adj.len()
    &&& exists|j: int| 0 <= j < adj[u].len() && (#[trigger] adj[u][j]) == v
}

/// Adjacency is mutual: wherever `v` is listed under `u`, `u` is listed under `v`.
pub open spec fn symmetric(adj: Seq<Seq<usize>>) -> bool {
    forall|u: int, v: int| #[trigger] has_edge(adj, u, v) ==> has_edge(adj, v, u)
}

/// The invariant of an undirected graph's adjacency table.
pub open spec fn well_formed(adj: Seq<Seq<usize>>) -> bool {
    in_range(adj) && symmetric(adj)
}

/// `p` is a walk: a non-empty sequence of vertices in which each one is
/// adjacent to the one before it.
pub open spec fn is_walk(adj: Seq<Seq<usize>>, p: Seq<int>) -> bool {
    &&& p.len() > 0
    &&& forall|i: int| 0 <= i < p.len() ==> 0 <= #[trigger] p[i] < adj.len()
    &&& forall|i: int| 0 <= i < p.len() - 1 ==> has_edge(adj, #[trigger] p[i], p[i + 1])
}

/// `p` is a walk of exactly `k` edges that starts at `s` and ends at `v`.
pub open spec fn walk_between(adj: Seq<Seq<usize>>, p: Seq<int>, s: int, v: int, k: nat) -> bool {
    &&& is_walk(adj, p)
    &&& p.len() == k + 1
    &&& p[0] == s
    &&& p[k as int] == v
}

/// Some walk of exactly `k` edges leads from `s` to `v`.
pub open spec fn reach_in(adj: Seq<Seq<usize>>, s: int, v: int, k: nat) -> bool {
    exists|p: Seq<int>| #[trigger] walk_between(adj, p, s, v, k)
}

/// Some walk leads from `s` to `v`.
pub open spec fn connected(adj: Seq<Seq<usize>>, s: int, v: int) -> bool {
    exists|k: nat| #[trigger] reach_in(adj, s, v, k)
}

/// `d` is the least number of edges on any walk from `s` to `v`.
pub open spec fn is_hop_distance(adj: Seq<Seq<usize>>, s: int, v: int, d: nat) -> bool {
    &&& reach_in(adj, s, v, d)
    &&& forall|k: nat| k < d ==> !#[trigger] reach_in(adj, s, v, k)
}

/// `dist` holds, for every vertex, its hop distance from `s`, and `None`
/// exactly for the vertices that no walk from `s` reaches.
pub open spec fn is_distance_map(adj: Seq<Seq<usize>>, s: int, dist: Seq<Option<usize>>) -> bool {
    &&& dist.len() == adj.len()
    &&& forall|v: int|
        0 <= v < adj.len() ==> match #[trigger] dist[v] {
            Some(d) => is_hop_distance(adj, s, v, d as nat),
            None => !connected(adj, s, v),
        }
}

/// A vertex reaches itself in no steps.
pub proof fn lemma_reach_self(adj: Seq<Seq<usize>>, s: int)
    requires
        0 <= s < adj.len(),
    ensures
        reach_in(adj, s, s, 0),
        connected(adj, s, s),
{
    assert(walk_between(adj, seq![s], s, s, 0));
    assert(reach_in(adj, s, s, 0nat));
}

/// A walk of no edges ends where it starts.
pub proof fn lemma_reach_zero(adj: Seq<Seq<usize>>, s: int, v: int)
    requires
        reach_in(adj, s, v, 0),
    ensures
        v == s,
        0 <= s < adj.len(),
{
    let p = choose|p: Seq<int>| walk_between(adj, p, s, v, 0);
    assert(0 <= p[0] < adj.len());
}

/// The endpoints of a walk are vertices of the graph.
pub proof fn lemma_reach_bounds(adj: Seq<Seq<usize>>, s: int, v: int, k: nat)
    requires
        reach_in(adj, s, v, k),
    ensures
        0 <= s < adj.len(),
        0 <= v < adj.len(),
{
    let p = choose|p: Seq<int>| walk_between(adj, p, s, v, k);
    assert(0 <= p[0] < adj.len());
    assert(0 <= p[k as int] < adj.len());
}

/// A walk can be extended by one edge at its end.
pub proof fn lemma_reach_extend(adj: Seq<Seq<usize>>, s: int, u: int, v: int, k: nat)
    requires
        reach_in(adj, s, u, k),
        has_edge(adj, u, v),
        0 <= v < adj.len(),
    ensures
        reach_in(adj, s, v, k + 1),
{
    let p = choose|p: Seq<int>| walk_between(adj, p, s, u, k);
    let q = p.push(v);
    assert forall|i: int| 0 <= i < q.len() implies 0 <= #[trigger] q[i] < adj.len() by {
        if i < p.len() {
            assert(q[i] == p[i]);
        }
    }
    assert forall|i: int| 0 <= i < q.len() - 1 implies has_edge(adj, #[trigger] q[i], q[i + 1]) by {
        if i < p.len() - 1 {
            assert(q[i] == p[i]);
            assert(q[i + 1] == p[i + 1]);
        }
    }
    assert(walk_between(adj, q, s, v, k + 1));
}

/// The last edge of a walk: a walk of `k + 1` edges to `v` passes, after `k`
/// edges, through a vertex that `v` is adjacent to.
pub proof fn lemma_reach_last_edge(adj: Seq<Seq<usize>>, s: int, v: int, k: nat) -> (u: int)
    requires
        reach_in(adj, s, v, k + 1),
    ensures
        reach_in(adj, s, u, k),
        has_edge(adj, u, v),
{
    let k1: nat = k + 1;
    let p = choose|p: Seq<int>| walk_between(adj, p, s, v, k1);
    let q = p.drop_last();
    let u = p[k as int];
    assert forall|i: int| 0 <= i < q.len() implies 0 <= #[trigger] q[i] < adj.len() by {
        assert(q[i] == p[i]);
    }
    assert forall|i: int| 0 <= i < q.len() - 1 implies has_edge(adj, #[trigger] q[i], q[i + 1]) by {
        assert(q[i] == p[i]);
        assert(q[i + 1] == p[i + 1]);
    }
    assert(walk_between(adj, q, s, u, k));
    assert(has_edge(adj, p[k as int], p[k as int + 1]));
    u
}

/// Walks compose: one from `s` to `u` followed by one from `u` to `v`.
pub proof fn lemma_reach_concat(adj: Seq<Seq<usize>>, s: int, u: int, v: int, j: nat, k: nat)
    requires
        reach_in(adj, s, u, j),
        reach_in(adj, u, v, k),
    ensures
        reach_in(adj, s, v, j + k),
    decreases k,
{
    if k == 0 {
        lemma_reach_zero(adj, u, v);
    } else {
        let w = lemma_reach_last_edge(adj, u, v, (k - 1) as nat);
        lemma_reach_concat(adj, s, u, w, j, (k - 1) as nat);
        lemma_reach_bounds(adj, u, v, k);
        lemma_reach_extend(adj, s, w, v, (j + k - 1) as nat);
    }
}

/// In a graph with mutual adjacency a walk can be walked backwards.
pub proof fn lemma_reach_reverse(adj: Seq<Seq<usize>>, s: int, v: int, k: nat)
    requires
        symmetric(adj),
        reach_in(adj, s, v, k),
    ensures
        reach_in(adj, v, s, k),
    decreases k,
{
    if k == 0 {
        lemma_reach_zero(adj, s, v);
    } else {
        let u = lemma_reach_last_edge(adj, s, v, (k - 1) as nat);
        lemma_reach_reverse(adj, s, u, (k - 1) as nat);
        lemma_reach_bounds(adj, s, v, k);
        lemma_reach_bounds(adj, s, u, (k - 1) as nat);
        // v -> u is one edge, then u -> s in k - 1 edges
        assert(has_edge(adj, v, u));
        lemma_reach_self(adj, v);
        lemma_reach_extend(adj, v, v, u, 0);
        lemma_reach_concat(adj, v, u, s, 1, (k - 1) as nat);
    }
}

/// A vertex has at most one hop distance from a given source.
pub proof fn lemma_hop_distance_unique(adj: Seq<Seq<usize>>, s: int, v: int, d1: nat, d2: nat)
    requires
        is_hop_distance(adj, s, v, d1),
        is_hop_distance(adj, s, v, d2),
    ensures
        d1 == d2,
{
}

/// Distances are determined by the graph and the source: two distance maps
/// of one graph from one source are the same map.
pub proof fn lemma_distance_map_unique(
    adj: Seq<Seq<usize>>,
    s: int,
    d1: Seq<Option<usize>>,
    d2: Seq<Option<usize>>,
)
    requires
        is_distance_map(adj, s, d1),
        is_distance_map(adj, s, d2),
    ensures
        d1 == d2,
{
    assert forall|v: int| 0 <= v < d1.len() implies d1[v] == d2[v] by {
        match (d1[v], d2[v]) {
            (Some(a), Some(b)) => {
                lemma_hop_distance_unique(adj, s, v, a as nat, b as nat);
            },
            (Some(a), None) => {
                assert(reach_in(adj, s, v, a as nat));
            },
            (None, Some(b)) => {
                assert(reach_in(adj, s, v, b as nat));
            },
            (None, None) => {},
        }
    }
    assert(d1 =~= d2);
}

/// The source is at distance zero from itself.
pub proof fn lemma_source_distance_zero(adj: Seq<Seq<usize>>, s: int, dist: Seq<Option<usize>>)
    requires
        0 <= s < adj.len(),
        is_distance_map(adj, s, dist),
    ensures
        dist[s] == Some(0usize),
{
    lemma_reach_self(adj, s);
    match dist[s] {
        Some(d) => {
            if d > 0 {
                assert(!reach_in(adj, s, s, 0));
            }
        },
        None => {},
    }
}

/// Shortest-path optimality: a vertex at distance `d > 0` is listed under a
/// vertex at distance `d - 1`, which, where adjacency is mutual, is one of
/// its own neighbours.
pub proof fn lemma_distance_predecessor(
    adj: Seq<Seq<usize>>,
    s: int,
    dist: Seq<Option<usize>>,
    v: int,
) -> (u: int)
    requires
        is_distance_map(adj, s, dist),
        0 <= v < adj.len(),
        dist[v] is Some,
        dist[v]->0 > 0,
    ensures
        0 <= u < adj.len(),
        has_edge(adj, u, v),
        symmetric(adj) ==> has_edge(adj, v, u),
        dist[u] == Some((dist[v]->0 - 1) as usize),
{
    let d = dist[v]->0 as nat;
    let u = lemma_reach_last_edge(adj, s, v, (d - 1) as nat);
    lemma_reach_bounds(adj, s, u, (d - 1) as nat);
    match dist[u] {
        Some(du) => {
            if du < d - 1 {
                lemma_reach_extend(adj, s, u, v, du as nat);
                assert(!reach_in(adj, s, v, (du + 1) as nat));
            }
            if du > d - 1 {
                assert(!reach_in(adj, s, u, (d - 1) as nat));
            }
        },
        None => {
            assert(reach_in(adj, s, u, (d - 1) as nat));
        },
    }
    u
}

/// Distinct numbers below `n` are at most `n` many.
pub proof fn lemma_distinct_bounded(order: Seq<usize>, n: nat)
    requires
        order.no_duplicates(),
        forall|i: int| 0 <= i < order.len() ==> (#[trigger] order[i]) < n,
    ensures
        order.len() <= n,
    decreases n,
{
    if n == 0 {
        if order.len() > 0 {
            assert(order[0] < n);
        }
    } else if exists|i: int| 0 <= i < order.len() && #[trigger] order[i] == n - 1 {
        let i = choose|i: int| 0 <= i < order.len() && #[trigger] order[i] == n - 1;
        let rest = order.remove(i);
        assert forall|a: int, b: int| 0 <= a < rest.len() && 0 <= b < rest.len() && a != b implies rest[a]
            != rest[b] by {
            let a0 = if a < i { a } else { a + 1 };
            let b0 = if b < i { b } else { b + 1 };
            assert(rest[a] == order[a0]);
            assert(rest[b] == order[b0]);
        }
        assert forall|a: int| 0 <= a < rest.len() implies (#[trigger] rest[a]) < (n - 1) as nat by {
            let a0 = if a < i { a } else { a + 1 };
            assert(rest[a] == order[a0]);
            assert(order[a0] < n);
        }
        lemma_distinct_bounded(rest, (n - 1) as nat);
    } else {
        assert forall|a: int| 0 <= a < order.len() implies (#[trigger] order[a]) < (n - 1) as nat by {
            assert(order[a] < n);
        }
        lemma_distinct_bounded(order, (n - 1) as nat);
    }
}

} // verus!
