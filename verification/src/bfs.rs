//! Breadth-first search: hop distances from one source vertex.

use std::collections::VecDeque;
use vstd::prelude::*;
use crate::error::GraphError;
use crate::graph::{Graph, Vertex};
use crate::paths::{
    connected, has_edge, in_range, is_distance_map, is_hop_distance, lemma_distinct_bounded,
    lemma_reach_extend, lemma_reach_last_edge, lemma_reach_self, lemma_reach_zero,
    lemma_source_distance_zero, reach_in,
};

verus! {

/// The distance recorded for the `i`-th vertex in order of discovery.
spec fn level(dist: Seq<Option<usize>>, order: Seq<usize>, i: int) -> int {
    dist[order[i] as int]->0 as int
}

/// `w` has a distance, and it is at most one more than that of `u`.
spec fn settled(dist: Seq<Option<usize>>, u: int, w: int) -> bool {
    dist[w] is Some && dist[w]->0 <= dist[u]->0 + 1
}

/// `order` lists, without repetition, exactly the vertices that have a distance.
spec fn order_ok(adj: Seq<Seq<usize>>, dist: Seq<Option<usize>>, order: Seq<usize>) -> bool {
    &&& order.no_duplicates()
    &&& forall|i: int| 0 <= i < order.len() ==> (#[trigger] order[i]) < adj.len()
    &&& forall|i: int| 0 <= i < order.len() ==> (#[trigger] dist[order[i] as int]) is Some
    &&& forall|v: usize| v < adj.len() && (#[trigger] dist[v as int]) is Some ==> order.contains(v)
}

/// Distances do not decrease along the order of discovery, and span at most
/// two consecutive values from position `head` on.
spec fn levels_ok(dist: Seq<Option<usize>>, order: Seq<usize>, head: int) -> bool {
    &&& forall|i: int| 0 <= i < order.len() ==> #[trigger] level(dist, order, i) <= i
    &&& forall|i: int, j: int|
        0 <= i <= j < order.len() ==> #[trigger] level(dist, order, i) <= #[trigger] level(
            dist,
            order,
            j,
        )
    &&& head < order.len() ==> level(dist, order, order.len() - 1) <= level(dist, order, head) + 1
}

/// Every recorded distance is the length of some walk from the source.
spec fn sound(adj: Seq<Seq<usize>>, s: int, dist: Seq<Option<usize>>) -> bool {
    forall|v: int|
        0 <= v < adj.len() && (#[trigger] dist[v]) is Some ==> reach_in(adj, s, v, dist[v]->0 as nat)
}

/// The first `done` neighbours of `u` are settled with respect to `u`.
spec fn row_settled(adj: Seq<Seq<usize>>, dist: Seq<Option<usize>>, u: int, done: int) -> bool {
    forall|j: int| 0 <= j < done ==> settled(dist, u, #[trigger] adj[u][j] as int)
}

/// The state of the search: the vertices before position `head` in the order
/// of discovery have had all their neighbours examined, and the one at
/// `head` its first `done` neighbours.
spec fn bfs_state(
    adj: Seq<Seq<usize>>,
    s: int,
    dist: Seq<Option<usize>>,
    order: Seq<usize>,
    head: int,
    done: int,
) -> bool {
    &&& dist.len() == adj.len()
    &&& adj.len() <= usize::MAX
    &&& in_range(adj)
    &&& 0 <= s < adj.len()
    &&& order.len() > 0
    &&& order[0] == s
    &&& dist[s] == Some(0usize)
    &&& 0 <= head <= order.len()
    &&& order_ok(adj, dist, order)
    &&& levels_ok(dist, order, head)
    &&& sound(adj, s, dist)
    &&& forall|i: int|
        0 <= i < head ==> #[trigger] row_settled(
            adj,
            dist,
            order[i] as int,
            adj[order[i] as int].len() as int,
        )
    &&& head < order.len() ==> {
        &&& 0 <= done <= adj[order[head] as int].len()
        &&& row_settled(adj, dist, order[head] as int, done)
    }
}

/// The search starts with the source alone, at distance zero.
proof fn lemma_bfs_init(adj: Seq<Seq<usize>>, s: usize, dist: Seq<Option<usize>>)
    requires
        in_range(adj),
        s < adj.len(),
        adj.len() <= usize::MAX,
        dist.len() == adj.len(),
        dist[s as int] == Some(0usize),
        forall|v: int| 0 <= v < dist.len() && v != s ==> dist[v] is None,
    ensures
        bfs_state(adj, s as int, dist, seq![s], 0, 0),
{
    let order = seq![s];
    assert(order[0] == s);
    lemma_reach_self(adj, s as int);
    assert forall|v: usize| v < adj.len() && (#[trigger] dist[v as int]) is Some implies order.contains(
        v,
    ) by {
        assert(v == s);
    }
    assert(order_ok(adj, dist, order));
    assert(levels_ok(dist, order, 0));
    assert(sound(adj, s as int, dist));
}

/// A neighbour that already has a distance needs no work.
proof fn lemma_bfs_skip(
    adj: Seq<Seq<usize>>,
    s: int,
    dist: Seq<Option<usize>>,
    order: Seq<usize>,
    head: int,
    done: int,
)
    requires
        bfs_state(adj, s, dist, order, head, done),
        head < order.len(),
        done < adj[order[head] as int].len(),
        dist[adj[order[head] as int][done] as int] is Some,
    ensures
        bfs_state(adj, s, dist, order, head, done + 1),
{
    let u = order[head] as int;
    let w = adj[u][done];
    assert(w < adj.len());
    assert(order.contains(w));
    let i = choose|i: int| 0 <= i < order.len() && order[i] == w;
    assert(level(dist, order, i) <= level(dist, order, order.len() - 1));
    assert(level(dist, order, head) == dist[u]->0);
    assert(settled(dist, u, w as int));
    assert forall|j: int| 0 <= j < done + 1 implies settled(dist, u, #[trigger] adj[u][j] as int) by {
        if j < done {
        }
    }
}

/// A neighbour without a distance gets that of the current vertex plus one,
/// and joins the order of discovery at its end.
proof fn lemma_bfs_visit(
    adj: Seq<Seq<usize>>,
    s: int,
    dist: Seq<Option<usize>>,
    order: Seq<usize>,
    head: int,
    done: int,
)
    requires
        bfs_state(adj, s, dist, order, head, done),
        head < order.len(),
        done < adj[order[head] as int].len(),
        dist[adj[order[head] as int][done] as int] is None,
        dist[order[head] as int]->0 < usize::MAX,
    ensures
        bfs_state(
            adj,
            s,
            dist.update(
                adj[order[head] as int][done] as int,
                Some((dist[order[head] as int]->0 + 1) as usize),
            ),
            order.push(adj[order[head] as int][done]),
            head,
            done + 1,
        ),
{
    let u = order[head] as int;
    let w = adj[u][done];
    let du = dist[u]->0;
    let dist2 = dist.update(w as int, Some((du + 1) as usize));
    let order2 = order.push(w);
    let len = order.len() as int;
    assert(w < adj.len());
    assert(dist[u] is Some);
    assert(level(dist, order, head) == du);

    // the new vertex is none of the old ones
    assert forall|i: int| 0 <= i < len implies order[i] != w by {
        assert(dist[order[i] as int] is Some);
    }
    assert forall|i: int| 0 <= i < len implies level(dist2, order2, i) == level(dist, order, i) by {
        assert(order2[i] == order[i]);
        assert(order[i] != w);
    }
    assert(order2[len] == w);
    assert(level(dist2, order2, len) == du + 1);

    assert(order_ok(adj, dist2, order2)) by {
        assert forall|a: int, b: int| 0 <= a < order2.len() && 0 <= b < order2.len() && a != b implies order2[a]
            != order2[b] by {
            if a < len && b < len {
                assert(order2[a] == order[a]);
                assert(order2[b] == order[b]);
            }
        }
        assert forall|i: int| 0 <= i < order2.len() implies (#[trigger] order2[i]) < adj.len() by {
            if i < len {
                assert(order2[i] == order[i]);
            }
        }
        assert forall|i: int| 0 <= i < order2.len() implies (#[trigger] dist2[order2[i] as int]) is Some by {
            if i < len {
                assert(order2[i] == order[i]);
                assert(dist[order[i] as int] is Some);
            }
        }
        assert forall|v: usize| v < adj.len() && (#[trigger] dist2[v as int]) is Some implies order2.contains(
            v,
        ) by {
            if v == w {
                assert(order2[len] == v);
            } else {
                assert(dist[v as int] is Some);
                assert(order.contains(v));
                let i = choose|i: int| 0 <= i < order.len() && order[i] == v;
                assert(order2[i] == v);
            }
        }
    }

    assert(levels_ok(dist2, order2, head)) by {
        assert forall|i: int| 0 <= i < order2.len() implies #[trigger] level(dist2, order2, i) <= i by {
            if i < len {
                assert(level(dist, order, i) <= i);
            } else {
                assert(level(dist, order, head) <= head);
            }
        }
        assert forall|i: int, j: int| 0 <= i <= j < order2.len() implies #[trigger] level(
            dist2,
            order2,
            i,
        ) <= #[trigger] level(dist2, order2, j) by {
            if j < len {
                assert(level(dist, order, i) <= level(dist, order, j));
            } else if i < len {
                assert(level(dist, order, i) <= level(dist, order, len - 1));
            }
        }
    }

    assert(sound(adj, s, dist2)) by {
        assert forall|v: int| 0 <= v < adj.len() && (#[trigger] dist2[v]) is Some implies reach_in(
            adj,
            s,
            v,
            dist2[v]->0 as nat,
        ) by {
            if v == w {
                assert(reach_in(adj, s, u, du as nat));
                assert(has_edge(adj, u, w as int));
                lemma_reach_extend(adj, s, u, w as int, du as nat);
            } else {
                assert(dist[v] is Some);
            }
        }
    }

    assert forall|i: int| 0 <= i < head implies #[trigger] row_settled(
        adj,
        dist2,
        order2[i] as int,
        adj[order2[i] as int].len() as int,
    ) by {
        assert(order2[i] == order[i]);
        let x = order[i] as int;
        assert(row_settled(adj, dist, x, adj[x].len() as int));
        assert(dist[x] is Some);
        assert forall|j: int| 0 <= j < adj[x].len() implies settled(dist2, x, #[trigger] adj[x][j] as int) by {
            assert(settled(dist, x, adj[x][j] as int));
        }
    }

    assert(order2[head] == order[head]);
    assert(row_settled(adj, dist2, u, done + 1)) by {
        assert forall|j: int| 0 <= j < done + 1 implies settled(dist2, u, #[trigger] adj[u][j] as int) by {
            if j < done {
                assert(settled(dist, u, adj[u][j] as int));
            }
        }
    }
    assert(dist2[s] == Some(0usize)) by {
        assert(dist[s] is Some);
    }
    assert(order2[0] == order[0]);
}

/// When all neighbours of the vertex at `head` are examined, the search
/// moves on to the next vertex in order of discovery.
proof fn lemma_bfs_advance(
    adj: Seq<Seq<usize>>,
    s: int,
    dist: Seq<Option<usize>>,
    order: Seq<usize>,
    head: int,
)
    requires
        head < order.len(),
        bfs_state(adj, s, dist, order, head, adj[order[head] as int].len() as int),
    ensures
        bfs_state(adj, s, dist, order, head + 1, 0),
{
    assert forall|i: int| 0 <= i < head + 1 implies #[trigger] row_settled(
        adj,
        dist,
        order[i] as int,
        adj[order[i] as int].len() as int,
    ) by {
    }
    if head + 1 < order.len() {
        assert(level(dist, order, head) <= level(dist, order, head + 1));
    }
}

/// Where every vertex with a distance has only settled neighbours, a walk
/// of `k` edges from the source ends at a vertex whose distance is at most `k`.
proof fn lemma_closed_lower_bound(
    adj: Seq<Seq<usize>>,
    s: int,
    dist: Seq<Option<usize>>,
    order: Seq<usize>,
    v: int,
    k: nat,
)
    requires
        bfs_state(adj, s, dist, order, order.len() as int, 0),
        reach_in(adj, s, v, k),
    ensures
        dist[v] is Some,
        dist[v]->0 <= k,
    decreases k,
{
    if k == 0 {
        lemma_reach_zero(adj, s, v);
    } else {
        let u = lemma_reach_last_edge(adj, s, v, (k - 1) as nat);
        lemma_closed_lower_bound(adj, s, dist, order, u, (k - 1) as nat);
        assert(0 <= u < adj.len());
        let uu = u as usize;
        assert(dist[uu as int] is Some);
        assert(order.contains(uu));
        let i = choose|i: int| 0 <= i < order.len() && order[i] == uu;
        assert(row_settled(adj, dist, order[i] as int, adj[order[i] as int].len() as int));
        let j = choose|j: int| 0 <= j < adj[u].len() && (#[trigger] adj[u][j]) == v;
        assert(settled(dist, u, adj[u][j] as int));
    }
}

/// When no discovered vertex is left to examine, the recorded distances are
/// the hop distances.
proof fn lemma_bfs_done(adj: Seq<Seq<usize>>, s: int, dist: Seq<Option<usize>>, order: Seq<usize>)
    requires
        bfs_state(adj, s, dist, order, order.len() as int, 0),
    ensures
        is_distance_map(adj, s, dist),
{
    assert forall|v: int| 0 <= v < adj.len() implies match #[trigger] dist[v] {
        Some(d) => is_hop_distance(adj, s, v, d as nat),
        None => !connected(adj, s, v),
    } by {
        match dist[v] {
            Some(d) => {
                assert(reach_in(adj, s, v, d as nat));
                assert forall|k: nat| k < d as nat implies !#[trigger] reach_in(adj, s, v, k) by {
                    if reach_in(adj, s, v, k) {
                        lemma_closed_lower_bound(adj, s, dist, order, v, k);
                    }
                }
            },
            None => {
                if connected(adj, s, v) {
                    let k = choose|k: nat| #[trigger] reach_in(adj, s, v, k);
                    lemma_closed_lower_bound(adj, s, dist, order, v, k);
                }
            },
        }
    }
}

/// Computes the hop distance from `start` to every vertex of `graph`.
///
/// On success `distances` holds one entry per vertex: `Some(d)` where `d` is
/// the least number of edges on a walk from `start` to that vertex, `None`
/// where there is no such walk. What `distances` held before is discarded.
/// Where `start` is no vertex of the graph, the call fails with
/// `IndexOutOfRange` and leaves `distances` as it was.
pub fn distances_bfs(start: Vertex, graph: &Graph, distances: &mut Vec<Option<usize>>) -> (r: Result<
    (),
    GraphError,
>)
    ensures
        start < graph@.len() ==> r is Ok && is_distance_map(
            graph@,
            start as int,
            final(distances)@,
        ) && final(distances)@[start as int] == Some(0usize),
        start >= graph@.len() ==> r == Err::<(), GraphError>(GraphError::IndexOutOfRange)
            && *final(distances) == *old(distances),
{
    let n = graph.n();
    if start >= n {
        return Err(GraphError::IndexOutOfRange);
    }
    distances.clear();
    let mut i: usize = 0;
    while i < n
        invariant
            i <= n,
            distances@.len() == i,
            forall|v: int| 0 <= v < i ==> distances@[v] is None,
        decreases n - i,
    {
        distances.push(None);
        i += 1;
    }
    distances.set(start, Some(0));
    let mut queue: VecDeque<usize> = VecDeque::new();
    queue.push_back(start);
    let ghost mut order: Seq<usize> = seq![start];
    let ghost mut head: int = 0;
    proof {
        lemma_bfs_init(graph@, start, distances@);
        assert(queue@ =~= order.subrange(0, 1));
    }
    while queue.len() > 0
        invariant
            n == graph@.len(),
            bfs_state(graph@, start as int, distances@, order, head, 0),
            queue@ == order.subrange(head, order.len() as int),
        decreases graph@.len() - head,
    {
        proof {
            lemma_distinct_bounded(order, graph@.len());
            assert(queue@[0] == order[head]);
        }
        let v = queue.pop_front().unwrap();
        let dv = distances[v].unwrap();
        let row = graph.row(v);
        proof {
            assert(level(distances@, order, head) <= head);
            assert(queue@ =~= order.subrange(head + 1, order.len() as int));
        }
        let mut j: usize = 0;
        while j < row.len()
            invariant
                n == graph@.len(),
                head < order.len() <= n,
                v == order[head],
                row@ == graph@[v as int],
                j <= row.len(),
                distances@[v as int] == Some(dv),
                dv <= head,
                bfs_state(graph@, start as int, distances@, order, head, j as int),
                queue@ == order.subrange(head + 1, order.len() as int),
            decreases row.len() - j,
        {
            let u = row[j];
            if distances[u].is_none() {
                proof {
                    lemma_bfs_visit(graph@, start as int, distances@, order, head, j as int);
                }
                distances.set(u, Some(dv + 1));
                queue.push_back(u);
                proof {
                    order = order.push(u);
                    assert(queue@ =~= order.subrange(head + 1, order.len() as int));
                    lemma_distinct_bounded(order, graph@.len());
                }
            } else {
                proof {
                    lemma_bfs_skip(graph@, start as int, distances@, order, head, j as int);
                }
            }
            j += 1;
        }
        proof {
            lemma_bfs_advance(graph@, start as int, distances@, order, head);
            head = head + 1;
        }
    }
    proof {
        assert(head == order.len()) by {
            if head < order.len() {
                assert(queue@.len() == order.len() - head);
            }
        }
        lemma_bfs_done(graph@, start as int, distances@, order);
        lemma_source_distance_zero(graph@, start as int, distances@);
    }
    Ok(())
}

} // verus!
