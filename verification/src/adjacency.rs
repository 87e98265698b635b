//! The graph builder: from an edge list and its vertex set to adjacency lists
//! over dense indices.

use std::collections::HashMap;
use std::collections::HashSet;
use vstd::prelude::*;
use crate::edges::{
    covers, endpoints, index_of, lemma_endpoints_finite, lemma_index_in_range,
    lemma_index_is_position, sorted_nodes,
};
use crate::graph::table_view;
use crate::paths::{has_edge, well_formed};

verus! {

/// What one edge adds to the adjacency list of index `i`: the index of its
/// second endpoint if the first has index `i`, then the index of its first
/// endpoint if the second has index `i`. A self-loop adds its vertex twice.
pub open spec fn edge_entries(nodes: Set<usize>, e: (usize, usize), i: int) -> Seq<usize> {
    let a = index_of(nodes, e.0);
    let b = index_of(nodes, e.1);
    (if a == i {
        seq![b as usize]
    } else {
        Seq::<usize>::empty()
    }) + (if b == i {
        seq![a as usize]
    } else {
        Seq::<usize>::empty()
    })
}

/// The adjacency list of index `i`: what the edges add to it, in the order
/// of the edge list. Duplicate edges add duplicate entries.
pub open spec fn incident(edges: Seq<(usize, usize)>, nodes: Set<usize>, i: int) -> Seq<usize>
    decreases edges.len(),
{
    if edges.len() == 0 {
        Seq::<usize>::empty()
    } else {
        incident(edges.drop_last(), nodes, i) + edge_entries(nodes, edges.last(), i)
    }
}

/// The adjacency table of the edge list over the vertex set `nodes`: one
/// list for each identifier, at the identifier's index.
pub open spec fn adjacency_of(edges: Seq<(usize, usize)>, nodes: Set<usize>) -> Seq<Seq<usize>> {
    Seq::new(nodes.len(), |i: int| incident(edges, nodes, i))
}

/// Some edge joins the identifiers with indices `u` and `v`, in either direction.
pub open spec fn joined(edges: Seq<(usize, usize)>, nodes: Set<usize>, u: int, v: int) -> bool {
    exists|k: int|
        0 <= k < edges.len() && {
            let a = index_of(nodes, (#[trigger] edges[k]).0);
            let b = index_of(nodes, edges[k].1);
            (a == u && b == v) || (a == v && b == u)
        }
}

/// An index occurs in the adjacency list of `u` exactly if some edge joins the two.
pub proof fn lemma_incident_joined(edges: Seq<(usize, usize)>, nodes: Set<usize>, u: int, v: int)
    requires
        nodes.finite(),
        nodes.len() <= usize::MAX,
        covers(nodes, edges),
    ensures
        (exists|j: int|
            0 <= j < incident(edges, nodes, u).len() && #[trigger] incident(edges, nodes, u)[j] == v)
            <==> joined(edges, nodes, u, v),
    decreases edges.len(),
{
    if edges.len() == 0 {
    } else {
        let rest = edges.drop_last();
        let e = edges.last();
        let old_row = incident(rest, nodes, u);
        let add = edge_entries(nodes, e, u);
        let row = incident(edges, nodes, u);
        let a = index_of(nodes, e.0);
        let b = index_of(nodes, e.1);
        assert(edges[edges.len() - 1] == e);
        assert(covers(nodes, rest)) by {
            assert forall|k: int| 0 <= k < rest.len() implies nodes.contains((#[trigger] rest[k]).0)
                && nodes.contains(rest[k].1) by {
                assert(rest[k] == edges[k]);
            }
        }
        lemma_incident_joined(rest, nodes, u, v);
        lemma_index_in_range(nodes, e.0);
        lemma_index_in_range(nodes, e.1);
        let in_old = exists|j: int| 0 <= j < old_row.len() && #[trigger] old_row[j] == v;
        let in_add = exists|j: int| 0 <= j < add.len() && #[trigger] add[j] == v;
        let in_row = exists|j: int| 0 <= j < row.len() && #[trigger] row[j] == v;
        let last_joins = (a == u && b == v) || (a == v && b == u);
        assert(in_row <==> in_old || in_add) by {
            if in_old {
                let j = choose|j: int| 0 <= j < old_row.len() && #[trigger] old_row[j] == v;
                assert(row[j] == v);
            }
            if in_add {
                let j = choose|j: int| 0 <= j < add.len() && #[trigger] add[j] == v;
                assert(row[old_row.len() + j] == v);
            }
            if in_row {
                let j = choose|j: int| 0 <= j < row.len() && #[trigger] row[j] == v;
                if j < old_row.len() {
                    assert(old_row[j] == v);
                } else {
                    assert(add[j - old_row.len()] == v);
                }
            }
        }
        assert(in_add <==> last_joins) by {
            if last_joins {
                if a == u && b == v {
                    assert(add[0] == v);
                } else {
                    assert(add[add.len() - 1] == v);
                }
            }
        }
        assert(joined(edges, nodes, u, v) <==> joined(rest, nodes, u, v) || last_joins) by {
            if joined(rest, nodes, u, v) {
                let k = choose|k: int|
                    0 <= k < rest.len() && {
                        let a = index_of(nodes, (#[trigger] rest[k]).0);
                        let b = index_of(nodes, rest[k].1);
                        (a == u && b == v) || (a == v && b == u)
                    };
                assert(edges[k] == rest[k]);
            }
            if joined(edges, nodes, u, v) {
                let k = choose|k: int|
                    0 <= k < edges.len() && {
                        let a = index_of(nodes, (#[trigger] edges[k]).0);
                        let b = index_of(nodes, edges[k].1);
                        (a == u && b == v) || (a == v && b == u)
                    };
                if k < rest.len() {
                    assert(rest[k] == edges[k]);
                }
            }
        }
    }
}

/// Only indices of endpoints are joined, and those are in range.
pub proof fn lemma_joined_in_range(edges: Seq<(usize, usize)>, nodes: Set<usize>, u: int, v: int)
    requires
        nodes.finite(),
        covers(nodes, edges),
        joined(edges, nodes, u, v),
    ensures
        0 <= u < nodes.len(),
        0 <= v < nodes.len(),
{
    let k = choose|k: int|
        0 <= k < edges.len() && {
            let a = index_of(nodes, (#[trigger] edges[k]).0);
            let b = index_of(nodes, edges[k].1);
            (a == u && b == v) || (a == v && b == u)
        };
    lemma_index_in_range(nodes, edges[k].0);
    lemma_index_in_range(nodes, edges[k].1);
}

/// The table built from an edge list is that of an undirected graph: its
/// entries are vertices, and adjacency is mutual.
pub proof fn lemma_adjacency_well_formed(edges: Seq<(usize, usize)>, nodes: Set<usize>)
    requires
        nodes.finite(),
        nodes.len() <= usize::MAX,
        covers(nodes, edges),
    ensures
        well_formed(adjacency_of(edges, nodes)),
{
    let adj = adjacency_of(edges, nodes);
    assert forall|u: int, j: int| 0 <= u < adj.len() && 0 <= j < adj[u].len() implies (#[trigger] adj[u][j])
        < adj.len() by {
        let v = adj[u][j] as int;
        assert(incident(edges, nodes, u)[j] == v);
        lemma_incident_joined(edges, nodes, u, v);
        lemma_joined_in_range(edges, nodes, u, v);
    }
    assert forall|u: int, v: int| #[trigger] has_edge(adj, u, v) implies has_edge(adj, v, u) by {
        let j = choose|j: int| 0 <= j < adj[u].len() && (#[trigger] adj[u][j]) == v;
        assert(incident(edges, nodes, u)[j] == v);
        lemma_incident_joined(edges, nodes, u, v);
        lemma_joined_in_range(edges, nodes, u, v);
        assert(joined(edges, nodes, v, u)) by {
            let k = choose|k: int|
                0 <= k < edges.len() && {
                    let a = index_of(nodes, (#[trigger] edges[k]).0);
                    let b = index_of(nodes, edges[k].1);
                    (a == u && b == v) || (a == v && b == u)
                };
            let a = index_of(nodes, edges[k].0);
            let b = index_of(nodes, edges[k].1);
            assert((a == v && b == u) || (a == u && b == v));
        }
        lemma_incident_joined(edges, nodes, v, u);
        let i = choose|i: int|
            0 <= i < incident(edges, nodes, v).len() && #[trigger] incident(edges, nodes, v)[i] == u;
        assert(adj[v][i] == u);
    }
}

/// Reading back what was built: for every edge `(a, b)` of the list, the
/// index of `b` is in the adjacency list of `a`, and that of `a` in the list
/// of `b`.
pub proof fn lemma_edges_are_adjacent(edges: Seq<(usize, usize)>, nodes: Set<usize>, k: int)
    requires
        nodes.finite(),
        nodes.len() <= usize::MAX,
        covers(nodes, edges),
        0 <= k < edges.len(),
    ensures
        has_edge(
            adjacency_of(edges, nodes),
            index_of(nodes, edges[k].0) as int,
            index_of(nodes, edges[k].1) as int,
        ),
        has_edge(
            adjacency_of(edges, nodes),
            index_of(nodes, edges[k].1) as int,
            index_of(nodes, edges[k].0) as int,
        ),
{
    let adj = adjacency_of(edges, nodes);
    let a = index_of(nodes, edges[k].0) as int;
    let b = index_of(nodes, edges[k].1) as int;
    lemma_index_in_range(nodes, edges[k].0);
    lemma_index_in_range(nodes, edges[k].1);
    assert(joined(edges, nodes, a, b));
    assert(joined(edges, nodes, b, a));
    lemma_incident_joined(edges, nodes, a, b);
    lemma_incident_joined(edges, nodes, b, a);
    let i = choose|i: int|
        0 <= i < incident(edges, nodes, a).len() && #[trigger] incident(edges, nodes, a)[i] == b;
    assert(adj[a][i] == b);
    let j = choose|j: int|
        0 <= j < incident(edges, nodes, b).len() && #[trigger] incident(edges, nodes, b)[j] == a;
    assert(adj[b][j] == a);
}

/// The same of a graph that is built from the edge list alone, over the
/// identifiers that occur in it.
pub proof fn lemma_round_trip(edges: Seq<(usize, usize)>, k: int)
    requires
        endpoints(edges).len() <= usize::MAX,
        0 <= k < edges.len(),
    ensures
        has_edge(
            adjacency_of(edges, endpoints(edges)),
            index_of(endpoints(edges), edges[k].0) as int,
            index_of(endpoints(edges), edges[k].1) as int,
        ),
        has_edge(
            adjacency_of(edges, endpoints(edges)),
            index_of(endpoints(edges), edges[k].1) as int,
            index_of(endpoints(edges), edges[k].0) as int,
        ),
{
    lemma_endpoints_finite(edges);
    lemma_edges_are_adjacent(edges, endpoints(edges), k);
}

/// Builds the adjacency lists of an undirected graph.
///
/// Each identifier of `unique_nodes` gets a dense index, in ascending order
/// of the identifiers. For every edge `(a, b)`, in the order of the list, the
/// index of `b` is appended to the list of `a` and the index of `a` to the
/// list of `b`. Every endpoint of an edge has to be a member of
/// `unique_nodes`.
pub fn adjacency_list(edges: Vec<(usize, usize)>, unique_nodes: HashSet<usize>) -> (graph_list: Vec<
    Vec<usize>,
>)
    requires
        covers(unique_nodes@, edges@),
    ensures
        table_view(graph_list@) == adjacency_of(edges@, unique_nodes@),
        well_formed(table_view(graph_list@)),
        unique_nodes@.finite(),
        graph_list@.len() == unique_nodes@.len(),
{
    broadcast use vstd::std_specs::hash::group_hash_axioms;

    let num_unique = unique_nodes.len();
    let vec_unique_nodes = sorted_nodes(&unique_nodes);
    let ghost ids = vec_unique_nodes@;
    let ghost nodes = unique_nodes@;
    proof {
        assert forall|i: int| 0 <= i < ids.len() implies index_of(nodes, #[trigger] ids[i]) == i by {
            lemma_index_is_position(nodes, ids, i);
        }
    }

    let mut graph_list: Vec<Vec<usize>> = Vec::new();
    let mut node_map: HashMap<usize, usize> = HashMap::new();
    let mut idx: usize = 0;
    while idx < num_unique
        invariant
            idx <= num_unique,
            num_unique == ids.len(),
            vec_unique_nodes@ == ids,
            graph_list@.len() == idx,
            forall|i: int| 0 <= i < idx ==> (#[trigger] graph_list@[i])@ == Seq::<usize>::empty(),
            forall|i: int| 0 <= i < idx ==> node_map@.contains_key(#[trigger] ids[i]),
            forall|x: usize| #[trigger]
                node_map@.contains_key(x) ==> node_map@[x] < idx && ids[node_map@[x] as int] == x,
        decreases num_unique - idx,
    {
        let val = vec_unique_nodes[idx];
        node_map.insert(val, idx);
        graph_list.push(Vec::new());
        idx += 1;
    }

    let mut k: usize = 0;
    while k < edges.len()
        invariant
            k <= edges.len(),
            nodes == unique_nodes@,
            nodes.finite(),
            nodes.len() == num_unique,
            covers(nodes, edges@),
            num_unique == ids.len(),
            ids.to_set() == nodes,
            graph_list@.len() == num_unique,
            forall|i: int| 0 <= i < ids.len() ==> index_of(nodes, #[trigger] ids[i]) == i,
            forall|i: int| 0 <= i < ids.len() ==> node_map@.contains_key(#[trigger] ids[i]),
            forall|x: usize| #[trigger]
                node_map@.contains_key(x) ==> node_map@[x] < num_unique && ids[node_map@[x] as int]
                    == x,
            forall|i: int|
                0 <= i < num_unique ==> (#[trigger] graph_list@[i])@ == incident(
                    edges@.take(k as int),
                    nodes,
                    i,
                ),
        decreases edges.len() - k,
    {
        let (start, destination) = edges[k];
        proof {
            assert(nodes.contains(edges@[k as int].0) && nodes.contains(edges@[k as int].1));
            assert(ids.contains(start));
            assert(ids.contains(destination));
        }
        let a = *node_map.get(&start).unwrap();
        let b = *node_map.get(&destination).unwrap();
        let ghost before = graph_list@;
        graph_list[a].push(b);
        graph_list[b].push(a);
        proof {
            let done = edges@.take(k as int);
            let next = edges@.take(k + 1);
            assert(next.drop_last() =~= done);
            assert(next.last() == (start, destination));
            assert(index_of(nodes, start) == a);
            assert(index_of(nodes, destination) == b);
            assert forall|i: int| 0 <= i < num_unique implies (#[trigger] graph_list@[i])@ == incident(
                next,
                nodes,
                i,
            ) by {
                assert(before[i]@ == incident(done, nodes, i));
                assert(incident(next, nodes, i) == incident(done, nodes, i) + edge_entries(
                    nodes,
                    (start, destination),
                    i,
                ));
                assert(graph_list@[i]@ =~= before[i]@ + edge_entries(nodes, (start, destination), i));
            }
        }
        k += 1;
    }
    proof {
        assert(edges@.take(edges@.len() as int) =~= edges@);
        assert(table_view(graph_list@) =~= adjacency_of(edges@, nodes));
        lemma_adjacency_well_formed(edges@, nodes);
    }
    graph_list
}

} // verus!
