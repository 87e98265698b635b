//! The graph type: an immutable adjacency table over dense vertex indices.

use vstd::prelude::*;
use crate::adjacency::{adjacency_list, adjacency_of};
use crate::edges::{
    endpoints, index_of, lemma_index_is_position, sorted_nodes, unique_nodes,
};
use crate::error::GraphError;
use crate::paths::{has_edge, in_range, symmetric, well_formed};
use crate::sorting::strictly_ascending;

verus! {

/// A dense vertex index, in `[0, n)`.
pub type Vertex = usize;

/// What a table of adjacency lists holds, row by row.
pub open spec fn table_view(t: Seq<Vec<usize>>) -> Seq<Seq<usize>> {
    Seq::new(t.len(), |i: int| t[i]@)
}

/// An undirected graph on the vertices `0 .. n`. It does not change once
/// built, and its adjacency is mutual.
#[derive(Debug)]
pub struct Graph {
    n: usize,
    outedges: Vec<Vec<usize>>,
    ids: Vec<usize>,
}

impl View for Graph {
    type V = Seq<Seq<usize>>;

    /// The adjacency table: row `u` lists the vertices adjacent to `u`.
    closed spec fn view(&self) -> Seq<Seq<usize>> {
        table_view(self.outedges@)
    }
}

/// The identifiers `0, 1, ..., n - 1`.
pub open spec fn identity_ids(n: nat) -> Seq<usize> {
    Seq::new(n, |i: int| i as usize)
}

impl Graph {
    /// The identifiers of the vertices: entry `v` is the identifier that
    /// vertex `v` stands for. They are in ascending order.
    pub closed spec fn ids(&self) -> Seq<usize> {
        self.ids@
    }

    /// The invariant of the type: `n` is the number of rows, the table is
    /// that of an undirected graph, and each vertex has its identifier.
    #[verifier::type_invariant]
    pub closed spec fn wf(&self) -> bool {
        &&& self.n == self.outedges@.len()
        &&& self.n == self.ids@.len()
        &&& strictly_ascending(self.ids@)
        &&& well_formed(self@)
    }

    /// Builds the graph of an edge list. Its vertices are the distinct
    /// identifiers that occur in the list, indexed in ascending order; an
    /// empty list gives the graph without vertices.
    pub fn from_edges(edges: Vec<(usize, usize)>) -> (g: Graph)
        ensures
            g@ == adjacency_of(edges@, endpoints(edges@)),
            g@.len() == endpoints(edges@).len(),
            well_formed(g@),
            g.ids().len() == g@.len(),
            g.ids().to_set() == endpoints(edges@),
            strictly_ascending(g.ids()),
            forall|v: int|
                0 <= v < g@.len() ==> index_of(endpoints(edges@), #[trigger] g.ids()[v]) == v,
    {
        let nodes = unique_nodes(&edges);
        let ids = sorted_nodes(&nodes);
        proof {
            assert forall|v: int| 0 <= v < ids@.len() implies index_of(nodes@, #[trigger] ids@[v])
                == v by {
                lemma_index_is_position(nodes@, ids@, v);
            }
        }
        let outedges = adjacency_list(edges, nodes);
        Graph { n: outedges.len(), outedges, ids }
    }

    /// Makes a graph of a table of adjacency lists, if the table is that of
    /// an undirected graph: every entry a row number, and `u` listed under
    /// `v` wherever `v` is listed under `u`. Any other table gives `None`.
    /// The identifier of each vertex is its row number.
    pub fn from_adjacency(outedges: Vec<Vec<usize>>) -> (g: Option<Graph>)
        ensures
            well_formed(table_view(outedges@)) ==> g is Some && g->0@ == table_view(outedges@)
                && g->0.ids() == identity_ids(outedges@.len()),
            !well_formed(table_view(outedges@)) ==> g is None,
    {
        if entries_in_range(&outedges) && adjacency_is_mutual(&outedges) {
            let n = outedges.len();
            let mut ids: Vec<usize> = Vec::new();
            let mut i: usize = 0;
            while i < n
                invariant
                    i <= n,
                    ids@ == identity_ids(i as nat),
                decreases n - i,
            {
                ids.push(i);
                assert(ids@ =~= identity_ids((i + 1) as nat));
                i += 1;
            }
            Some(Graph { n, outedges, ids })
        } else {
            None
        }
    }

    /// The number of vertices.
    pub fn n(&self) -> (n: usize)
        ensures
            n == self@.len(),
            n == self.ids().len(),
            well_formed(self@),
            strictly_ascending(self.ids()),
    {
        proof {
            use_type_invariant(self);
        }
        self.n
    }

    /// The adjacency list of a vertex of the graph.
    pub(crate) fn row(&self, v: Vertex) -> (r: &Vec<usize>)
        requires
            v < self@.len(),
        ensures
            r@ == self@[v as int],
    {
        proof {
            use_type_invariant(self);
        }
        &self.outedges[v]
    }

    /// The adjacency list of vertex `v`, or `IndexOutOfRange` where `v` is no
    /// vertex of the graph.
    pub fn neighbors(&self, v: Vertex) -> (r: Result<&Vec<usize>, GraphError>)
        ensures
            v < self@.len() ==> r is Ok && r->Ok_0@ == self@[v as int],
            v >= self@.len() ==> r == Err::<&Vec<usize>, GraphError>(GraphError::IndexOutOfRange),
    {
        proof {
            use_type_invariant(self);
        }
        if v < self.n {
            Ok(&self.outedges[v])
        } else {
            Err(GraphError::IndexOutOfRange)
        }
    }

    /// The identifier that vertex `v` stands for, or `IndexOutOfRange` where
    /// `v` is no vertex of the graph.
    pub fn vertex_id(&self, v: Vertex) -> (r: Result<usize, GraphError>)
        ensures
            v < self@.len() ==> r == Ok::<usize, GraphError>(self.ids()[v as int]),
            v >= self@.len() ==> r == Err::<usize, GraphError>(GraphError::IndexOutOfRange),
    {
        proof {
            use_type_invariant(self);
        }
        if v < self.n {
            Ok(self.ids[v])
        } else {
            Err(GraphError::IndexOutOfRange)
        }
    }

    /// Translates a vertex identifier into the vertex that stands for it, or
    /// fails with `UnknownVertex` where the graph has no such vertex.
    pub fn vertex_index(&self, id: usize) -> (r: Result<Vertex, GraphError>)
        ensures
            self.ids().contains(id) ==> r is Ok && r->Ok_0 < self@.len() && self.ids()[r->Ok_0 as int]
                == id,
            !self.ids().contains(id) ==> r == Err::<Vertex, GraphError>(GraphError::UnknownVertex),
    {
        proof {
            use_type_invariant(self);
        }
        let mut lo: usize = 0;
        let mut hi: usize = self.n;
        while lo < hi
            invariant
                lo <= hi <= self.n,
                self.n == self@.len(),
                self.n == self.ids@.len(),
                strictly_ascending(self.ids@),
                forall|i: int| 0 <= i < lo ==> self.ids@[i] < id,
                forall|i: int| hi <= i < self.n ==> self.ids@[i] > id,
            decreases hi - lo,
        {
            let mid = lo + (hi - lo) / 2;
            let x = self.ids[mid];
            if x == id {
                return Ok(mid);
            } else if x < id {
                assert forall|i: int| 0 <= i < mid + 1 implies self.ids@[i] < id by {
                    if i < mid {
                        assert(self.ids@[i] < self.ids@[mid as int]);
                    }
                }
                lo = mid + 1;
            } else {
                assert forall|i: int| mid <= i < self.n implies self.ids@[i] > id by {
                    if i > mid {
                        assert(self.ids@[mid as int] < self.ids@[i]);
                    }
                }
                hi = mid;
            }
        }
        Err(GraphError::UnknownVertex)
    }
}

/// Whether `u` occurs in the list.
fn lists(row: &Vec<usize>, u: usize) -> (found: bool)
    ensures
        found == exists|j: int| 0 <= j < row@.len() && #[trigger] row@[j] == u,
{
    let mut j: usize = 0;
    while j < row.len()
        invariant
            j <= row.len(),
            forall|i: int| 0 <= i < j ==> #[trigger] row@[i] != u,
        decreases row.len() - j,
    {
        if row[j] == u {
            return true;
        }
        j += 1;
    }
    false
}

/// Whether every entry of the table is a row number.
fn entries_in_range(t: &Vec<Vec<usize>>) -> (ok: bool)
    ensures
        ok == in_range(table_view(t@)),
{
    let n = t.len();
    let ghost adj = table_view(t@);
    let mut u: usize = 0;
    while u < n
        invariant
            u <= n,
            n == t@.len(),
            adj == table_view(t@),
            forall|a: int, j: int|
                0 <= a < u && 0 <= j < adj[a].len() ==> (#[trigger] adj[a][j]) < adj.len(),
        decreases n - u,
    {
        let row = &t[u];
        let mut j: usize = 0;
        while j < row.len()
            invariant
                u < n,
                n == t@.len(),
                adj == table_view(t@),
                row@ == adj[u as int],
                j <= row.len(),
                forall|i: int| 0 <= i < j ==> (#[trigger] adj[u as int][i]) < adj.len(),
            decreases row.len() - j,
        {
            if row[j] >= n {
                assert(!(adj[u as int][j as int] < adj.len()));
                return false;
            }
            j += 1;
        }
        u += 1;
    }
    true
}

/// Whether adjacency in the table is mutual.
fn adjacency_is_mutual(t: &Vec<Vec<usize>>) -> (ok: bool)
    requires
        in_range(table_view(t@)),
    ensures
        ok == symmetric(table_view(t@)),
{
    let n = t.len();
    let ghost adj = table_view(t@);
    let mut u: usize = 0;
    while u < n
        invariant
            u <= n,
            n == t@.len(),
            adj == table_view(t@),
            in_range(adj),
            forall|a: int, j: int|
                0 <= a < u && 0 <= j < adj[a].len() ==> has_edge(adj, (#[trigger] adj[a][j]) as int, a),
        decreases n - u,
    {
        let row = &t[u];
        let mut j: usize = 0;
        while j < row.len()
            invariant
                u < n,
                n == t@.len(),
                adj == table_view(t@),
                in_range(adj),
                row@ == adj[u as int],
                j <= row.len(),
                forall|i: int| 0 <= i < j ==> has_edge(adj, (#[trigger] adj[u as int][i]) as int, u as int),
            decreases row.len() - j,
        {
            let v = row[j];
            assert(adj[u as int][j as int] < adj.len());
            if !lists(&t[v], u) {
                proof {
                    assert(has_edge(adj, u as int, v as int));
                    assert(!has_edge(adj, v as int, u as int));
                }
                return false;
            }
            j += 1;
        }
        u += 1;
    }
    proof {
        assert forall|a: int, b: int| #[trigger] has_edge(adj, a, b) implies has_edge(adj, b, a) by {
            let j = choose|j: int| 0 <= j < adj[a].len() && (#[trigger] adj[a][j]) == b;
            assert(has_edge(adj, adj[a][j] as int, a));
        }
    }
    true
}

} // verus!
