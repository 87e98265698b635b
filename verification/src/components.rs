//! Connected components: a labeling of the vertices by component.

use std::collections::VecDeque;
use vstd::prelude::*;
use crate::error::GraphError;
use crate::graph::{Graph, Vertex};
use crate::paths::{
    connected, has_edge, in_range, lemma_distinct_bounded, lemma_reach_concat,
    lemma_reach_extend, lemma_reach_last_edge, lemma_reach_reverse, lemma_reach_self,
    lemma_reach_zero, reach_in, symmetric, well_formed,
};

verus! {

/// `v` is the first vertex of its component: no vertex before it is
/// connected to it.
pub open spec fn is_leader(adj: Seq<Seq<usize>>, v: int) -> bool {
    &&& 0 <= v < adj.len()
    &&& forall|u: int| 0 <= u < v ==> !#[trigger] connected(adj, u, v)
}

/// The number of components that have a vertex before `k`.
pub open spec fn leaders_below(adj: Seq<Seq<usize>>, k: int) -> nat
    decreases k,
{
    if k <= 0 {
        0
    } else {
        leaders_below(adj, k - 1) + if is_leader(adj, k - 1) {
            1nat
        } else {
            0nat
        }
    }
}

/// `labels` assigns every vertex its component: two vertices have the same
/// label exactly if they are connected, and the components are numbered
/// `0, 1, 2, ...` in the order of their first vertices.
pub open spec fn is_component_labeling(adj: Seq<Seq<usize>>, labels: Seq<usize>) -> bool {
    &&& labels.len() == adj.len()
    &&& forall|u: int, v: int|
        0 <= u < adj.len() && 0 <= v < adj.len() ==> (labels[u] == labels[v] <==> #[trigger] connected(
            adj,
            u,
            v,
        ))
    &&& forall|v: int| #[trigger] is_leader(adj, v) ==> labels[v] == leaders_below(adj, v)
}

/// Connection is an equivalence on the vertices of an undirected graph.
pub proof fn lemma_connected_equivalence(adj: Seq<Seq<usize>>, u: int, v: int, w: int)
    requires
        symmetric(adj),
        0 <= u < adj.len(),
    ensures
        connected(adj, u, u),
        connected(adj, u, v) ==> connected(adj, v, u),
        connected(adj, u, v) && connected(adj, v, w) ==> connected(adj, u, w),
{
    lemma_reach_self(adj, u);
    if connected(adj, u, v) {
        let k = choose|k: nat| #[trigger] reach_in(adj, u, v, k);
        lemma_reach_reverse(adj, u, v, k);
        if connected(adj, v, w) {
            let m = choose|m: nat| #[trigger] reach_in(adj, v, w, m);
            lemma_reach_concat(adj, u, v, w, k, m);
        }
    }
}

/// "Same label" is an equivalence relation on the vertices: reflexive,
/// symmetric and transitive.
pub proof fn lemma_same_label_equivalence(labels: Seq<usize>, u: int, v: int, w: int)
    requires
        0 <= u < labels.len(),
        0 <= v < labels.len(),
        0 <= w < labels.len(),
    ensures
        labels[u] == labels[u],
        labels[u] == labels[v] ==> labels[v] == labels[u],
        labels[u] == labels[v] && labels[v] == labels[w] ==> labels[u] == labels[w],
{
}

/// A graph has one component labeling.
pub proof fn lemma_component_labeling_unique(adj: Seq<Seq<usize>>, l1: Seq<usize>, l2: Seq<usize>)
    requires
        symmetric(adj),
        is_component_labeling(adj, l1),
        is_component_labeling(adj, l2),
    ensures
        l1 == l2,
{
    assert forall|v: int| 0 <= v < l1.len() implies l1[v] == l2[v] by {
        let r = lemma_leader_exists(adj, v);
        assert(connected(adj, r, v));
        assert(is_leader(adj, r));
    }
    assert(l1 =~= l2);
}

/// Every vertex is connected to the first vertex of its component.
pub proof fn lemma_leader_exists(adj: Seq<Seq<usize>>, v: int) -> (r: int)
    requires
        symmetric(adj),
        0 <= v < adj.len(),
    ensures
        0 <= r <= v,
        is_leader(adj, r),
        connected(adj, r, v),
    decreases v,
{
    if is_leader(adj, v) {
        lemma_reach_self(adj, v);
        v
    } else {
        let u = choose|u: int| 0 <= u < v && #[trigger] connected(adj, u, v);
        let r = lemma_leader_exists(adj, u);
        lemma_connected_equivalence(adj, r, u, v);
        r
    }
}

/// Whoever is connected to a marked vertex is marked.
spec fn comp_closed(adj: Seq<Seq<usize>>, marks: Seq<Option<usize>>) -> bool {
    forall|a: int, b: int|
        0 <= a < adj.len() && marks[a] is Some && #[trigger] connected(adj, a, b) ==> marks[b] is Some
}

/// Whoever is adjacent to a marked vertex is marked.
spec fn edge_closed(adj: Seq<Seq<usize>>, marks: Seq<Option<usize>>) -> bool {
    forall|u: int, w: int| #[trigger] has_edge(adj, u, w) && marks[u] is Some ==> marks[w] is Some
}

/// The first `done` neighbours of `u` are marked.
spec fn row_marked(adj: Seq<Seq<usize>>, marks: Seq<Option<usize>>, u: int, done: int) -> bool {
    forall|j: int| 0 <= j < done ==> marks[#[trigger] adj[u][j] as int] is Some
}

/// A set of marked vertices that is closed under adjacency holds every
/// vertex that a walk from one of its members reaches.
proof fn lemma_edge_closed_reach(
    adj: Seq<Seq<usize>>,
    marks: Seq<Option<usize>>,
    a: int,
    b: int,
    k: nat,
)
    requires
        edge_closed(adj, marks),
        marks[a] is Some,
        reach_in(adj, a, b, k),
    ensures
        marks[b] is Some,
    decreases k,
{
    if k == 0 {
        lemma_reach_zero(adj, a, b);
    } else {
        let u = lemma_reach_last_edge(adj, a, b, (k - 1) as nat);
        lemma_edge_closed_reach(adj, marks, a, u, (k - 1) as nat);
        assert(has_edge(adj, u, b));
    }
}

/// The state of a flood fill from `root`: `order` lists the vertices that
/// the fill has marked, those before position `head` have had all their
/// neighbours examined, and the one at `head` its first `done` neighbours.
spec fn fill_state(
    adj: Seq<Seq<usize>>,
    root: int,
    label: usize,
    before: Seq<Option<usize>>,
    marks: Seq<Option<usize>>,
    order: Seq<usize>,
    head: int,
    done: int,
) -> bool {
    &&& in_range(adj)
    &&& adj.len() <= usize::MAX
    &&& before.len() == adj.len()
    &&& marks.len() == adj.len()
    &&& 0 <= root < adj.len()
    &&& comp_closed(adj, before)
    &&& before[root] is None
    &&& order.len() > 0
    &&& order[0] == root
    &&& 0 <= head <= order.len()
    &&& order.no_duplicates()
    &&& forall|i: int|
        0 <= i < order.len() ==> {
            &&& (#[trigger] order[i]) < adj.len()
            &&& before[order[i] as int] is None
            &&& connected(adj, root, order[i] as int)
        }
    &&& forall|v: usize|
        v < adj.len() ==> #[trigger] marks[v as int] == (if before[v as int] is Some {
            before[v as int]
        } else if order.contains(v) {
            Some(label)
        } else {
            None
        })
    &&& forall|i: int|
        0 <= i < head ==> #[trigger] row_marked(
            adj,
            marks,
            order[i] as int,
            adj[order[i] as int].len() as int,
        )
    &&& head < order.len() ==> {
        &&& 0 <= done <= adj[order[head] as int].len()
        &&& row_marked(adj, marks, order[head] as int, done)
    }
}

/// The fill starts with the root alone, marked.
proof fn lemma_fill_init(
    adj: Seq<Seq<usize>>,
    root: usize,
    label: usize,
    before: Seq<Option<usize>>,
)
    requires
        in_range(adj),
        adj.len() <= usize::MAX,
        before.len() == adj.len(),
        root < adj.len(),
        comp_closed(adj, before),
        before[root as int] is None,
    ensures
        fill_state(adj, root as int, label, before, before.update(root as int, Some(label)), seq![root], 0, 0),
{
    let order = seq![root];
    let marks = before.update(root as int, Some(label));
    assert(order[0] == root);
    lemma_reach_self(adj, root as int);
    assert forall|v: usize| v < adj.len() implies #[trigger] marks[v as int] == (if before[v as int] is Some {
        before[v as int]
    } else if order.contains(v) {
        Some(label)
    } else {
        None
    }) by {
        if order.contains(v) {
            let i = choose|i: int| 0 <= i < order.len() && order[i] == v;
            assert(v == root);
        }
    }
}

/// A neighbour that is marked already needs no work.
proof fn lemma_fill_skip(
    adj: Seq<Seq<usize>>,
    root: int,
    label: usize,
    before: Seq<Option<usize>>,
    marks: Seq<Option<usize>>,
    order: Seq<usize>,
    head: int,
    done: int,
)
    requires
        fill_state(adj, root, label, before, marks, order, head, done),
        head < order.len(),
        done < adj[order[head] as int].len(),
        marks[adj[order[head] as int][done] as int] is Some,
    ensures
        fill_state(adj, root, label, before, marks, order, head, done + 1),
{
    let u = order[head] as int;
    assert forall|j: int| 0 <= j < done + 1 implies marks[#[trigger] adj[u][j] as int] is Some by {
        if j < done {
        }
    }
}

/// A neighbour without a mark gets the label and joins the order at its end.
proof fn lemma_fill_visit(
    adj: Seq<Seq<usize>>,
    root: int,
    label: usize,
    before: Seq<Option<usize>>,
    marks: Seq<Option<usize>>,
    order: Seq<usize>,
    head: int,
    done: int,
)
    requires
        fill_state(adj, root, label, before, marks, order, head, done),
        head < order.len(),
        done < adj[order[head] as int].len(),
        marks[adj[order[head] as int][done] as int] is None,
    ensures
        fill_state(
            adj,
            root,
            label,
            before,
            marks.update(adj[order[head] as int][done] as int, Some(label)),
            order.push(adj[order[head] as int][done]),
            head,
            done + 1,
        ),
{
    let u = order[head] as int;
    let w = adj[u][done];
    let marks2 = marks.update(w as int, Some(label));
    let order2 = order.push(w);
    let len = order.len() as int;
    assert(w < adj.len());
    assert(marks[w as int] is None);
    assert(before[w as int] is None && !order.contains(w));
    assert forall|i: int| 0 <= i < len implies order[i] != w by {}
    assert(order2[len] == w);
    assert forall|a: int, b: int| 0 <= a < order2.len() && 0 <= b < order2.len() && a != b implies order2[a]
        != order2[b] by {
        if a < len && b < len {
            assert(order2[a] == order[a]);
            assert(order2[b] == order[b]);
        }
    }
    assert(connected(adj, root, w as int)) by {
        assert(connected(adj, root, order[head] as int));
        let k = choose|k: nat| #[trigger] reach_in(adj, root, u, k);
        assert(has_edge(adj, u, w as int));
        lemma_reach_extend(adj, root, u, w as int, k);
    }
    assert forall|i: int| 0 <= i < order2.len() implies {
        &&& (#[trigger] order2[i]) < adj.len()
        &&& before[order2[i] as int] is None
        &&& connected(adj, root, order2[i] as int)
    } by {
        if i < len {
            assert(order2[i] == order[i]);
        }
    }
    assert forall|v: usize| v < adj.len() implies #[trigger] marks2[v as int] == (if before[v as int] is Some {
        before[v as int]
    } else if order2.contains(v) {
        Some(label)
    } else {
        None
    }) by {
        if v == w {
            assert(order2[len] == v);
        } else {
            assert(marks2[v as int] == marks[v as int]);
            if order.contains(v) {
                let i = choose|i: int| 0 <= i < order.len() && order[i] == v;
                assert(order2[i] == v);
            }
            if order2.contains(v) {
                let i = choose|i: int| 0 <= i < order2.len() && order2[i] == v;
                assert(i < len);
                assert(order[i] == v);
            }
        }
    }
    assert forall|i: int| 0 <= i < head implies #[trigger] row_marked(
        adj,
        marks2,
        order2[i] as int,
        adj[order2[i] as int].len() as int,
    ) by {
        assert(order2[i] == order[i]);
        let x = order[i] as int;
        assert(row_marked(adj, marks, x, adj[x].len() as int));
        assert forall|j: int| 0 <= j < adj[x].len() implies marks2[#[trigger] adj[x][j] as int] is Some by {
            assert(marks[adj[x][j] as int] is Some);
        }
    }
    assert(order2[head] == order[head]);
    assert(order2[0] == order[0]);
    assert(row_marked(adj, marks2, u, done + 1)) by {
        assert forall|j: int| 0 <= j < done + 1 implies marks2[#[trigger] adj[u][j] as int] is Some by {
            if j < done {
                assert(marks[adj[u][j] as int] is Some);
            }
        }
    }
}

/// When all neighbours of the vertex at `head` are examined, the fill moves
/// on to the next vertex that it marked.
proof fn lemma_fill_advance(
    adj: Seq<Seq<usize>>,
    root: int,
    label: usize,
    before: Seq<Option<usize>>,
    marks: Seq<Option<usize>>,
    order: Seq<usize>,
    head: int,
)
    requires
        head < order.len(),
        fill_state(adj, root, label, before, marks, order, head, adj[order[head] as int].len() as int),
    ensures
        fill_state(adj, root, label, before, marks, order, head + 1, 0),
{
    assert forall|i: int| 0 <= i < head + 1 implies #[trigger] row_marked(
        adj,
        marks,
        order[i] as int,
        adj[order[i] as int].len() as int,
    ) by {}
}

/// What a finished flood fill has done: it has marked, with `label`, exactly
/// the vertices connected to `root`, and touched no other mark.
spec fn filled(
    adj: Seq<Seq<usize>>,
    root: int,
    label: usize,
    before: Seq<Option<usize>>,
    marks: Seq<Option<usize>>,
) -> bool {
    &&& marks.len() == adj.len()
    &&& comp_closed(adj, marks)
    &&& forall|v: int|
        0 <= v < adj.len() ==> #[trigger] marks[v] == (if before[v] is Some {
            before[v]
        } else if connected(adj, root, v) {
            Some(label)
        } else {
            None
        })
}

/// When no marked vertex is left to examine, the fill has marked exactly the
/// vertices connected to the root.
proof fn lemma_fill_done(
    adj: Seq<Seq<usize>>,
    root: int,
    label: usize,
    before: Seq<Option<usize>>,
    marks: Seq<Option<usize>>,
    order: Seq<usize>,
)
    requires
        fill_state(adj, root, label, before, marks, order, order.len() as int, 0),
    ensures
        filled(adj, root, label, before, marks),
{
    assert(edge_closed(adj, marks)) by {
        assert forall|u: int, w: int| #[trigger] has_edge(adj, u, w) && marks[u] is Some implies marks[w] is Some by {
            let j = choose|j: int| 0 <= j < adj[u].len() && (#[trigger] adj[u][j]) == w;
            assert(adj[u][j] < adj.len());
            let uu = u as usize;
            assert(marks[uu as int] is Some);
            if before[u] is Some {
                lemma_reach_self(adj, u);
                lemma_reach_extend(adj, u, u, w, 0);
                assert(reach_in(adj, u, w, 1));
                assert(connected(adj, u, w));
                assert(before[w] is Some);
                let ww = w as usize;
                assert(marks[ww as int] == before[ww as int]);
            } else {
                assert(order.contains(uu));
                let i = choose|i: int| 0 <= i < order.len() && order[i] == uu;
                assert(row_marked(adj, marks, order[i] as int, adj[order[i] as int].len() as int));
                assert(marks[adj[u][j] as int] is Some);
            }
        }
    }
    assert(comp_closed(adj, marks)) by {
        assert forall|a: int, b: int|
            0 <= a < adj.len() && marks[a] is Some && #[trigger] connected(adj, a, b) implies marks[b] is Some by {
            let k = choose|k: nat| #[trigger] reach_in(adj, a, b, k);
            lemma_edge_closed_reach(adj, marks, a, b, k);
        }
    }
    assert forall|v: int| 0 <= v < adj.len() implies #[trigger] marks[v] == (if before[v] is Some {
        before[v]
    } else if connected(adj, root, v) {
        Some(label)
    } else {
        None
    }) by {
        let vv = v as usize;
        assert(marks[vv as int] == (if before[vv as int] is Some {
            before[vv as int]
        } else if order.contains(vv) {
            Some(label)
        } else {
            None
        }));
        if before[v] is None {
            if order.contains(vv) {
                let i = choose|i: int| 0 <= i < order.len() && order[i] == vv;
                assert(connected(adj, root, order[i] as int));
            } else if connected(adj, root, v) {
                let rr = root as usize;
                assert(order[0] == rr);
                assert(order.contains(rr));
                assert(marks[rr as int] is Some);
                let k = choose|k: nat| #[trigger] reach_in(adj, root, v, k);
                lemma_edge_closed_reach(adj, marks, root, v, k);
            }
        }
    }
}

/// Marks with `label` every vertex that is connected to `root`.
fn flood_fill(graph: &Graph, root: usize, label: usize, marks: &mut Vec<Option<usize>>)
    requires
        root < graph@.len(),
        old(marks)@.len() == graph@.len(),
        old(marks)@[root as int] is None,
        comp_closed(graph@, old(marks)@),
    ensures
        filled(graph@, root as int, label, old(marks)@, final(marks)@),
{
    let n = graph.n();
    let ghost before = marks@;
    marks.set(root, Some(label));
    let mut queue: VecDeque<usize> = VecDeque::new();
    queue.push_back(root);
    let ghost mut order: Seq<usize> = seq![root];
    let ghost mut head: int = 0;
    proof {
        lemma_fill_init(graph@, root, label, before);
        assert(queue@ =~= order.subrange(0, 1));
    }
    while queue.len() > 0
        invariant
            n == graph@.len(),
            fill_state(graph@, root as int, label, before, marks@, order, head, 0),
            queue@ == order.subrange(head, order.len() as int),
        decreases graph@.len() - head,
    {
        proof {
            lemma_distinct_bounded(order, graph@.len());
            assert(queue@[0] == order[head]);
        }
        let v = queue.pop_front().unwrap();
        let row = graph.row(v);
        proof {
            assert(queue@ =~= order.subrange(head + 1, order.len() as int));
        }
        let mut j: usize = 0;
        while j < row.len()
            invariant
                n == graph@.len(),
                head < order.len() <= n,
                v == order[head],
                row@ == graph@[v as int],
                j <= row.len(),
                fill_state(graph@, root as int, label, before, marks@, order, head, j as int),
                queue@ == order.subrange(head + 1, order.len() as int),
            decreases row.len() - j,
        {
            let u = row[j];
            if marks[u].is_none() {
                proof {
                    lemma_fill_visit(graph@, root as int, label, before, marks@, order, head, j as int);
                }
                marks.set(u, Some(label));
                queue.push_back(u);
                proof {
                    order = order.push(u);
                    assert(queue@ =~= order.subrange(head + 1, order.len() as int));
                    lemma_distinct_bounded(order, graph@.len());
                }
            } else {
                proof {
                    lemma_fill_skip(graph@, root as int, label, before, marks@, order, head, j as int);
                }
            }
            j += 1;
        }
        proof {
            lemma_fill_advance(graph@, root as int, label, before, marks@, order, head);
            head = head + 1;
        }
    }
    proof {
        assert(head == order.len()) by {
            if head < order.len() {
                assert(queue@.len() == order.len() - head);
            }
        }
        lemma_fill_done(graph@, root as int, label, before, marks@, order);
    }
}

/// Some vertex before `v` is connected to `a`.
spec fn rooted_below(adj: Seq<Seq<usize>>, a: int, v: int) -> bool {
    exists|r: int| 0 <= r < v && #[trigger] connected(adj, r, a)
}

/// The state of the labeling when the vertices before `v` are done:
/// `count` components have been found and marked with `0 .. count`.
spec fn labeling_state(adj: Seq<Seq<usize>>, marks: Seq<Option<usize>>, v: int, count: int) -> bool {
    &&& well_formed(adj)
    &&& marks.len() == adj.len()
    &&& 0 <= v <= adj.len()
    &&& comp_closed(adj, marks)
    &&& forall|u: int| 0 <= u < v ==> (#[trigger] marks[u]) is Some
    &&& forall|a: int| 0 <= a < adj.len() && (#[trigger] marks[a]) is Some ==> marks[a]->0 < count
    &&& forall|a: int| 0 <= a < adj.len() && marks[a] is Some ==> #[trigger] rooted_below(adj, a, v)
    &&& forall|a: int, b: int|
        0 <= a < adj.len() && 0 <= b < adj.len() && marks[a] is Some && marks[b] is Some ==> (marks[a]
            == marks[b] <==> #[trigger] connected(adj, a, b))
    &&& count == leaders_below(adj, v)
    &&& count <= v
    &&& forall|u: int|
        0 <= u < v && #[trigger] is_leader(adj, u) ==> marks[u] == Some(leaders_below(adj, u) as usize)
}

/// A vertex that is marked already belongs to a component found before.
proof fn lemma_label_skip(adj: Seq<Seq<usize>>, marks: Seq<Option<usize>>, v: int, count: int)
    requires
        labeling_state(adj, marks, v, count),
        v < adj.len(),
        marks[v] is Some,
    ensures
        labeling_state(adj, marks, v + 1, count),
{
    assert(rooted_below(adj, v, v));
    assert(!is_leader(adj, v));
    assert forall|a: int| 0 <= a < adj.len() && marks[a] is Some implies #[trigger] rooted_below(
        adj,
        a,
        v + 1,
    ) by {
        assert(rooted_below(adj, a, v));
        let r = choose|r: int| 0 <= r < v && #[trigger] connected(adj, r, a);
        assert(0 <= r < v + 1 && connected(adj, r, a));
    }
}

/// A vertex without a mark is the first of a new component, which a fill
/// from it marks with the next label.
proof fn lemma_label_fill(
    adj: Seq<Seq<usize>>,
    before: Seq<Option<usize>>,
    marks: Seq<Option<usize>>,
    v: int,
    count: int,
)
    requires
        labeling_state(adj, before, v, count),
        v < adj.len(),
        adj.len() <= usize::MAX,
        before[v] is None,
        filled(adj, v, count as usize, before, marks),
    ensures
        labeling_state(adj, marks, v + 1, count + 1),
{
    let label = count as usize;
    lemma_reach_self(adj, v);
    assert(is_leader(adj, v)) by {
        assert forall|u: int| 0 <= u < v implies !#[trigger] connected(adj, u, v) by {
            assert(before[u] is Some);
        }
    }
    assert forall|u: int| 0 <= u < v + 1 implies (#[trigger] marks[u]) is Some by {
        if u < v {
            assert(before[u] is Some);
        }
    }
    assert forall|a: int| 0 <= a < adj.len() && (#[trigger] marks[a]) is Some implies marks[a]->0 < count
        + 1 by {
        if before[a] is Some {
            assert(before[a]->0 < count);
        }
    }
    assert forall|a: int| 0 <= a < adj.len() && marks[a] is Some implies #[trigger] rooted_below(
        adj,
        a,
        v + 1,
    ) by {
        if before[a] is Some {
            assert(rooted_below(adj, a, v));
            let r = choose|r: int| 0 <= r < v && #[trigger] connected(adj, r, a);
            assert(0 <= r < v + 1 && connected(adj, r, a));
        } else {
            assert(connected(adj, v, a));
        }
    }
    assert forall|a: int, b: int|
        0 <= a < adj.len() && 0 <= b < adj.len() && marks[a] is Some && marks[b] is Some implies (marks[a]
        == marks[b] <==> #[trigger] connected(adj, a, b)) by {
        if before[a] is Some && before[b] is Some {
        } else if before[a] is Some {
            assert(marks[b] == Some(label));
            assert(before[a]->0 < count);
            if connected(adj, a, b) {
                assert(before[b] is Some);
            }
        } else if before[b] is Some {
            assert(marks[a] == Some(label));
            assert(before[b]->0 < count);
            if connected(adj, a, b) {
                lemma_connected_equivalence(adj, a, b, a);
                assert(connected(adj, b, a));
                assert(before[a] is Some);
            }
        } else {
            assert(connected(adj, v, a));
            assert(connected(adj, v, b));
            lemma_connected_equivalence(adj, v, a, v);
            lemma_connected_equivalence(adj, a, v, b);
        }
    }
    assert forall|u: int| 0 <= u < v + 1 && #[trigger] is_leader(adj, u) implies marks[u] == Some(
        leaders_below(adj, u) as usize,
    ) by {
        if u < v {
            assert(before[u] is Some);
        }
    }
}

/// When every vertex is done, the marks are the component labeling.
proof fn lemma_label_done(
    adj: Seq<Seq<usize>>,
    marks: Seq<Option<usize>>,
    count: int,
    labels: Seq<usize>,
)
    requires
        labeling_state(adj, marks, adj.len() as int, count),
        adj.len() <= usize::MAX,
        labels.len() == adj.len(),
        forall|i: int| 0 <= i < adj.len() ==> marks[i] == Some(#[trigger] labels[i]),
    ensures
        is_component_labeling(adj, labels),
{
    assert forall|u: int, v: int| 0 <= u < adj.len() && 0 <= v < adj.len() implies (labels[u]
        == labels[v] <==> #[trigger] connected(adj, u, v)) by {
        assert(marks[u] == Some(labels[u]));
        assert(marks[v] == Some(labels[v]));
    }
    assert forall|v: int| #[trigger] is_leader(adj, v) implies labels[v] == leaders_below(adj, v) by {
        assert(marks[v] == Some(labels[v]));
        lemma_leaders_bound(adj, v);
    }
}

/// There are no more components with a vertex before `k` than vertices before `k`.
pub proof fn lemma_leaders_bound(adj: Seq<Seq<usize>>, k: int)
    ensures
        leaders_below(adj, k) <= if k < 0 {
            0
        } else {
            k
        },
    decreases k,
{
    if k > 0 {
        lemma_leaders_bound(adj, k - 1);
    }
}

/// Labels the vertices of the graph by connected component.
///
/// Two vertices get the same label exactly if a walk joins them. The labels
/// are `0, 1, 2, ...` in the order in which the components are met when the
/// vertices are visited in ascending order: the component of vertex 0 is
/// component 0. A graph without vertices has the empty labeling.
pub fn label_components(graph: &Graph) -> (labels: Vec<usize>)
    ensures
        is_component_labeling(graph@, labels@),
{
    let n = graph.n();
    let mut marks: Vec<Option<usize>> = Vec::new();
    let mut i: usize = 0;
    while i < n
        invariant
            i <= n,
            marks@.len() == i,
            forall|v: int| 0 <= v < i ==> marks@[v] is None,
        decreases n - i,
    {
        marks.push(None);
        i += 1;
    }
    let mut count: usize = 0;
    let mut v: usize = 0;
    while v < n
        invariant
            n == graph@.len(),
            v <= n,
            labeling_state(graph@, marks@, v as int, count as int),
        decreases n - v,
    {
        if marks[v].is_none() {
            let ghost before = marks@;
            flood_fill(graph, v, count, &mut marks);
            proof {
                lemma_label_fill(graph@, before, marks@, v as int, count as int);
            }
            count += 1;
        } else {
            proof {
                lemma_label_skip(graph@, marks@, v as int, count as int);
            }
        }
        v += 1;
    }
    let mut labels: Vec<usize> = Vec::new();
    let mut k: usize = 0;
    while k < n
        invariant
            n == graph@.len(),
            k <= n,
            labels@.len() == k,
            labeling_state(graph@, marks@, n as int, count as int),
            forall|i: int| 0 <= i < k ==> marks@[i] == Some(#[trigger] labels@[i]),
        decreases n - k,
    {
        let label = marks[k].unwrap();
        labels.push(label);
        k += 1;
    }
    proof {
        lemma_label_done(graph@, marks@, count as int, labels@);
    }
    labels
}

/// The label of the component of vertex `v`, or `IndexOutOfRange` where `v`
/// is no vertex of the graph.
pub fn component_of(graph: &Graph, v: Vertex) -> (r: Result<usize, GraphError>)
    ensures
        v >= graph@.len() ==> r == Err::<usize, GraphError>(GraphError::IndexOutOfRange),
        v < graph@.len() ==> r is Ok && exists|labels: Seq<usize>|
            #[trigger] is_component_labeling(graph@, labels) && labels[v as int] == r->Ok_0,
{
    if v >= graph.n() {
        return Err(GraphError::IndexOutOfRange);
    }
    let labels = label_components(graph);
    Ok(labels[v])
}

} // verus!
