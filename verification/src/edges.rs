//! Edge ingestion: the set of vertex identifiers of an edge list, and the
//! dense index that each identifier gets.

use std::collections::HashSet;
use vstd::prelude::*;
use vstd::std_specs::iter::IteratorSpec;
use crate::error::GraphError;
use crate::graph::Vertex;
use crate::sorting::{lemma_sorted_copy_members, sort_ascending, strictly_ascending};

verus! {

/// The identifiers that occur as an endpoint of some edge.
pub open spec fn endpoints(edges: Seq<(usize, usize)>) -> Set<usize> {
    Set::new(
        |x: usize|
            exists|k: int| 0 <= k < edges.len() && ((#[trigger] edges[k]).0 == x || edges[k].1 == x),
    )
}

/// Both endpoints of every edge are members of `nodes`.
pub open spec fn covers(nodes: Set<usize>, edges: Seq<(usize, usize)>) -> bool {
    forall|k: int|
        0 <= k < edges.len() ==> nodes.contains((#[trigger] edges[k]).0) && nodes.contains(edges[k].1)
}

/// The members of `nodes` that are smaller than `x`.
pub open spec fn below(nodes: Set<usize>, x: usize) -> Set<usize> {
    nodes.filter(|y: usize| y < x)
}

/// The dense index of identifier `x`: the number of identifiers smaller than
/// it. Identifiers are so numbered `0, 1, 2, ...` in ascending order.
pub open spec fn index_of(nodes: Set<usize>, x: usize) -> nat {
    below(nodes, x).len()
}

/// The index of a member is smaller than the number of members.
pub proof fn lemma_index_in_range(nodes: Set<usize>, x: usize)
    requires
        nodes.finite(),
        nodes.contains(x),
    ensures
        index_of(nodes, x) < nodes.len(),
{
    let rest = nodes.remove(x);
    assert(below(nodes, x).subset_of(rest));
    vstd::set_lib::lemma_len_subset(below(nodes, x), rest);
}

/// Indices follow the order of the identifiers, so distinct members have
/// distinct indices.
pub proof fn lemma_index_monotone(nodes: Set<usize>, x: usize, y: usize)
    requires
        nodes.finite(),
        nodes.contains(x),
        x < y,
    ensures
        index_of(nodes, x) < index_of(nodes, y),
{
    let by = below(nodes, y);
    assert(by.subset_of(nodes));
    vstd::set_lib::lemma_len_subset(by, nodes);
    assert(by.contains(x));
    let rest = by.remove(x);
    assert(below(nodes, x).subset_of(rest));
    vstd::set_lib::lemma_len_subset(below(nodes, x), rest);
}

/// The identifiers and their indices are in one-to-one correspondence.
pub proof fn lemma_index_injective(nodes: Set<usize>, x: usize, y: usize)
    requires
        nodes.finite(),
        nodes.contains(x),
        nodes.contains(y),
        index_of(nodes, x) == index_of(nodes, y),
    ensures
        x == y,
{
    if x < y {
        lemma_index_monotone(nodes, x, y);
    } else if y < x {
        lemma_index_monotone(nodes, y, x);
    }
}

/// In the ascending sequence of the members, each stands at its index.
pub proof fn lemma_index_is_position(nodes: Set<usize>, ids: Seq<usize>, i: int)
    requires
        strictly_ascending(ids),
        ids.to_set() == nodes,
        0 <= i < ids.len(),
    ensures
        index_of(nodes, ids[i]) == i,
{
    let prefix = ids.take(i);
    assert forall|x: usize| below(nodes, ids[i]).contains(x) <==> prefix.to_set().contains(x) by {
        if below(nodes, ids[i]).contains(x) {
            assert(ids.contains(x));
            let j = choose|j: int| 0 <= j < ids.len() && ids[j] == x;
            if j >= i {
                if j > i {
                    assert(ids[i] < ids[j]);
                }
            }
            assert(prefix[j] == x);
        }
        if prefix.to_set().contains(x) {
            let j = choose|j: int| 0 <= j < prefix.len() && prefix[j] == x;
            assert(ids[j] == x);
            assert(ids[j] < ids[i]);
            assert(ids.contains(x));
        }
    }
    assert(below(nodes, ids[i]) =~= prefix.to_set());
    assert(prefix.no_duplicates());
    prefix.unique_seq_to_set();
}

/// The endpoints of an edge list are finitely many.
pub proof fn lemma_endpoints_finite(edges: Seq<(usize, usize)>)
    ensures
        endpoints(edges).finite(),
        covers(endpoints(edges), edges),
    decreases edges.len(),
{
    if edges.len() == 0 {
        assert(endpoints(edges) =~= Set::<usize>::empty());
    } else {
        let rest = edges.drop_last();
        let e = edges.last();
        lemma_endpoints_finite(rest);
        assert forall|x: usize| endpoints(edges).contains(x) <==> endpoints(rest).insert(e.0).insert(
            e.1,
        ).contains(x) by {
            if endpoints(edges).contains(x) {
                let k = choose|k: int|
                    0 <= k < edges.len() && ((#[trigger] edges[k]).0 == x || edges[k].1 == x);
                if k < rest.len() {
                    assert(rest[k] == edges[k]);
                }
            }
            if endpoints(rest).contains(x) {
                let k = choose|k: int|
                    0 <= k < rest.len() && ((#[trigger] rest[k]).0 == x || rest[k].1 == x);
                assert(edges[k] == rest[k]);
            }
            if x == e.0 || x == e.1 {
                assert(edges[edges.len() - 1] == e);
            }
        }
        assert(endpoints(edges) =~= endpoints(rest).insert(e.0).insert(e.1));
    }
    assert forall|k: int| 0 <= k < edges.len() implies endpoints(edges).contains((#[trigger] edges[k]).0)
        && endpoints(edges).contains(edges[k].1) by {}
}

/// The set of distinct vertex identifiers that occur in the edge list.
/// Edges need not be sorted or distinct; a self-loop contributes its vertex
/// once.
pub fn unique_nodes(edges: &Vec<(usize, usize)>) -> (unique_nodes_set: HashSet<usize>)
    ensures
        unique_nodes_set@ == endpoints(edges@),
        unique_nodes_set@.finite(),
        covers(unique_nodes_set@, edges@),
{
    broadcast use vstd::std_specs::hash::group_hash_axioms;

    let mut unique_nodes_set: HashSet<usize> = HashSet::new();
    let mut k: usize = 0;
    proof {
        assert(endpoints(edges@.take(0)) =~= Set::<usize>::empty());
    }
    while k < edges.len()
        invariant
            k <= edges.len(),
            unique_nodes_set@ == endpoints(edges@.take(k as int)),
        decreases edges.len() - k,
    {
        let (i, j) = edges[k];
        unique_nodes_set.insert(i);
        unique_nodes_set.insert(j);
        proof {
            let before = edges@.take(k as int);
            let after = edges@.take(k + 1);
            assert forall|x: usize| endpoints(after).contains(x) <==> endpoints(before).insert(i).insert(
                j,
            ).contains(x) by {
                if endpoints(after).contains(x) {
                    let m = choose|m: int|
                        0 <= m < after.len() && ((#[trigger] after[m]).0 == x || after[m].1 == x);
                    if m < k {
                        assert(before[m] == after[m]);
                    }
                }
                if endpoints(before).contains(x) {
                    let m = choose|m: int|
                        0 <= m < before.len() && ((#[trigger] before[m]).0 == x || before[m].1 == x);
                    assert(after[m] == before[m]);
                }
                if x == i || x == j {
                    assert(after[k as int] == (i, j));
                }
            }
            assert(endpoints(after) =~= endpoints(before).insert(i).insert(j));
        }
        k += 1;
    }
    proof {
        assert(edges@.take(edges@.len() as int) =~= edges@);
        lemma_endpoints_finite(edges@);
    }
    unique_nodes_set
}

/// The members of the vertex set in ascending order: each stands at its
/// dense index.
pub fn sorted_nodes(unique_nodes: &HashSet<usize>) -> (ids: Vec<usize>)
    ensures
        strictly_ascending(ids@),
        ids@.to_set() == unique_nodes@,
        ids@.len() == unique_nodes@.len(),
        unique_nodes@.finite(),
{
    broadcast use vstd::std_specs::hash::group_hash_axioms;

    let mut ids: Vec<usize> = Vec::new();
    for x in it: unique_nodes.iter()
        invariant
            it.seq() == unique_nodes.iter().remaining(),
            ids@ == it.seq().take(it.index() as int).unref(),
    {
        ids.push(*x);
    }
    let ghost collected = ids@;
    proof {
        let r = unique_nodes.iter().remaining();
        assert(collected == r.unref());
        assert(collected.to_set() == unique_nodes@);
        assert(collected.no_duplicates()) by {
            assert forall|i: int, j: int|
                0 <= i < collected.len() && 0 <= j < collected.len() && i != j implies collected[i]
                != collected[j] by {
                assert(collected[i] == *r[i]);
                assert(collected[j] == *r[j]);
                assert(r[i] != r[j]);
            }
        }
        vstd::seq_lib::seq_to_set_is_finite(collected);
    }
    sort_ascending(&mut ids);
    proof {
        lemma_sorted_copy_members(collected, ids@);
    }
    ids
}

/// Translates a vertex identifier into its dense index, or fails with
/// `UnknownVertex` where the identifier is no member of the vertex set.
pub fn vertex_index(unique_nodes: &HashSet<usize>, id: usize) -> (r: Result<Vertex, GraphError>)
    ensures
        unique_nodes@.contains(id) ==> r == Ok::<Vertex, GraphError>(
            index_of(unique_nodes@, id) as usize,
        ) && index_of(unique_nodes@, id) < unique_nodes@.len() <= usize::MAX,
        !unique_nodes@.contains(id) ==> r == Err::<Vertex, GraphError>(GraphError::UnknownVertex),
{
    broadcast use vstd::std_specs::hash::group_hash_axioms;

    if !unique_nodes.contains(&id) {
        return Err(GraphError::UnknownVertex);
    }
    let total = unique_nodes.len();
    let mut count: usize = 0;
    let ghost mut seen: Seq<usize> = Seq::empty();
    for x in it: unique_nodes.iter()
        invariant
            it.seq() == unique_nodes.iter().remaining(),
            it.seq().len() == total,
            seen == it.seq().take(it.index() as int).unref(),
            count <= it.index(),
            count == count_below(seen, id),
    {
        proof {
            assert(it.seq().take(it.index() + 1).unref() =~= seen.push(*x));
            assert(seen.push(*x).drop_last() =~= seen);
            seen = seen.push(*x);
        }
        if *x < id {
            count += 1;
        }
    }
    proof {
        let all = unique_nodes.iter().remaining().unref();
        assert(seen =~= all);
        assert(all.no_duplicates()) by {
            let r = unique_nodes.iter().remaining();
            assert forall|i: int, j: int| 0 <= i < all.len() && 0 <= j < all.len() && i != j implies all[i]
                != all[j] by {
                assert(all[i] == *r[i]);
                assert(all[j] == *r[j]);
                assert(r[i] != r[j]);
            }
        }
        lemma_count_below(all, id);
        lemma_index_in_range(unique_nodes@, id);
    }
    Ok(count)
}

/// How many items of `s` are smaller than `id`.
spec fn count_below(s: Seq<usize>, id: usize) -> nat
    decreases s.len(),
{
    if s.len() == 0 {
        0
    } else {
        count_below(s.drop_last(), id) + if s.last() < id {
            1nat
        } else {
            0nat
        }
    }
}

/// Of a sequence without repetition, as many items lie below `id` as
/// members of its set do.
proof fn lemma_count_below(s: Seq<usize>, id: usize)
    requires
        s.no_duplicates(),
    ensures
        s.to_set().finite(),
        count_below(s, id) == below(s.to_set(), id).len(),
    decreases s.len(),
{
    vstd::seq_lib::seq_to_set_is_finite(s);
    if s.len() == 0 {
        assert(below(s.to_set(), id) =~= Set::<usize>::empty());
    } else {
        let rest = s.drop_last();
        let x = s.last();
        lemma_count_below(rest, id);
        assert(!rest.to_set().contains(x)) by {
            if rest.contains(x) {
                let j = choose|j: int| 0 <= j < rest.len() && rest[j] == x;
                assert(s[j] == x);
                assert(s[s.len() - 1] == x);
            }
        }
        assert forall|y: usize| s.to_set().contains(y) <==> rest.to_set().insert(x).contains(y) by {
            if s.contains(y) {
                let j = choose|j: int| 0 <= j < s.len() && s[j] == y;
                if j < rest.len() {
                    assert(rest[j] == y);
                }
            }
            if rest.contains(y) {
                let j = choose|j: int| 0 <= j < rest.len() && rest[j] == y;
                assert(s[j] == y);
            }
            if y == x {
                assert(s[s.len() - 1] == y);
            }
        }
        assert(s.to_set() =~= rest.to_set().insert(x));
        if x < id {
            assert(below(s.to_set(), id) =~= below(rest.to_set(), id).insert(x));
        } else {
            assert(below(s.to_set(), id) =~= below(rest.to_set(), id));
        }
    }
}

} // verus!
