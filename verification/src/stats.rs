//! Summary statistics of a distribution of hop distances: mean, maximum and
//! median, as exact values.

use vstd::prelude::*;
pub use crate::bfs::distances_bfs;
use crate::error::GraphError;
use crate::graph::{Graph, Vertex};
use crate::paths::{is_distance_map, lemma_source_distance_zero};
use crate::sorting::{
    is_sorted_copy, lemma_sorted_copy_members, lemma_sorted_copy_unique, sort_ascending,
};

verus! {

/// An exact non-negative fraction. The value it stands for is
/// `numerator / denominator`; the denominator is never zero in what this
/// module returns.
#[derive(Clone, Copy, Debug, PartialEq, Eq, Structural)]
pub struct Ratio {
    pub numerator: u128,
    pub denominator: u128,
}

/// Mean, maximum and median of a distribution of distances.
#[derive(Clone, Copy, Debug, PartialEq, Eq, Structural)]
pub struct DistanceStats {
    pub mean: Ratio,
    pub max: usize,
    pub median: Ratio,
}

/// The sum of the items.
pub open spec fn seq_sum(s: Seq<usize>) -> nat
    decreases s.len(),
{
    if s.len() == 0 {
        0
    } else {
        seq_sum(s.drop_last()) + s.last() as nat
    }
}

/// `m` is an item of `s`, and no item is larger.
pub open spec fn is_maximum(s: Seq<usize>, m: usize) -> bool {
    s.contains(m) && forall|i: int| 0 <= i < s.len() ==> s[i] <= m
}

/// `m` is an item of `s`, and no item is smaller.
pub open spec fn is_minimum(s: Seq<usize>, m: usize) -> bool {
    s.contains(m) && forall|i: int| 0 <= i < s.len() ==> s[i] >= m
}

/// The mean of the items: their sum over their number.
pub open spec fn mean_of(s: Seq<usize>) -> Ratio {
    Ratio { numerator: seq_sum(s) as u128, denominator: s.len() as u128 }
}

/// The median of a non-empty ascending sequence: the middle item where the
/// length is odd, half the sum of the two central items where it is even.
pub open spec fn median_of_sorted(t: Seq<usize>) -> Ratio {
    let mid = t.len() as int / 2;
    if t.len() % 2 == 1 {
        Ratio { numerator: t[mid] as u128, denominator: 1 }
    } else {
        Ratio { numerator: (t[mid - 1] + t[mid]) as u128, denominator: 2 }
    }
}

/// `r` is the median of `s`: that of `s` put in ascending order.
pub open spec fn is_median(s: Seq<usize>, r: Ratio) -> bool {
    exists|t: Seq<usize>| #[trigger] is_sorted_copy(s, t) && r == median_of_sorted(t)
}

/// `stats` holds the mean, the maximum and the median of the non-empty `s`.
pub open spec fn is_summary(s: Seq<usize>, stats: DistanceStats) -> bool {
    &&& s.len() > 0
    &&& stats.mean == mean_of(s)
    &&& is_maximum(s, stats.max)
    &&& is_median(s, stats.median)
}

/// The distances that are present in a distance map, in the order of the vertices.
pub open spec fn present(dist: Seq<Option<usize>>) -> Seq<usize>
    decreases dist.len(),
{
    if dist.len() == 0 {
        Seq::<usize>::empty()
    } else {
        match dist.last() {
            Some(d) => present(dist.drop_last()).push(d),
            None => present(dist.drop_last()),
        }
    }
}

/// A sum of machine integers is at most their number times the largest of them.
pub proof fn lemma_sum_bound(s: Seq<usize>)
    ensures
        seq_sum(s) <= s.len() * usize::MAX,
    decreases s.len(),
{
    if s.len() > 0 {
        lemma_sum_bound(s.drop_last());
        assert(seq_sum(s.drop_last()) + s.last() <= (s.len() - 1) * usize::MAX + usize::MAX);
        assert((s.len() - 1) * usize::MAX + usize::MAX == s.len() * usize::MAX) by (nonlinear_arith);
    }
}

/// A sum of at most `usize::MAX` machine integers fits in 128 bits.
pub proof fn lemma_sum_fits(s: Seq<usize>)
    requires
        s.len() <= usize::MAX,
    ensures
        seq_sum(s) <= u128::MAX,
{
    lemma_sum_bound(s);
    let n = s.len() as int;
    let m = usize::MAX as int;
    assert(m <= 0xffff_ffff_ffff_ffff);
    assert(n * m <= 0xffff_ffff_ffff_ffff * 0xffff_ffff_ffff_ffff) by (nonlinear_arith)
        requires
            0 <= n <= m,
            0 <= m <= 0xffff_ffff_ffff_ffff,
    ;
}

/// Removing an item lowers the sum by that item.
proof fn lemma_sum_remove(t: Seq<usize>, i: int)
    requires
        0 <= i < t.len(),
    ensures
        seq_sum(t) == seq_sum(t.remove(i)) + t[i],
    decreases t.len(),
{
    if i == t.len() - 1 {
        assert(t.remove(i) =~= t.drop_last());
    } else {
        lemma_sum_remove(t.drop_last(), i);
        assert(t.remove(i).drop_last() =~= t.drop_last().remove(i));
        assert(t.remove(i).last() == t.last());
    }
}

/// The sum does not depend on the order of the items.
pub proof fn lemma_sum_permutation(s: Seq<usize>, t: Seq<usize>)
    requires
        s.to_multiset() == t.to_multiset(),
    ensures
        seq_sum(s) == seq_sum(t),
    decreases s.len(),
{
    broadcast use vstd::seq_lib::group_to_multiset_ensures;

    assert(s.len() == s.to_multiset().len());
    assert(t.len() == t.to_multiset().len());
    if s.len() > 0 {
        let x = s.last();
        assert(s[s.len() - 1] == x);
        assert(s.contains(x));
        assert(s.to_multiset().count(x) > 0);
        assert(t.contains(x));
        let i = choose|i: int| 0 <= i < t.len() && t[i] == x;
        assert(s.drop_last() =~= s.remove(s.len() - 1));
        vstd::seq_lib::to_multiset_remove(s, s.len() - 1);
        vstd::seq_lib::to_multiset_remove(t, i);
        lemma_sum_permutation(s.drop_last(), t.remove(i));
        lemma_sum_remove(t, i);
    }
}

/// In an ascending sequence the last item is the maximum and the first the
/// minimum, also of every sequence that it is a sorted copy of.
pub proof fn lemma_sorted_ends(s: Seq<usize>, t: Seq<usize>)
    requires
        s.len() > 0,
        is_sorted_copy(s, t),
    ensures
        t.len() == s.len(),
        is_maximum(s, t[t.len() - 1]),
        is_minimum(s, t[0]),
{
    lemma_sorted_copy_members(s, t);
    assert(t.contains(t[t.len() - 1]));
    assert(t.contains(t[0]));
    assert forall|i: int| 0 <= i < s.len() implies t[0] <= #[trigger] s[i] <= t[t.len() - 1] by {
        assert(s.contains(s[i]));
        assert(t.contains(s[i]));
        let j = choose|j: int| 0 <= j < t.len() && t[j] == s[i];
        assert(t[0] <= t[j] <= t[t.len() - 1]);
    }
}

/// A sequence has one maximum.
pub proof fn lemma_maximum_unique(s: Seq<usize>, a: usize, b: usize)
    requires
        is_maximum(s, a),
        is_maximum(s, b),
    ensures
        a == b,
{
    let i = choose|i: int| 0 <= i < s.len() && s[i] == a;
    let j = choose|j: int| 0 <= j < s.len() && s[j] == b;
    assert(s[i] <= b);
    assert(s[j] <= a);
}

/// A sequence has one median.
pub proof fn lemma_median_unique(s: Seq<usize>, a: Ratio, b: Ratio)
    requires
        is_median(s, a),
        is_median(s, b),
    ensures
        a == b,
{
    let t1 = choose|t: Seq<usize>| #[trigger] is_sorted_copy(s, t) && a == median_of_sorted(t);
    let t2 = choose|t: Seq<usize>| #[trigger] is_sorted_copy(s, t) && b == median_of_sorted(t);
    lemma_sorted_copy_unique(s, t1, t2);
}

/// The median of a non-empty sequence lies between its minimum and its
/// maximum, both included.
pub proof fn lemma_median_between(s: Seq<usize>, lo: usize, hi: usize, median: Ratio)
    requires
        s.len() > 0,
        is_minimum(s, lo),
        is_maximum(s, hi),
        is_median(s, median),
    ensures
        median.denominator > 0,
        lo * median.denominator <= median.numerator <= hi * median.denominator,
{
    let t = choose|t: Seq<usize>| #[trigger] is_sorted_copy(s, t) && median == median_of_sorted(t);
    lemma_sorted_ends(s, t);
    lemma_maximum_unique(s, hi, t[t.len() - 1]);
    let i = choose|i: int| 0 <= i < s.len() && s[i] == lo;
    assert(s[i] >= t[0]);
    let j = choose|j: int| 0 <= j < s.len() && s[j] == t[0];
    assert(s[j] >= lo);
    let mid = t.len() as int / 2;
    assert(t[0] <= t[mid] <= t[t.len() - 1]);
    if t.len() % 2 == 0 {
        assert(t[0] <= t[mid - 1] <= t[t.len() - 1]);
    }
}

/// The sum of the items as a mean: over their number. Fails with
/// `EmptyInputError` on an empty sequence.
pub fn mean(distances: &Vec<usize>) -> (r: Result<Ratio, GraphError>)
    ensures
        distances@.len() == 0 ==> r == Err::<Ratio, GraphError>(GraphError::EmptyInputError),
        distances@.len() > 0 ==> r == Ok::<Ratio, GraphError>(mean_of(distances@)),
        r is Ok ==> r->Ok_0.numerator == seq_sum(distances@) && r->Ok_0.denominator
            == distances@.len(),
{
    let count = distances.len();
    if count == 0 {
        return Err(GraphError::EmptyInputError);
    }
    let mut total: u128 = 0;
    let mut i: usize = 0;
    while i < count
        invariant
            i <= count,
            count == distances@.len(),
            total == seq_sum(distances@.take(i as int)),
        decreases count - i,
    {
        proof {
            let next = distances@.take(i + 1);
            assert(next.drop_last() =~= distances@.take(i as int));
            assert(next.last() == distances@[i as int]);
            lemma_sum_fits(next);
        }
        total = total + distances[i] as u128;
        i += 1;
    }
    proof {
        assert(distances@.take(count as int) =~= distances@);
        lemma_sum_fits(distances@);
    }
    Ok(Ratio { numerator: total, denominator: count as u128 })
}

/// The largest item. Fails with `EmptyInputError` on an empty sequence.
pub fn max(distances: &Vec<usize>) -> (r: Result<usize, GraphError>)
    ensures
        distances@.len() == 0 ==> r == Err::<usize, GraphError>(GraphError::EmptyInputError),
        distances@.len() > 0 ==> r is Ok && is_maximum(distances@, r->Ok_0),
{
    if distances.len() == 0 {
        return Err(GraphError::EmptyInputError);
    }
    let mut best: usize = distances[0];
    let mut i: usize = 1;
    proof {
        assert(distances@.take(1)[0] == best);
    }
    while i < distances.len()
        invariant
            1 <= i <= distances@.len(),
            is_maximum(distances@.take(i as int), best),
        decreases distances@.len() - i,
    {
        let ghost prev = distances@.take(i as int);
        let ghost next = distances@.take(i + 1);
        let x = distances[i];
        if x > best {
            best = x;
        }
        proof {
            assert(next[i as int] == x);
            if best != x {
                let j = choose|j: int| 0 <= j < prev.len() && prev[j] == best;
                assert(next[j] == best);
            }
            assert forall|k: int| 0 <= k < next.len() implies next[k] <= best by {
                if k < i {
                    assert(prev[k] == next[k]);
                }
            }
        }
        i += 1;
    }
    proof {
        assert(distances@.take(distances@.len() as int) =~= distances@);
    }
    Ok(best)
}

/// The median of a non-empty ascending sequence.
fn median_sorted(sorted: &Vec<usize>) -> (r: Ratio)
    requires
        sorted@.len() > 0,
    ensures
        r == median_of_sorted(sorted@),
{
    let len = sorted.len();
    if len % 2 == 1 {
        Ratio { numerator: sorted[len / 2] as u128, denominator: 1 }
    } else {
        let mid1 = sorted[len / 2 - 1] as u128;
        let mid2 = sorted[len / 2] as u128;
        Ratio { numerator: mid1 + mid2, denominator: 2 }
    }
}

/// The median: of the items in ascending order, the middle one where their
/// number is odd, and half the sum of the two central ones where it is even.
/// Fails with `EmptyInputError` on an empty sequence.
pub fn median(distances: &Vec<usize>) -> (r: Result<Ratio, GraphError>)
    ensures
        distances@.len() == 0 ==> r == Err::<Ratio, GraphError>(GraphError::EmptyInputError),
        distances@.len() > 0 ==> r is Ok && is_median(distances@, r->Ok_0),
{
    if distances.len() == 0 {
        return Err(GraphError::EmptyInputError);
    }
    let mut sorted_distances = distances.clone();
    assert(sorted_distances@ =~= distances@);
    sort_ascending(&mut sorted_distances);
    proof {
        lemma_sorted_copy_members(distances@, sorted_distances@);
    }
    let r = median_sorted(&sorted_distances);
    assert(is_sorted_copy(distances@, sorted_distances@));
    Ok(r)
}

/// Mean, maximum and median of the items, all three taken from one sorted
/// copy. Fails with `EmptyInputError` on an empty sequence.
pub fn summarize(distances: &Vec<usize>) -> (r: Result<DistanceStats, GraphError>)
    ensures
        distances@.len() == 0 ==> r == Err::<DistanceStats, GraphError>(
            GraphError::EmptyInputError,
        ),
        distances@.len() > 0 ==> r is Ok && is_summary(distances@, r->Ok_0),
{
    if distances.len() == 0 {
        return Err(GraphError::EmptyInputError);
    }
    let mut sorted = distances.clone();
    assert(sorted@ =~= distances@);
    sort_ascending(&mut sorted);
    proof {
        lemma_sorted_ends(distances@, sorted@);
        lemma_sum_permutation(distances@, sorted@);
    }
    let mean_distance = match mean(&sorted) {
        Ok(m) => m,
        Err(e) => {
            return Err(e);
        },
    };
    let max_distance = sorted[sorted.len() - 1];
    let median_distance = median_sorted(&sorted);
    assert(is_sorted_copy(distances@, sorted@));
    Ok(DistanceStats { mean: mean_distance, max: max_distance, median: median_distance })
}

/// The distances that are present, in the order of the vertices.
pub fn reached(distances: &Vec<Option<usize>>) -> (filtered: Vec<usize>)
    ensures
        filtered@ == present(distances@),
{
    let mut filtered: Vec<usize> = Vec::new();
    let mut i: usize = 0;
    while i < distances.len()
        invariant
            i <= distances@.len(),
            filtered@ == present(distances@.take(i as int)),
        decreases distances@.len() - i,
    {
        proof {
            let next = distances@.take(i + 1);
            assert(next.drop_last() =~= distances@.take(i as int));
            assert(next.last() == distances@[i as int]);
        }
        match distances[i] {
            Some(d) => {
                filtered.push(d);
            },
            None => {},
        }
        i += 1;
    }
    proof {
        assert(distances@.take(distances@.len() as int) =~= distances@);
    }
    filtered
}

/// A distance map holds at least one distance: that of its source.
pub proof fn lemma_present_nonempty(dist: Seq<Option<usize>>, v: int)
    requires
        0 <= v < dist.len(),
        dist[v] is Some,
    ensures
        present(dist).len() > 0,
    decreases dist.len(),
{
    if v < dist.len() - 1 {
        lemma_present_nonempty(dist.drop_last(), v);
    }
}

/// Mean, maximum and median of the hop distances from `start_vertex` to the
/// vertices that it reaches, itself included.
///
/// Fails with `EmptyInputError` on a graph without vertices, where there is
/// no distance to speak of, and with `IndexOutOfRange` where the graph has
/// vertices and `start_vertex` is none of them.
pub fn calculate_graph_statistics(graph: &Graph, start_vertex: Vertex) -> (r: Result<
    DistanceStats,
    GraphError,
>)
    ensures
        graph@.len() == 0 ==> r == Err::<DistanceStats, GraphError>(GraphError::EmptyInputError),
        0 < graph@.len() <= start_vertex ==> r == Err::<DistanceStats, GraphError>(
            GraphError::IndexOutOfRange,
        ),
        start_vertex < graph@.len() ==> r is Ok && exists|dist: Seq<Option<usize>>|
            #[trigger] is_distance_map(graph@, start_vertex as int, dist) && is_summary(
                present(dist),
                r->Ok_0,
            ),
{
    if graph.n() == 0 {
        return Err(GraphError::EmptyInputError);
    }
    let mut distances: Vec<Option<usize>> = Vec::new();
    match distances_bfs(start_vertex, graph, &mut distances) {
        Ok(()) => {},
        Err(e) => {
            return Err(e);
        },
    }
    let filtered_distances = reached(&distances);
    proof {
        lemma_source_distance_zero(graph@, start_vertex as int, distances@);
        lemma_present_nonempty(distances@, start_vertex as int);
    }
    summarize(&filtered_distances)
}

} // verus!
