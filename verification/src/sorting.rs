//! Ascending order of unsigned integers.

use vstd::prelude::*;

verus! {

/// No element is followed by a smaller one.
pub open spec fn ascending(s: Seq<usize>) -> bool {
    forall|i: int, j: int| 0 <= i <= j < s.len() ==> s[i] <= s[j]
}

/// Every element is followed only by larger ones.
pub open spec fn strictly_ascending(s: Seq<usize>) -> bool {
    forall|i: int, j: int| 0 <= i < j < s.len() ==> s[i] < s[j]
}

/// `t` is `s` put in ascending order: the same items, as often, in order.
pub open spec fn is_sorted_copy(s: Seq<usize>, t: Seq<usize>) -> bool {
    ascending(t) && t.to_multiset() == s.to_multiset()
}

/// Sorts the vector in place with the standard library's `<[usize]>::sort`.
/// Trusted: afterwards the vector is in ascending order and holds the items
/// it held before, each as often as before.
#[verifier::external_body]
pub(crate) fn sort_ascending(v: &mut Vec<usize>)
    ensures
        is_sorted_copy(old(v)@, final(v)@),
{
    v.sort();
}

/// A sorted copy has the length and the members of the sequence it was made of.
pub proof fn lemma_sorted_copy_members(s: Seq<usize>, t: Seq<usize>)
    requires
        is_sorted_copy(s, t),
    ensures
        t.len() == s.len(),
        forall|x: usize| s.contains(x) <==> t.contains(x),
        t.to_set() == s.to_set(),
        s.no_duplicates() ==> t.no_duplicates() && strictly_ascending(t),
{
    broadcast use vstd::seq_lib::group_to_multiset_ensures;

    assert(t.len() == t.to_multiset().len());
    assert(s.len() == s.to_multiset().len());
    assert forall|x: usize| s.contains(x) <==> t.contains(x) by {
        assert(s.contains(x) <==> s.to_multiset().count(x) > 0);
        assert(t.contains(x) <==> t.to_multiset().count(x) > 0);
    }
    assert(t.to_set() =~= s.to_set());
    if s.no_duplicates() {
        s.lemma_multiset_has_no_duplicates();
        t.lemma_multiset_has_no_duplicates_conv();
        assert forall|i: int, j: int| 0 <= i < j < t.len() implies t[i] < t[j] by {
            assert(t[i] <= t[j]);
            assert(t[i] != t[j]);
        }
    }
}

/// Two sorted copies of one sequence are equal.
pub proof fn lemma_sorted_copy_unique(s: Seq<usize>, t1: Seq<usize>, t2: Seq<usize>)
    requires
        is_sorted_copy(s, t1),
        is_sorted_copy(s, t2),
    ensures
        t1 == t2,
{
    let leq = |a: usize, b: usize| a <= b;
    assert(vstd::relations::total_ordering(leq));
    assert(vstd::relations::sorted_by(t1, leq));
    assert(vstd::relations::sorted_by(t2, leq));
    vstd::seq_lib::lemma_sorted_unique(t1, t2, leq);
}

} // verus!
