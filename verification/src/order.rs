//! The order on the elements, and what it means for a sequence to be sorted.

use vstd::prelude::*;
use vstd::std_specs::cmp::PartialOrdIs;
use vstd::std_specs::cmp::PartialOrdSpec;

verus! {

/// `a <= b`, as the element type compares.
pub open spec fn le<T: PartialOrd>(a: T, b: T) -> bool {
    a.is_le(&b)
}

/// The comparison operators of `T` compute what `partial_cmp_spec` says, any
/// two elements can be compared, `<=` is transitive, and `>` is its negation.
/// Elements that compare equal need not be identical.
pub open spec fn total_preorder<T: PartialOrd>() -> bool {
    &&& T::obeys_partial_cmp_spec()
    &&& forall|a: T, b: T| #[trigger] le(a, b) || le(b, a)
    &&& forall|a: T, b: T, c: T| #[trigger] le(a, b) && #[trigger] le(b, c) ==> le(a, c)
    &&& forall|a: T, b: T| !(#[trigger] le(a, b)) <==> a.is_gt(&b)
}

/// A total preorder in which elements that compare equal are identical.
pub open spec fn total_order<T: PartialOrd>() -> bool {
    &&& total_preorder::<T>()
    &&& forall|a: T, b: T| #[trigger] le(a, b) && le(b, a) ==> a == b
}

/// The elements of `s` at the positions `lo..hi` ascend.
pub open spec fn sorted_between<T: PartialOrd>(s: Seq<T>, lo: int, hi: int) -> bool {
    forall|i: int, j: int| lo <= i < j < hi ==> le(#[trigger] s[i], #[trigger] s[j])
}

/// The whole of `s` ascends.
pub open spec fn sorted<T: PartialOrd>(s: Seq<T>) -> bool {
    sorted_between(s, 0, s.len() as int)
}

/// Each element of `s` is at most its successor.
pub open spec fn ascending_steps<T: PartialOrd>(s: Seq<T>) -> bool {
    forall|i: int| 0 <= i < s.len() - 1 ==> le(#[trigger] s[i], s[i + 1])
}

/// `a` holds the elements of `b`, each as often as `b` does.
pub open spec fn permutation<T>(a: Seq<T>, b: Seq<T>) -> bool {
    a.to_multiset() == b.to_multiset()
}

/// In a total preorder every element is at most itself.
pub proof fn lemma_le_reflexive<T: PartialOrd>(a: T)
    requires
        total_preorder::<T>(),
    ensures
        le(a, a),
{
    assert(le(a, a) || le(a, a));
}

/// A sequence ascends as soon as each element is at most its successor.
pub proof fn lemma_steps_give_sorted<T: PartialOrd>(s: Seq<T>)
    requires
        total_preorder::<T>(),
        ascending_steps(s),
    ensures
        sorted(s),
{
    assert forall|i: int, j: int| 0 <= i < j < s.len() implies le(
        #[trigger] s[i],
        #[trigger] s[j],
    ) by {
        lemma_steps_reach(s, i, j);
    }
}

proof fn lemma_steps_reach<T: PartialOrd>(s: Seq<T>, i: int, j: int)
    requires
        total_preorder::<T>(),
        ascending_steps(s),
        0 <= i < j < s.len(),
    ensures
        le(s[i], s[j]),
    decreases j - i,
{
    if j > i + 1 {
        lemma_steps_reach(s, i, j - 1);
        assert(le(s[j - 1], s[j - 1 + 1]));
    }
}

/// A sorted sequence is unchanged by any rearrangement that leaves it sorted:
/// under a total order two sorted sequences with the same elements are equal.
pub proof fn lemma_sorted_permutation_unique<T: PartialOrd>(a: Seq<T>, b: Seq<T>)
    requires
        total_order::<T>(),
        sorted(a),
        sorted(b),
        permutation(a, b),
    ensures
        a == b,
{
    let leq = |x: T, y: T| le(x, y);
    assert forall|x: T| #[trigger] leq(x, x) by {
        lemma_le_reflexive(x);
    }
    assert(vstd::relations::total_ordering(leq));
    assert(vstd::relations::sorted_by(a, leq));
    assert(vstd::relations::sorted_by(b, leq));
    vstd::seq_lib::lemma_sorted_unique(a, b, leq);
}

/// Sorting has one outcome: under a total order any two sorted
/// rearrangements of the same input are equal, whichever sorter made them
/// and however many workers took part.
pub proof fn lemma_sorting_is_determined<T: PartialOrd>(input: Seq<T>, a: Seq<T>, b: Seq<T>)
    requires
        total_order::<T>(),
        sorted(a),
        permutation(a, input),
        sorted(b),
        permutation(b, input),
    ensures
        a == b,
{
    lemma_sorted_permutation_unique(a, b);
}

/// Every type whose `Ord` obeys the laws of comparison, and whose `==` is
/// identity, is totally ordered. The primitive integers are such types.
pub proof fn lemma_lawful_ord_is_total<T: Ord>()
    requires
        vstd::laws_cmp::obeys_cmp::<T>(),
        vstd::laws_eq::obeys_concrete_eq::<T>(),
    ensures
        total_order::<T>(),
{
    reveal(vstd::laws_cmp::obeys_cmp_partial_ord);
    reveal(vstd::laws_cmp::obeys_cmp_ord);
    reveal(vstd::laws_cmp::obeys_partial_cmp_spec_properties);
    reveal(vstd::laws_eq::obeys_eq_spec_properties);
    reveal(vstd::laws_eq::obeys_concrete_eq);
    assert forall|a: T, b: T, c: T| #[trigger] le(a, b) && #[trigger] le(b, c) implies le(
        a,
        c,
    ) by {
        lemma_lawful_le_transitive(a, b, c);
    }
}

proof fn lemma_lawful_le_transitive<T: Ord>(a: T, b: T, c: T)
    requires
        vstd::laws_cmp::obeys_cmp::<T>(),
        vstd::laws_eq::obeys_concrete_eq::<T>(),
        le(a, b),
        le(b, c),
    ensures
        le(a, c),
{
    reveal(vstd::laws_cmp::obeys_cmp_partial_ord);
    reveal(vstd::laws_cmp::obeys_cmp_ord);
    reveal(vstd::laws_cmp::obeys_partial_cmp_spec_properties);
    reveal(vstd::laws_eq::obeys_eq_spec_properties);
    reveal(vstd::laws_eq::obeys_concrete_eq);
    if a == b || b == c {
    } else {
        assert(a.is_lt(&b));
        assert(b.is_lt(&c));
    }
}

/// `s` with the elements at `i` and `j` exchanged.
pub open spec fn swapped<T>(s: Seq<T>, i: int, j: int) -> Seq<T> {
    s.update(i, s[j]).update(j, s[i])
}

/// Exchanging two elements rearranges a sequence.
pub proof fn lemma_swapped_permutation<T>(s: Seq<T>, i: int, j: int)
    requires
        0 <= i < s.len(),
        0 <= j < s.len(),
    ensures
        permutation(swapped(s, i, j), s),
{
    broadcast use vstd::multiset::group_multiset_axioms;
    let once = s.update(i, s[j]);
    assert(once.len() == s.len());
    assert(once[j] == s[j]);
    vstd::seq_lib::to_multiset_update(s, i, s[j]);
    vstd::seq_lib::to_multiset_update(once, j, s[i]);
    vstd::seq_lib::to_multiset_contains(s, s[i]);
    vstd::seq_lib::to_multiset_contains(s, s[j]);
    assert(s.contains(s[i]) && s.contains(s[j]));
    assert(swapped(s, i, j).to_multiset() =~= s.to_multiset());
}

/// Every element of a sequence occurs in each of its rearrangements.
pub proof fn lemma_permutation_member<T>(a: Seq<T>, b: Seq<T>, k: int) -> (at: int)
    requires
        permutation(a, b),
        0 <= k < a.len(),
    ensures
        0 <= at < b.len(),
        b[at] == a[k],
{
    vstd::seq_lib::to_multiset_contains(a, a[k]);
    vstd::seq_lib::to_multiset_contains(b, a[k]);
    assert(a.contains(a[k]));
    assert(b.contains(a[k]));
    choose|at: int| 0 <= at < b.len() && b[at] == a[k]
}

/// Two sequences that differ only at the positions `lo..hi` are
/// rearrangements of each other exactly if those stretches are.
pub proof fn lemma_permutation_within<T>(s: Seq<T>, t: Seq<T>, lo: int, hi: int)
    requires
        0 <= lo <= hi <= s.len(),
        t.len() == s.len(),
        forall|k: int| 0 <= k < lo ==> t[k] == s[k],
        forall|k: int| hi <= k < s.len() ==> t[k] == s[k],
    ensures
        t == s.subrange(0, lo) + t.subrange(lo, hi) + s.subrange(hi, s.len() as int),
        permutation(t.subrange(lo, hi), s.subrange(lo, hi)) <==> permutation(t, s),
{
    broadcast use vstd::multiset::group_multiset_axioms;
    let head = s.subrange(0, lo);
    let tail = s.subrange(hi, s.len() as int);
    assert(t =~= head + t.subrange(lo, hi) + tail);
    assert(s =~= head + s.subrange(lo, hi) + tail);
    vstd::seq_lib::lemma_multiset_commutative(head + t.subrange(lo, hi), tail);
    vstd::seq_lib::lemma_multiset_commutative(head, t.subrange(lo, hi));
    vstd::seq_lib::lemma_multiset_commutative(head + s.subrange(lo, hi), tail);
    vstd::seq_lib::lemma_multiset_commutative(head, s.subrange(lo, hi));
    if permutation(t.subrange(lo, hi), s.subrange(lo, hi)) {
        assert(t.to_multiset() =~= s.to_multiset());
    }
    if permutation(t, s) {
        let m = head.to_multiset().add(tail.to_multiset());
        assert(t.subrange(lo, hi).to_multiset() =~= t.to_multiset().sub(m));
        assert(s.subrange(lo, hi).to_multiset() =~= s.to_multiset().sub(m));
    }
}

} // verus!
