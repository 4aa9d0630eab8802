//! The sequential sorters: a partition-exchange sort and a heap sort, both
//! in place.

use vstd::prelude::*;
use crate::order::le;
use crate::order::lemma_permutation_member;
use crate::order::lemma_permutation_within;
use crate::order::lemma_sorted_permutation_unique;
use crate::order::lemma_swapped_permutation;
use crate::order::permutation;
use crate::order::sorted;
use crate::order::swapped;
use crate::order::total_order;
use crate::order::total_preorder;

verus! {

/// Exchanges the elements at `i` and `j`.
fn swap_elements<T: Copy>(arr: &mut [T], i: usize, j: usize)
    requires
        i < old(arr)@.len(),
        j < old(arr)@.len(),
    ensures
        final(arr)@ == swapped(old(arr)@, i as int, j as int),
        permutation(final(arr)@, old(arr)@),
{
    let a = arr[i];
    let b = arr[j];
    arr[i] = b;
    arr[j] = a;
    proof {
        lemma_swapped_permutation(old(arr)@, i as int, j as int);
    }
}

/// The test that an element is at most `pivot`.
pub open spec fn at_most<T: PartialOrd>(pivot: T) -> spec_fn(T) -> bool {
    |x: T| le(x, pivot)
}

/// The partition pass over `s` after its first `steps` positions: the
/// sequence as it then stands, and the number of elements found to be at
/// most the pivot, the last element of `s`. Each such element is exchanged
/// with the one at the boundary, which then moves on by one.
pub open spec fn partition_pass<T: PartialOrd>(s: Seq<T>, steps: int) -> (Seq<T>, int)
    decreases steps,
{
    if steps <= 0 {
        (s, 0)
    } else {
        let (t, boundary) = partition_pass(s, steps - 1);
        if le(t[steps - 1], s.last()) {
            (swapped(t, boundary, steps - 1), boundary + 1)
        } else {
            (t, boundary)
        }
    }
}

/// Where the pivot of `s` comes to stand: after the elements of `s` that are
/// at most it.
pub open spec fn pivot_index<T: PartialOrd>(s: Seq<T>) -> int {
    partition_pass(s, s.len() - 1).1
}

/// `s` partitioned around its last element: the pass over all elements but
/// the pivot, and then the pivot exchanged with the element at the boundary.
pub open spec fn partitioned<T: PartialOrd>(s: Seq<T>) -> Seq<T> {
    swapped(partition_pass(s, s.len() - 1).0, pivot_index(s), s.len() - 1)
}

/// Partitions `arr` around its last element, the pivot, in one pass from
/// left to right. The elements that are at most the pivot come first, in the
/// order they had; then the pivot, at the index that is returned; then the
/// elements greater than the pivot.
pub fn partition<T: PartialOrd + Copy>(arr: &mut [T]) -> (p: usize)
    requires
        total_preorder::<T>(),
        old(arr)@.len() >= 1,
    ensures
        final(arr)@ == partitioned(old(arr)@),
        p == pivot_index(old(arr)@),
        p < old(arr)@.len(),
        final(arr)@.len() == old(arr)@.len(),
        permutation(final(arr)@, old(arr)@),
        final(arr)@[p as int] == old(arr)@.last(),
        final(arr)@.subrange(0, p as int) == old(arr)@.drop_last().filter(
            at_most(old(arr)@.last()),
        ),
        forall|k: int| 0 <= k < p ==> le(#[trigger] final(arr)@[k], old(arr)@.last()),
        forall|k: int|
            p < k < old(arr)@.len() ==> !le(#[trigger] final(arr)@[k], old(arr)@.last()),
{
    let ghost before = arr@;
    let len = arr.len();
    let pivot = arr[len - 1];
    let mut i: usize = 0;
    let mut j: usize = 0;
    proof {
        reveal(Seq::filter);
        assert(before.subrange(0, 0).filter(at_most(pivot)) =~= arr@.subrange(0, 0));
    }
    while j < len - 1
        invariant
            total_preorder::<T>(),
            len == before.len(),
            arr@.len() == len,
            i <= j <= len - 1,
            pivot == before.last(),
            forall|k: int| j <= k < len ==> arr@[k] == before[k],
            forall|k: int| 0 <= k < i ==> le(#[trigger] arr@[k], pivot),
            forall|k: int| i <= k < j ==> !le(#[trigger] arr@[k], pivot),
            permutation(arr@, before),
            arr@.subrange(0, i as int) == before.subrange(0, j as int).filter(at_most(pivot)),
            partition_pass(before, j as int) == (arr@, i as int),
        decreases len - j,
    {
        let ghost kept = before.subrange(0, j as int);
        proof {
            kept.lemma_filter_push(before[j as int], at_most(pivot));
            assert(kept.push(before[j as int]) =~= before.subrange(0, j + 1));
        }
        if arr[j] <= pivot {
            let ghost front = arr@.subrange(0, i as int);
            swap_elements(arr, i, j);
            proof {
                assert(arr@.subrange(0, i + 1) =~= front.push(before[j as int]));
            }
            i += 1;
        }
        j += 1;
    }
    let ghost mid = arr@;
    swap_elements(arr, i, len - 1);
    proof {
        assert(arr@.subrange(0, i as int) =~= mid.subrange(0, i as int));
        assert(before.subrange(0, len - 1) =~= before.drop_last());
    }
    i
}

/// Sorts `arr` ascending by partition and exchange: the slice is
/// partitioned around its last element and both sides are sorted in turn.
/// Not stable.
pub fn quick_sort<T: PartialOrd + Copy>(arr: &mut [T])
    requires
        total_preorder::<T>(),
    ensures
        final(arr)@.len() == old(arr)@.len(),
        sorted(final(arr)@),
        permutation(final(arr)@, old(arr)@),
        total_order::<T>() && sorted(old(arr)@) ==> final(arr)@ == old(arr)@,
    decreases old(arr)@.len(),
{
    let ghost before = arr@;
    let len = arr.len();
    if len < 2 {
        return ;
    }
    let pivot = partition(arr);
    let ghost parted = arr@;
    let (left, right) = arr.split_at_mut(pivot);
    quick_sort(left);
    let (middle, rest) = right.split_at_mut(1);
    quick_sort(rest);
    proof {
        let lo = parted.subrange(0, pivot as int);
        let hi = parted.subrange(pivot + 1, len as int);
        let pv = parted[pivot as int];
        assert(right@ =~= middle@ + rest@);
        assert(arr@ =~= left@ + right@);
        assert(middle@ =~= seq![pv]);
        assert(parted.subrange(pivot as int, len as int).subrange(1, len - pivot) =~= hi);
        assert forall|i: int, j: int| 0 <= i < j < len implies le(
            #[trigger] arr@[i],
            #[trigger] arr@[j],
        ) by {
            if j < pivot {
                assert(arr@[i] == left@[i] && arr@[j] == left@[j]);
            } else if i > pivot {
                assert(arr@[i] == rest@[i - pivot - 1] && arr@[j] == rest@[j - pivot - 1]);
            } else {
                if i < pivot {
                    let at = lemma_permutation_member(left@, lo, i);
                    assert(lo[at] == parted[at]);
                    assert(le(arr@[i], pv));
                } else {
                    crate::order::lemma_le_reflexive(pv);
                }
                if j > pivot {
                    let at = lemma_permutation_member(rest@, hi, j - pivot - 1);
                    assert(hi[at] == parted[at + pivot + 1]);
                    assert(!le(parted[at + pivot + 1], pv));
                    assert(le(pv, arr@[j]));
                }
            }
        }
        vstd::seq_lib::lemma_multiset_commutative(left@, right@);
        vstd::seq_lib::lemma_multiset_commutative(middle@, rest@);
        vstd::seq_lib::lemma_multiset_commutative(seq![pv], hi);
        vstd::seq_lib::lemma_multiset_commutative(lo, seq![pv] + hi);
        assert(parted =~= lo + (seq![pv] + hi));
        if total_order::<T>() && sorted(before) {
            lemma_sorted_permutation_unique(arr@, before);
        }
    }
}

/// Among the first `len` elements of `s`, laid out as a binary tree with the
/// children of node `k` at `2k + 1` and `2k + 2`, no child of node `k` is
/// greater than node `k`.
pub open spec fn heap_node<T: PartialOrd>(s: Seq<T>, len: int, k: int) -> bool {
    &&& 2 * k + 1 < len ==> le(s[2 * k + 1], s[k])
    &&& 2 * k + 2 < len ==> le(s[2 * k + 2], s[k])
}

/// Every node from `lo` on, among the first `len` elements of `s`, is at
/// least its children. With `lo == 0` those elements are a max-heap.
pub open spec fn heap_from<T: PartialOrd>(s: Seq<T>, len: int, lo: int) -> bool {
    forall|k: int| lo <= k < len ==> #[trigger] heap_node(s, len, k)
}

/// The nodes from `lo` on are a heap but for node `i`, which may be smaller
/// than its children; the children of `i` are at most the parent of `i`,
/// where that parent is one of the nodes from `lo` on.
pub open spec fn heap_except<T: PartialOrd>(s: Seq<T>, len: int, lo: int, i: int) -> bool {
    &&& forall|k: int| lo <= k < len && k != i ==> #[trigger] heap_node(s, len, k)
    &&& i > 0 && (i - 1) / 2 >= lo && 2 * i + 1 < len ==> le(s[2 * i + 1], s[(i - 1) / 2])
    &&& i > 0 && (i - 1) / 2 >= lo && 2 * i + 2 < len ==> le(s[2 * i + 2], s[(i - 1) / 2])
}

/// The root of a max-heap is at least every element of the heap.
pub proof fn lemma_heap_root_is_greatest<T: PartialOrd>(s: Seq<T>, len: int, k: int)
    requires
        total_preorder::<T>(),
        heap_from(s, len, 0),
        0 <= k < len,
    ensures
        le(s[k], s[0]),
    decreases k,
{
    if k == 0 {
        crate::order::lemma_le_reflexive(s[0]);
    } else {
        let parent = (k - 1) / 2;
        assert(heap_node(s, len, parent));
        lemma_heap_root_is_greatest(s, len, parent);
    }
}

/// The node that holds the greatest of node `i` and its children among the
/// first `len` elements of `s`: the left child where it is greater than node
/// `i`, then the right child where it is greater than that.
pub open spec fn greatest_of_three<T: PartialOrd>(s: Seq<T>, len: int, i: int) -> int {
    let left = 2 * i + 1;
    let right = 2 * i + 2;
    let best = if left < len && !le(s[left], s[i]) {
        left
    } else {
        i
    };
    if right < len && !le(s[right], s[best]) {
        right
    } else {
        best
    }
}

/// `s` after the element at node `i` has sunk: while a child is greater, the
/// element is exchanged with the greatest of its children, and goes on from
/// there.
pub open spec fn sifted<T: PartialOrd>(s: Seq<T>, len: int, i: int) -> Seq<T>
    decreases len - i,
{
    let largest = greatest_of_three(s, len, i);
    if 0 <= i && len <= s.len() && largest != i {
        sifted(swapped(s, i, largest), len, largest)
    } else {
        s
    }
}

/// Node `k` is node `root`, or lies below it in the tree.
pub open spec fn descends(k: int, root: int) -> bool
    decreases k,
{
    k == root || (k > root && root >= 0 && descends((k - 1) / 2, root))
}

/// The subtree at node `root`, among the first `len` elements of `s`, is a
/// max-heap: none of its nodes is less than a child of it.
pub open spec fn subtree_heap<T: PartialOrd>(s: Seq<T>, len: int, root: int) -> bool {
    forall|k: int| root <= k < len && descends(k, root) ==> #[trigger] heap_node(s, len, k)
}

/// What lies below node `i` lies below one of its children.
proof fn lemma_descends_through_child(k: int, i: int)
    requires
        i >= 0,
        descends(k, i),
        k != i,
    ensures
        descends(k, 2 * i + 1) || descends(k, 2 * i + 2),
    decreases k,
{
    let parent = (k - 1) / 2;
    if parent != i {
        lemma_descends_through_child(parent, i);
    }
}

/// What lies below a child of node `i` lies below node `i`.
proof fn lemma_descends_from_parent(k: int, i: int, child: int)
    requires
        i >= 0,
        child == 2 * i + 1 || child == 2 * i + 2,
        descends(k, child),
    ensures
        descends(k, i),
    decreases k,
{
    if k == child {
        assert(descends(i, i));
    } else {
        lemma_descends_from_parent((k - 1) / 2, i, child);
    }
}

/// No node lies below both children of node `i`.
proof fn lemma_children_apart(k: int, i: int)
    requires
        i >= 0,
    ensures
        !(descends(k, 2 * i + 1) && descends(k, 2 * i + 2)),
    decreases k,
{
    if descends(k, 2 * i + 1) && descends(k, 2 * i + 2) {
        if k == 2 * i + 1 {
        } else if k == 2 * i + 2 {
            assert(!descends(i, 2 * i + 1));
        } else {
            lemma_children_apart((k - 1) / 2, i);
        }
    }
}

/// The node that `greatest_of_three` names holds an element that is at
/// least that of node `i` and those of its children.
pub proof fn lemma_greatest_of_three<T: PartialOrd>(s: Seq<T>, len: int, i: int)
    requires
        total_preorder::<T>(),
    ensures
        greatest_of_three(s, len, i) == i || greatest_of_three(s, len, i) == 2 * i + 1
            || greatest_of_three(s, len, i) == 2 * i + 2,
        greatest_of_three(s, len, i) != i ==> greatest_of_three(s, len, i) < len,
        le(s[i], s[greatest_of_three(s, len, i)]),
        2 * i + 1 < len ==> le(s[2 * i + 1], s[greatest_of_three(s, len, i)]),
        2 * i + 2 < len ==> le(s[2 * i + 2], s[greatest_of_three(s, len, i)]),
{
    let left = 2 * i + 1;
    let right = 2 * i + 2;
    let best = if left < len && !le(s[left], s[i]) {
        left
    } else {
        i
    };
    crate::order::lemma_le_reflexive(s[i]);
    crate::order::lemma_le_reflexive(s[left]);
    crate::order::lemma_le_reflexive(s[right]);
    assert(le(s[left], s[i]) || le(s[i], s[left]));
    assert(le(s[right], s[best]) || le(s[best], s[right]));
    assert(le(s[i], s[best]));
    assert(left < len ==> le(s[left], s[best]));
}

/// A sift leaves the sequence as long as it was.
pub proof fn lemma_sifted_len<T: PartialOrd>(s: Seq<T>, len: int, i: int)
    ensures
        sifted(s, len, i).len() == s.len(),
    decreases len - i,
{
    let largest = greatest_of_three(s, len, i);
    if 0 <= i && len <= s.len() && largest != i {
        lemma_sifted_len(swapped(s, i, largest), len, largest);
    }
}

/// A sift changes only node `i` and nodes below it, and none from `len` on.
pub proof fn lemma_sifted_frame<T: PartialOrd>(s: Seq<T>, len: int, i: int, k: int)
    requires
        0 <= k < s.len(),
        k >= len || !descends(k, i),
    ensures
        sifted(s, len, i)[k] == s[k],
    decreases len - i,
{
    let largest = greatest_of_three(s, len, i);
    if 0 <= i && len <= s.len() && largest != i {
        assert(largest == 2 * i + 1 || largest == 2 * i + 2);
        assert(descends(i, i) && descends(largest, largest));
        assert(descends(largest, i));
        if descends(k, largest) {
            lemma_descends_from_parent(k, i, largest);
        }
        lemma_sifted_frame(swapped(s, i, largest), len, largest, k);
    }
}

/// After a sift node `i` holds the greatest of what it and its children
/// held. Where it held that already, the sift changes nothing.
pub proof fn lemma_sifted_top<T: PartialOrd>(s: Seq<T>, len: int, i: int)
    requires
        0 <= i < len <= s.len(),
    ensures
        sifted(s, len, i)[i] == s[greatest_of_three(s, len, i)],
        greatest_of_three(s, len, i) == i ==> sifted(s, len, i) == s,
{
    let largest = greatest_of_three(s, len, i);
    if largest != i {
        assert(largest == 2 * i + 1 || largest == 2 * i + 2);
        assert(!descends(i, largest));
        lemma_sifted_frame(swapped(s, i, largest), len, largest, i);
    }
}

/// A sift makes a heap of two: where the two subtrees below node `i` are
/// heaps, the subtree at node `i` is a heap afterwards.
pub proof fn lemma_sifted_heap<T: PartialOrd>(s: Seq<T>, len: int, i: int)
    requires
        total_preorder::<T>(),
        0 <= i,
        len <= s.len(),
        subtree_heap(s, len, 2 * i + 1),
        subtree_heap(s, len, 2 * i + 2),
    ensures
        subtree_heap(sifted(s, len, i), len, i),
    decreases len - i,
{
    let largest = greatest_of_three(s, len, i);
    let after = sifted(s, len, i);
    lemma_greatest_of_three(s, len, i);
    if largest == i {
        assert forall|k: int| i <= k < len && descends(k, i) implies #[trigger] heap_node(
            after,
            len,
            k,
        ) by {
            if k != i {
                lemma_descends_through_child(k, i);
            }
        }
    } else {
        let other = 4 * i + 3 - largest;
        let exchanged = swapped(s, i, largest);
        assert(descends(largest, largest));
        assert(heap_node(s, len, largest));
        assert forall|k: int|
            2 * largest + 1 <= k < len && descends(k, 2 * largest + 1) implies #[trigger] heap_node(
            exchanged,
            len,
            k,
        ) by {
            lemma_descends_from_parent(k, largest, 2 * largest + 1);
            assert(heap_node(s, len, k));
        }
        assert forall|k: int|
            2 * largest + 2 <= k < len && descends(k, 2 * largest + 2) implies #[trigger] heap_node(
            exchanged,
            len,
            k,
        ) by {
            lemma_descends_from_parent(k, largest, 2 * largest + 2);
            assert(heap_node(s, len, k));
        }
        lemma_sifted_heap(exchanged, len, largest);
        lemma_sifted_len(exchanged, len, largest);
        lemma_sifted_top(exchanged, len, largest);
        lemma_greatest_of_three(exchanged, len, largest);
        assert(!descends(i, largest));
        lemma_sifted_frame(exchanged, len, largest, i);
        assert(!descends(other, largest)) by {
            assert(!descends(i, largest));
        }
        assert forall|k: int| i <= k < len && descends(k, i) implies #[trigger] heap_node(
            after,
            len,
            k,
        ) by {
            if k == i {
                if other < len {
                    lemma_sifted_frame(exchanged, len, largest, other);
                }
                let top = greatest_of_three(exchanged, len, largest);
                assert(le(exchanged[top], s[largest]));
            } else {
                lemma_descends_through_child(k, i);
                if !descends(k, largest) {
                    assert(descends(k, other)) by {
                        lemma_children_apart(k, i);
                    }
                    lemma_children_apart(k, i);
                    lemma_sifted_frame(exchanged, len, largest, k);
                    assert(descends(2 * k + 1, other) && descends(2 * k + 2, other));
                    lemma_children_apart(2 * k + 1, i);
                    lemma_children_apart(2 * k + 2, i);
                    if 2 * k + 1 < len {
                        lemma_sifted_frame(exchanged, len, largest, 2 * k + 1);
                    }
                    if 2 * k + 2 < len {
                        lemma_sifted_frame(exchanged, len, largest, 2 * k + 2);
                    }
                    assert(heap_node(s, len, k));
                }
            }
        }
    }
}

/// Lets the element at node `i` sink: while a child is greater, the element
/// is exchanged with its greatest child. Only node `i` and nodes below it
/// can change, and none from `len` on. If the two subtrees below `i` were
/// heaps, the subtree at `i` is a heap afterwards. Nodes above `i` stay in
/// order too: where the nodes from some `lo` on were a heap but for node
/// `i`, they are a heap afterwards.
pub fn heapify<T: PartialOrd + Copy>(arr: &mut [T], len: usize, i: usize)
    requires
        total_preorder::<T>(),
        len <= old(arr)@.len(),
    ensures
        final(arr)@ == sifted(old(arr)@, len as int, i as int),
        final(arr)@.len() == old(arr)@.len(),
        permutation(final(arr)@, old(arr)@),
        forall|k: int|
            0 <= k < old(arr)@.len() && (k < i || len <= k) ==> final(arr)@[k] == old(arr)@[k],
        forall|k: int|
            0 <= k < old(arr)@.len() && !descends(k, i as int) ==> #[trigger] final(arr)@[k]
                == old(arr)@[k],
        i < len ==> final(arr)@[i as int] == old(arr)@[greatest_of_three(
            old(arr)@,
            len as int,
            i as int,
        )],
        subtree_heap(old(arr)@, len as int, 2 * i + 1) && subtree_heap(
            old(arr)@,
            len as int,
            2 * i + 2,
        ) ==> subtree_heap(final(arr)@, len as int, i as int),
        forall|lo: int|
            0 <= lo <= i && #[trigger] heap_except(old(arr)@, len as int, lo, i as int)
                ==> heap_from(final(arr)@, len as int, lo),
        heap_from(old(arr)@, len as int, i + 1) ==> heap_from(final(arr)@, len as int, i as int),
    decreases len - i,
{
    let ghost before = arr@;
    proof {
        if heap_from(before, len as int, i + 1) {
            assert(heap_except(before, len as int, i as int, i as int));
        }
        let after = sifted(before, len as int, i as int);
        lemma_sifted_len(before, len as int, i as int);
        assert forall|k: int| 0 <= k < before.len() && !descends(k, i as int) implies after[k]
            == before[k] by {
            lemma_sifted_frame(before, len as int, i as int, k);
        }
        if i < len {
            lemma_sifted_top(before, len as int, i as int);
        }
        if subtree_heap(before, len as int, 2 * i + 1) && subtree_heap(
            before,
            len as int,
            2 * i + 2,
        ) {
            lemma_sifted_heap(before, len as int, i as int);
        }
    }
    if i >= len / 2 {
        proof {
            assert forall|lo: int|
                0 <= lo <= i && #[trigger] heap_except(
                    before,
                    len as int,
                    lo,
                    i as int,
                ) implies heap_from(before, len as int, lo) by {
                assert forall|k: int| lo <= k < len implies #[trigger] heap_node(
                    before,
                    len as int,
                    k,
                ) by {}
            }
        }
        return ;
    }
    let mut largest = i;
    let left = 2 * i + 1;
    let right = 2 * i + 2;

    if left < len && arr[left] > arr[largest] {
        largest = left;
    }
    proof {
        let first = before[largest as int];
        crate::order::lemma_le_reflexive(first);
        assert(le(before[left as int], before[i as int]) || !le(
            before[left as int],
            before[i as int],
        ));
        assert(le(before[i as int], before[left as int]) || le(
            before[left as int],
            before[i as int],
        ));
        assert(le(before[i as int], first) && le(before[left as int], first));
    }
    let ghost first = before[largest as int];
    if right < len && arr[right] > arr[largest] {
        largest = right;
    }
    proof {
        let top = before[largest as int];
        crate::order::lemma_le_reflexive(top);
        if right < len {
            assert(le(before[right as int], first) || !le(before[right as int], first));
            assert(le(first, before[right as int]) || le(before[right as int], first));
            assert(le(first, top));
            assert(le(before[right as int], top));
        }
        assert(le(before[i as int], top));
        assert(le(before[left as int], top));
        assert(largest == greatest_of_three(before, len as int, i as int));
    }

    if largest != i {
        swap_elements(arr, i, largest);
        let ghost exchanged = arr@;
        heapify(arr, len, largest);
        proof {
            assert forall|lo: int|
                0 <= lo <= i && #[trigger] heap_except(
                    before,
                    len as int,
                    lo,
                    i as int,
                ) implies heap_from(arr@, len as int, lo) by {
                assert forall|k: int| lo <= k < len && k != largest implies #[trigger] heap_node(
                    exchanged,
                    len as int,
                    k,
                ) by {
                    if k != i {
                        assert(heap_node(before, len as int, k));
                    }
                }
                assert(heap_node(before, len as int, largest as int));
                assert(heap_except(exchanged, len as int, lo, largest as int));
            }
        }
    } else {
        proof {
            assert(heap_node(before, len as int, i as int));
            assert forall|lo: int|
                0 <= lo <= i && #[trigger] heap_except(
                    before,
                    len as int,
                    lo,
                    i as int,
                ) implies heap_from(before, len as int, lo) by {
                assert forall|k: int| lo <= k < len implies #[trigger] heap_node(
                    before,
                    len as int,
                    k,
                ) by {}
            }
        }
    }
}

/// Sorts `arr` ascending: a max-heap is built over the slice from the
/// bottom up, then the root is exchanged with the last element that is not
/// yet in place and the heap is repaired, until one element is left. Not
/// stable.
pub fn heap_sort<T: PartialOrd + Copy>(arr: &mut [T])
    requires
        total_preorder::<T>(),
    ensures
        final(arr)@.len() == old(arr)@.len(),
        sorted(final(arr)@),
        permutation(final(arr)@, old(arr)@),
        total_order::<T>() && sorted(old(arr)@) ==> final(arr)@ == old(arr)@,
{
    let ghost before = arr@;
    let len = arr.len();
    let mut i: usize = len / 2;
    while i > 0
        invariant
            total_preorder::<T>(),
            arr@.len() == len,
            i <= len / 2,
            heap_from(arr@, len as int, i as int),
            permutation(arr@, before),
        decreases i,
    {
        i -= 1;
        heapify(arr, len, i);
    }

    let mut n: usize = len;
    while n > 1
        invariant
            total_preorder::<T>(),
            arr@.len() == len,
            n <= len,
            heap_from(arr@, n as int, 0),
            forall|a: int, b: int| n <= a < b < len ==> le(#[trigger] arr@[a], #[trigger] arr@[b]),
            forall|a: int, b: int|
                0 <= a < n <= b < len ==> le(#[trigger] arr@[a], #[trigger] arr@[b]),
            permutation(arr@, before),
        decreases n,
    {
        let ghost heap = arr@;
        n -= 1;
        swap_elements(arr, 0, n);
        let ghost exchanged = arr@;
        proof {
            assert forall|k: int| 0 <= k < n && k != 0 implies #[trigger] heap_node(
                exchanged,
                n as int,
                k,
            ) by {
                assert(heap_node(heap, n + 1, k));
            }
            assert(heap_except(exchanged, n as int, 0, 0));
        }
        heapify(arr, n, 0);
        proof {
            lemma_permutation_within(exchanged, arr@, 0, n as int);
            assert forall|a: int, b: int| 0 <= a < n <= b < len implies le(
                #[trigger] arr@[a],
                #[trigger] arr@[b],
            ) by {
                let at = lemma_permutation_member(
                    arr@.subrange(0, n as int),
                    exchanged.subrange(0, n as int),
                    a,
                );
                assert(arr@[a] == exchanged[at]);
                if at == 0 {
                    assert(exchanged[at] == heap[n as int]);
                    lemma_heap_root_is_greatest(heap, n + 1, n as int);
                } else {
                    assert(exchanged[at] == heap[at]);
                    lemma_heap_root_is_greatest(heap, n + 1, at);
                }
                assert(le(arr@[a], heap[0]));
                if b > n {
                    assert(le(heap[0], heap[b]));
                }
            }
        }
    }
    proof {
        if total_order::<T>() && sorted(before) {
            lemma_sorted_permutation_unique(arr@, before);
        }
    }
}

} // verus!
