//! The windows into which a slice is cut for the workers.

use vstd::prelude::*;
use crate::merge::in_sorted_runs;
use crate::merge::lemma_runs_shift;
use crate::merge::lemma_sorted_is_runs;
use crate::order::le;
use crate::order::permutation;
use crate::order::sorted;
use crate::order::sorted_between;

verus! {

/// Where window `k` starts, with windows of `size` elements.
pub open spec fn window_start(size: int, k: int) -> int {
    k * size
}

/// Where window `k` of `workers` ends in a sequence of `len` elements: the
/// last window ends with the sequence, every other after `size` elements.
pub open spec fn window_end(len: int, size: int, workers: int, k: int) -> int {
    if k == workers - 1 {
        len
    } else {
        (k + 1) * size
    }
}

/// `after` is `before` with each window sorted by itself: the first
/// `workers - 1` windows hold `size` elements each, one after the other from
/// the start, and the last window holds all that is left.
pub open spec fn windows_sorted<T: PartialOrd>(
    before: Seq<T>,
    after: Seq<T>,
    size: int,
    workers: int,
) -> bool
    decreases workers,
{
    if workers <= 1 {
        sorted(after) && permutation(after, before)
    } else {
        &&& 0 <= size <= before.len()
        &&& after.len() == before.len()
        &&& sorted(after.take(size))
        &&& permutation(after.take(size), before.take(size))
        &&& windows_sorted(before.skip(size), after.skip(size), size, workers - 1)
    }
}

/// Window `k` of `after` ascends and holds what window `k` of `before` held.
pub open spec fn window_done<T: PartialOrd>(
    before: Seq<T>,
    after: Seq<T>,
    size: int,
    workers: int,
    k: int,
) -> bool {
    let start = window_start(size, k);
    let end = window_end(before.len() as int, size, workers, k);
    &&& sorted_between(after, start, end)
    &&& permutation(after.subrange(start, end), before.subrange(start, end))
}

/// The size of every window but the last, for `len` elements and `workers`
/// workers: `len / workers`, rounded down.
pub fn window_size(len: usize, workers: usize) -> (size: usize)
    requires
        workers >= 1,
    ensures
        size == len / workers,
        size * (workers - 1) <= len,
        len - size * (workers - 1) >= size,
{
    let size = len / workers;
    assert(size * (workers - 1) <= len && len - size * (workers - 1) >= size)
        by (nonlinear_arith)
        requires
            size == len / workers,
            workers >= 1,
    ;
    size
}

/// The bounds of window `k`: where it starts and where it ends.
pub fn window_bounds(len: usize, workers: usize, k: usize) -> (bounds: (usize, usize))
    requires
        workers >= 1,
        k < workers,
    ensures
        bounds.0 == window_start(len as int / workers as int, k as int),
        bounds.1 == window_end(len as int, len as int / workers as int, workers as int, k as int),
        bounds.0 <= bounds.1 <= len,
{
    let size = window_size(len, workers);
    assert(k * size <= (workers - 1) * size && k * size + size == (k + 1) * size && (k + 1 < workers
        ==> (k + 1) * size <= (workers - 1) * size)) by (nonlinear_arith)
        requires
            k < workers,
    ;
    assert(size * (workers - 1) == (workers - 1) * size) by (nonlinear_arith);
    let start = k * size;
    let end = if k == workers - 1 {
        len
    } else {
        start + size
    };
    (start, end)
}

/// The windows lie one after the other from the start of the sequence to
/// its end, so that no two overlap and none of the sequence is left out.
/// Every window but the last holds `len / workers` elements, and the last
/// holds at least as many.
pub proof fn lemma_windows_partition(len: int, workers: int, k: int)
    requires
        len >= 0,
        workers >= 1,
        0 <= k < workers,
    ensures
        window_start(len / workers, 0) == 0,
        window_end(len, len / workers, workers, workers - 1) == len,
        0 <= window_start(len / workers, k) <= window_end(len, len / workers, workers, k) <= len,
        k + 1 < workers ==> window_end(len, len / workers, workers, k) == window_start(
            len / workers,
            k + 1,
        ),
        k + 1 < workers ==> window_end(len, len / workers, workers, k) - window_start(
            len / workers,
            k,
        ) == len / workers,
        k + 1 == workers ==> window_end(len, len / workers, workers, k) - window_start(
            len / workers,
            k,
        ) >= len / workers,
        k + 1 == workers ==> window_end(len, len / workers, workers, k) - window_start(
            len / workers,
            k,
        ) == len - (len / workers) * (workers - 1),
{
    let size = len / workers;
    assert(0 <= size && size * workers <= len) by (nonlinear_arith)
        requires
            size == len / workers,
            len >= 0,
            workers >= 1,
    ;
    assert(0 <= k * size && k * size + size == (k + 1) * size && (k + 1) * size <= size * workers
        && k * size == size * k) by (nonlinear_arith)
        requires
            0 <= k < workers,
            0 <= size,
    ;
    assert(size * (workers - 1) + size == size * workers) by (nonlinear_arith);
}

/// Each window of sorted windows is sorted, by position: window `k` of
/// `after` ascends and holds what window `k` of `before` held.
pub proof fn lemma_window_sorted<T: PartialOrd>(
    before: Seq<T>,
    after: Seq<T>,
    size: int,
    workers: int,
    k: int,
)
    requires
        size >= 0,
        workers >= 1,
        0 <= k < workers,
        after.len() == before.len(),
        size * (workers - 1) <= before.len(),
        windows_sorted(before, after, size, workers),
    ensures
        0 <= window_start(size, k) <= window_end(before.len() as int, size, workers, k)
            <= before.len(),
        sorted_between(
            after,
            window_start(size, k),
            window_end(before.len() as int, size, workers, k),
        ),
        permutation(
            after.subrange(
                window_start(size, k),
                window_end(before.len() as int, size, workers, k),
            ),
            before.subrange(
                window_start(size, k),
                window_end(before.len() as int, size, workers, k),
            ),
        ),
    decreases workers,
{
    let len = before.len() as int;
    let start = window_start(size, k);
    let end = window_end(len, size, workers, k);
    assert(k == 0 ==> k * size == 0 && (k + 1) * size == size) by (nonlinear_arith);
    if workers <= 1 {
        assert(after.subrange(0, len) =~= after);
        assert(before.subrange(0, len) =~= before);
    } else if k == 0 {
        assert(after.subrange(0, size) =~= after.take(size));
        assert(before.subrange(0, size) =~= before.take(size));
        assert forall|i: int, j: int| 0 <= i < j < size implies le(
            #[trigger] after[i],
            #[trigger] after[j],
        ) by {
            assert(after[i] == after.take(size)[i] && after[j] == after.take(size)[j]);
        }
    } else {
        let b = before.skip(size);
        let a = after.skip(size);
        assert(size * (workers - 2) <= len - size && (k - 1) * size + size == k * size && k * size
            + size == (k + 1) * size && 0 <= (k - 1) * size && (k + 1 < workers ==> (k + 1) * size
            <= size * (workers - 1))) by (nonlinear_arith)
            requires
                size * (workers - 1) <= len,
                1 <= k < workers,
                size >= 0,
        ;
        lemma_window_sorted(b, a, size, workers - 1, k - 1);
        let s = window_start(size, k - 1);
        let e = window_end(b.len() as int, size, workers - 1, k - 1);
        assert(s + size == start && e + size == end);
        assert(a.subrange(s, e) =~= after.subrange(start, end));
        assert(b.subrange(s, e) =~= before.subrange(start, end));
        assert forall|i: int, j: int| start <= i < j < end implies le(
            #[trigger] after[i],
            #[trigger] after[j],
        ) by {
            assert(after[i] == a[i - size] && after[j] == a[j - size]);
        }
    }
}

/// Sorted windows are sorted runs: a slice whose windows of `size` elements
/// are each sorted is organised in sorted runs of `size` elements, and holds
/// what it held before the windows were sorted.
pub proof fn lemma_windows_are_runs<T: PartialOrd>(
    before: Seq<T>,
    after: Seq<T>,
    size: int,
    workers: int,
)
    requires
        size >= 0,
        windows_sorted(before, after, size, workers),
    ensures
        after.len() == before.len(),
        permutation(after, before),
        in_sorted_runs(after, size),
    decreases workers,
{
    if workers <= 1 {
        vstd::seq_lib::to_multiset_len(after);
        vstd::seq_lib::to_multiset_len(before);
        if size > 0 {
            lemma_sorted_is_runs(after, 0, size);
        }
    } else {
        let first = after.take(size);
        let rest = after.skip(size);
        lemma_windows_are_runs(before.skip(size), rest, size, workers - 1);
        assert(after =~= first + rest);
        assert(before =~= before.take(size) + before.skip(size));
        vstd::seq_lib::lemma_multiset_commutative(first, rest);
        vstd::seq_lib::lemma_multiset_commutative(before.take(size), before.skip(size));
        if size == 0 {
            assert(rest =~= after);
        } else {
            lemma_runs_shift(after, size, 0, size);
            assert forall|i: int, j: int| 0 <= i < j < size implies le(
                #[trigger] after[i],
                #[trigger] after[j],
            ) by {
                assert(after[i] == first[i] && after[j] == first[j]);
            }
        }
    }
}

} // verus!
