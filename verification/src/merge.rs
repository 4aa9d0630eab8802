//! Merging of sorted runs: one stable merge of two adjacent runs, and the
//! passes that merge runs pairwise until a single run is left.

use vstd::prelude::*;
use vstd::arithmetic::power2::pow2;
use crate::order::le;
use crate::order::lemma_permutation_within;
use crate::order::permutation;
use crate::order::sorted;
use crate::order::sorted_between;
use crate::order::total_preorder;

verus! {

/// The stable merge of `a` and `b`: at each step the smaller of the two
/// front elements comes next, and on a tie the one of `a`.
pub open spec fn merged<T: PartialOrd>(a: Seq<T>, b: Seq<T>) -> Seq<T>
    decreases a.len() + b.len(),
{
    if a.len() == 0 {
        b
    } else if b.len() == 0 {
        a
    } else if le(a[0], b[0]) {
        seq![a[0]] + merged(a.skip(1), b)
    } else {
        seq![b[0]] + merged(a, b.skip(1))
    }
}

/// A merge holds as many elements as its two inputs together.
pub proof fn lemma_merged_len<T: PartialOrd>(a: Seq<T>, b: Seq<T>)
    ensures
        merged(a, b).len() == a.len() + b.len(),
    decreases a.len() + b.len(),
{
    if a.len() == 0 || b.len() == 0 {
    } else if le(a[0], b[0]) {
        lemma_merged_len(a.skip(1), b);
    } else {
        lemma_merged_len(a, b.skip(1));
    }
}

/// A merge holds exactly the elements of its two inputs.
pub proof fn lemma_merged_permutation<T: PartialOrd>(a: Seq<T>, b: Seq<T>)
    ensures
        permutation(merged(a, b), a + b),
    decreases a.len() + b.len(),
{
    broadcast use vstd::multiset::group_multiset_axioms;
    if a.len() == 0 {
        assert(a + b =~= b);
    } else if b.len() == 0 {
        assert(a + b =~= a);
    } else if le(a[0], b[0]) {
        let rest = merged(a.skip(1), b);
        lemma_merged_permutation(a.skip(1), b);
        vstd::seq_lib::lemma_multiset_commutative(seq![a[0]], rest);
        vstd::seq_lib::lemma_multiset_commutative(seq![a[0]], a.skip(1) + b);
        assert(a + b =~= seq![a[0]] + (a.skip(1) + b));
        assert(merged(a, b).to_multiset() =~= (a + b).to_multiset());
    } else {
        let rest = merged(a, b.skip(1));
        lemma_merged_permutation(a, b.skip(1));
        vstd::seq_lib::lemma_multiset_commutative(seq![b[0]], rest);
        vstd::seq_lib::lemma_multiset_commutative(a, b.skip(1));
        vstd::seq_lib::lemma_multiset_commutative(a, b);
        vstd::seq_lib::lemma_multiset_commutative(seq![b[0]], b.skip(1));
        assert(b =~= seq![b[0]] + b.skip(1));
        assert(merged(a, b).to_multiset() =~= (a + b).to_multiset());
    }
}

/// What is at most every element of both inputs is at most every element of
/// their merge.
proof fn lemma_merged_bounded_below<T: PartialOrd>(x: T, a: Seq<T>, b: Seq<T>)
    requires
        forall|k: int| 0 <= k < a.len() ==> le(x, #[trigger] a[k]),
        forall|k: int| 0 <= k < b.len() ==> le(x, #[trigger] b[k]),
    ensures
        forall|k: int| 0 <= k < merged(a, b).len() ==> le(x, #[trigger] merged(a, b)[k]),
    decreases a.len() + b.len(),
{
    if a.len() == 0 || b.len() == 0 {
    } else if le(a[0], b[0]) {
        let rest = merged(a.skip(1), b);
        assert forall|k: int| 0 <= k < a.skip(1).len() implies le(x, #[trigger] a.skip(1)[k]) by {
            assert(a.skip(1)[k] == a[k + 1]);
        }
        lemma_merged_bounded_below(x, a.skip(1), b);
        assert forall|k: int| 0 <= k < merged(a, b).len() implies le(
            x,
            #[trigger] merged(a, b)[k],
        ) by {
            if k > 0 {
                assert(merged(a, b)[k] == rest[k - 1]);
            }
        }
    } else {
        let rest = merged(a, b.skip(1));
        assert forall|k: int| 0 <= k < b.skip(1).len() implies le(x, #[trigger] b.skip(1)[k]) by {
            assert(b.skip(1)[k] == b[k + 1]);
        }
        lemma_merged_bounded_below(x, a, b.skip(1));
        assert forall|k: int| 0 <= k < merged(a, b).len() implies le(
            x,
            #[trigger] merged(a, b)[k],
        ) by {
            if k > 0 {
                assert(merged(a, b)[k] == rest[k - 1]);
            }
        }
    }
}

/// The merge of two sorted sequences is sorted.
pub proof fn lemma_merged_sorted<T: PartialOrd>(a: Seq<T>, b: Seq<T>)
    requires
        total_preorder::<T>(),
        sorted(a),
        sorted(b),
    ensures
        sorted(merged(a, b)),
    decreases a.len() + b.len(),
{
    if a.len() == 0 || b.len() == 0 {
    } else if le(a[0], b[0]) {
        let rest = merged(a.skip(1), b);
        assert forall|i: int, j: int| 0 <= i < j < a.skip(1).len() implies le(
            #[trigger] a.skip(1)[i],
            #[trigger] a.skip(1)[j],
        ) by {
            assert(a.skip(1)[i] == a[i + 1] && a.skip(1)[j] == a[j + 1]);
        }
        lemma_merged_sorted(a.skip(1), b);
        assert forall|k: int| 0 <= k < a.skip(1).len() implies le(a[0], #[trigger] a.skip(1)[k]) by {
            assert(a.skip(1)[k] == a[k + 1]);
        }
        assert forall|k: int| 0 <= k < b.len() implies le(a[0], #[trigger] b[k]) by {
            if k > 0 {
                assert(le(b[0], b[k]));
            }
        }
        lemma_merged_bounded_below(a[0], a.skip(1), b);
        assert forall|i: int, j: int| 0 <= i < j < merged(a, b).len() implies le(
            #[trigger] merged(a, b)[i],
            #[trigger] merged(a, b)[j],
        ) by {
            assert(merged(a, b)[j] == rest[j - 1]);
            if i > 0 {
                assert(merged(a, b)[i] == rest[i - 1]);
            }
        }
    } else {
        let rest = merged(a, b.skip(1));
        assert forall|i: int, j: int| 0 <= i < j < b.skip(1).len() implies le(
            #[trigger] b.skip(1)[i],
            #[trigger] b.skip(1)[j],
        ) by {
            assert(b.skip(1)[i] == b[i + 1] && b.skip(1)[j] == b[j + 1]);
        }
        lemma_merged_sorted(a, b.skip(1));
        assert(le(b[0], a[0]));
        assert forall|k: int| 0 <= k < b.skip(1).len() implies le(b[0], #[trigger] b.skip(1)[k]) by {
            assert(b.skip(1)[k] == b[k + 1]);
        }
        assert forall|k: int| 0 <= k < a.len() implies le(b[0], #[trigger] a[k]) by {
            if k > 0 {
                assert(le(a[0], a[k]));
            }
        }
        lemma_merged_bounded_below(b[0], a, b.skip(1));
        assert forall|i: int, j: int| 0 <= i < j < merged(a, b).len() implies le(
            #[trigger] merged(a, b)[i],
            #[trigger] merged(a, b)[j],
        ) by {
            assert(merged(a, b)[j] == rest[j - 1]);
            if i > 0 {
                assert(merged(a, b)[i] == rest[i - 1]);
            }
        }
    }
}

/// Merges the adjacent runs `start1..end1` and `start2..end2` of `arr` into
/// the positions `start1..end2`, through a scratch buffer. On a tie the
/// element of the first run comes first. The rest of `arr` is untouched. If
/// both runs were sorted, so is what takes their place.
pub fn merge_in_place<T: PartialOrd + Copy>(
    arr: &mut [T],
    start1: usize,
    end1: usize,
    start2: usize,
    end2: usize,
)
    requires
        total_preorder::<T>(),
        start1 <= end1,
        end1 == start2,
        start2 <= end2,
        end2 <= old(arr)@.len(),
    ensures
        final(arr)@ == old(arr)@.subrange(0, start1 as int) + merged(
            old(arr)@.subrange(start1 as int, end1 as int),
            old(arr)@.subrange(start2 as int, end2 as int),
        ) + old(arr)@.subrange(end2 as int, old(arr)@.len() as int),
        final(arr)@.len() == old(arr)@.len(),
        forall|k: int|
            0 <= k < start1 || end2 <= k < old(arr)@.len() ==> final(arr)@[k] == old(arr)@[k],
        permutation(final(arr)@, old(arr)@),
        sorted_between(old(arr)@, start1 as int, end1 as int) && sorted_between(
            old(arr)@,
            start2 as int,
            end2 as int,
        ) ==> sorted_between(final(arr)@, start1 as int, end2 as int),
{
    let ghost before = arr@;
    let ghost a = before.subrange(start1 as int, end1 as int);
    let ghost b = before.subrange(start2 as int, end2 as int);
    let mut temp: Vec<T> = Vec::with_capacity(end2 - start1);
    let mut i: usize = start1;
    let mut j: usize = start2;
    proof {
        assert(a.skip(0) =~= a && b.skip(0) =~= b);
        assert(temp@ + merged(a, b) =~= merged(a, b));
    }

    while i < end1 && j < end2
        invariant
            total_preorder::<T>(),
            arr@ == before,
            start1 <= i <= end1 == start2 <= j <= end2 <= before.len(),
            a == before.subrange(start1 as int, end1 as int),
            b == before.subrange(start2 as int, end2 as int),
            temp@ + merged(a.skip(i - start1), b.skip(j - start2)) == merged(a, b),
        decreases (end1 - i) + (end2 - j),
    {
        let ghost a_left = a.skip(i - start1);
        let ghost b_left = b.skip(j - start2);
        assert(a_left[0] == arr@[i as int] && b_left[0] == arr@[j as int]);
        if arr[i] <= arr[j] {
            assert(le(a_left[0], b_left[0]));
            assert(a_left.skip(1) =~= a.skip(i + 1 - start1));
            assert(temp@.push(arr@[i as int]) + merged(a_left.skip(1), b_left) =~= temp@ + merged(
                a_left,
                b_left,
            ));
            temp.push(arr[i]);
            i += 1;
        } else {
            assert(!le(a_left[0], b_left[0]));
            assert(b_left.skip(1) =~= b.skip(j + 1 - start2));
            assert(temp@.push(arr@[j as int]) + merged(a_left, b_left.skip(1)) =~= temp@ + merged(
                a_left,
                b_left,
            ));
            temp.push(arr[j]);
            j += 1;
        }
    }

    while i < end1
        invariant
            arr@ == before,
            start1 <= i <= end1 == start2 <= j <= end2 <= before.len(),
            i == end1 || j == end2,
            a == before.subrange(start1 as int, end1 as int),
            b == before.subrange(start2 as int, end2 as int),
            temp@ + merged(a.skip(i - start1), b.skip(j - start2)) == merged(a, b),
        decreases end1 - i,
    {
        let ghost a_left = a.skip(i - start1);
        let ghost b_left = b.skip(j - start2);
        assert(a_left[0] == arr@[i as int]);
        assert(b_left.len() == 0);
        assert(merged(a_left, b_left) == a_left);
        assert(a_left.skip(1) =~= a.skip(i + 1 - start1));
        assert(merged(a_left.skip(1), b_left) =~= a_left.skip(1));
        assert(temp@.push(arr@[i as int]) + a_left.skip(1) =~= temp@ + a_left);
        temp.push(arr[i]);
        i += 1;
    }

    while j < end2
        invariant
            arr@ == before,
            start1 <= i == end1 == start2 <= j <= end2 <= before.len(),
            a == before.subrange(start1 as int, end1 as int),
            b == before.subrange(start2 as int, end2 as int),
            temp@ + merged(a.skip(i - start1), b.skip(j - start2)) == merged(a, b),
        decreases end2 - j,
    {
        let ghost a_left = a.skip(i - start1);
        let ghost b_left = b.skip(j - start2);
        assert(b_left[0] == arr@[j as int]);
        assert(a_left.len() == 0);
        assert(merged(a_left, b_left) == b_left);
        assert(b_left.skip(1) =~= b.skip(j + 1 - start2));
        assert(merged(a_left, b_left.skip(1)) =~= b_left.skip(1));
        assert(temp@.push(arr@[j as int]) + b_left.skip(1) =~= temp@ + b_left);
        temp.push(arr[j]);
        j += 1;
    }

    proof {
        assert(merged(a.skip(i - start1), b.skip(j - start2)) =~= Seq::<T>::empty());
        assert(temp@ =~= merged(a, b));
        lemma_merged_len(a, b);
    }

    let mut k: usize = 0;
    while k < temp.len()
        invariant
            k <= temp@.len(),
            temp@.len() == end2 - start1,
            end2 <= before.len(),
            arr@.len() == before.len(),
            forall|p: int| 0 <= p < start1 ==> arr@[p] == before[p],
            forall|p: int| start1 <= p < start1 + k ==> arr@[p] == temp@[p - start1],
            forall|p: int| start1 + k <= p < before.len() ==> arr@[p] == before[p],
        decreases temp@.len() - k,
    {
        arr[start1 + k] = temp[k];
        k += 1;
    }

    proof {
        assert(arr@.subrange(start1 as int, end2 as int) =~= merged(a, b));
        lemma_permutation_within(before, arr@, start1 as int, end2 as int);
        lemma_merged_permutation(a, b);
        assert(a + b =~= before.subrange(start1 as int, end2 as int));
        if sorted_between(before, start1 as int, end1 as int) && sorted_between(
            before,
            start2 as int,
            end2 as int,
        ) {
            assert(sorted(a));
            assert(sorted(b));
            lemma_merged_sorted(a, b);
            assert forall|p: int, q: int| start1 <= p < q < end2 implies le(
                #[trigger] arr@[p],
                #[trigger] arr@[q],
            ) by {
                assert(arr@[p] == merged(a, b)[p - start1]);
                assert(arr@[q] == merged(a, b)[q - start1]);
            }
        }
    }
}

/// The end of the run that starts at `from`: `run` elements on, or the end
/// of a sequence of `len` elements if that comes first.
pub open spec fn run_end(from: int, run: int, len: int) -> int {
    if from + run < len {
        from + run
    } else {
        len
    }
}

/// From `from` up to `to`, `s` is a chain of sorted runs of `run` elements
/// each; only a run that meets the end of `s` may be shorter.
pub open spec fn runs_between<T: PartialOrd>(s: Seq<T>, from: int, to: int, run: int) -> bool
    decreases to - from,
{
    if from >= to {
        from == to
    } else if run <= 0 || from < 0 || to > s.len() {
        false
    } else {
        let next = run_end(from, run, s.len() as int);
        next <= to && sorted_between(s, from, next) && runs_between(s, next, to, run)
    }
}

/// `s` is organised in sorted runs of `run` elements, the last run holding
/// what is left. With `run == 0` the whole of `s` is one run.
pub open spec fn in_sorted_runs<T: PartialOrd>(s: Seq<T>, run: int) -> bool {
    if run <= 0 {
        sorted(s)
    } else {
        runs_between(s, 0, s.len() as int, run)
    }
}

/// Any two elements of `s` that lie in the same run are in order, where
/// position `i` lies in run `i / run`.
pub open spec fn same_run_in_order<T: PartialOrd>(s: Seq<T>, run: int) -> bool {
    forall|i: int, j: int|
        0 <= i < j < s.len() && i / run == j / run ==> le(#[trigger] s[i], #[trigger] s[j])
}

/// The positions `k * run .. k * run + run` are those of run `k`.
proof fn lemma_run_of_position(x: int, run: int, k: int)
    requires
        run > 0,
        0 <= k,
    ensures
        k * run <= x < k * run + run <==> x / run == k,
{
    if k * run <= x < k * run + run {
        vstd::arithmetic::div_mod::lemma_fundamental_div_mod_converse(x, run, k, x - k * run);
    }
    if x / run == k {
        vstd::arithmetic::div_mod::lemma_fundamental_div_mod(x, run);
        assert(run * k == k * run) by (nonlinear_arith);
    }
}

/// From the start of run `k` on, `s` is a chain of sorted runs exactly if
/// any two elements from there on that lie in the same run are in order.
proof fn lemma_runs_from_by_position<T: PartialOrd>(s: Seq<T>, run: int, k: int)
    requires
        run > 0,
        0 <= k,
        k * run <= s.len(),
    ensures
        runs_between(s, k * run, s.len() as int, run) <==> (forall|i: int, j: int|
            k * run <= i < j < s.len() && i / run == j / run ==> le(
                #[trigger] s[i],
                #[trigger] s[j],
            )),
    decreases s.len() - k * run,
{
    let len = s.len() as int;
    let from = k * run;
    assert((k + 1) * run == from + run) by (nonlinear_arith)
        requires
            from == k * run,
    ;
    if from < len {
        let next = run_end(from, run, len);
        if from + run < len {
            lemma_runs_from_by_position(s, run, k + 1);
        } else {
            assert(runs_between(s, len, len, run));
        }
        if runs_between(s, from, len, run) {
            assert forall|i: int, j: int|
                from <= i < j < len && i / run == j / run implies le(
                #[trigger] s[i],
                #[trigger] s[j],
            ) by {
                lemma_run_of_position(i, run, k);
                lemma_run_of_position(j, run, k);
            }
        }
        if forall|i: int, j: int|
            from <= i < j < len && i / run == j / run ==> le(#[trigger] s[i], #[trigger] s[j]) {
            assert forall|i: int, j: int| from <= i < j < next implies le(
                #[trigger] s[i],
                #[trigger] s[j],
            ) by {
                lemma_run_of_position(i, run, k);
                lemma_run_of_position(j, run, k);
            }
        }
    }
}

/// Sorted runs, by position: `s` is in sorted runs of `run` elements
/// exactly if any two of its elements that lie in the same run are in
/// order.
pub proof fn lemma_runs_by_position<T: PartialOrd>(s: Seq<T>, run: int)
    requires
        run > 0,
    ensures
        in_sorted_runs(s, run) <==> same_run_in_order(s, run),
{
    assert(0 * run == 0) by (nonlinear_arith);
    lemma_runs_from_by_position(s, run, 0);
}

/// Whether `from..to` is a chain of runs depends on those positions alone.
proof fn lemma_runs_frame<T: PartialOrd>(s: Seq<T>, t: Seq<T>, from: int, to: int, run: int)
    requires
        s.len() == t.len(),
        forall|k: int| from <= k < to ==> s[k] == t[k],
        runs_between(s, from, to, run),
    ensures
        runs_between(t, from, to, run),
    decreases to - from,
{
    if from < to {
        let next = run_end(from, run, s.len() as int);
        lemma_runs_frame(s, t, next, to, run);
    }
}

/// A chain of runs that ends where a further sorted run starts is a chain
/// up to the end of that run.
proof fn lemma_runs_extend<T: PartialOrd>(s: Seq<T>, from: int, mid: int, run: int)
    requires
        run > 0,
        0 <= from <= mid < s.len(),
        runs_between(s, from, mid, run),
        sorted_between(s, mid, run_end(mid, run, s.len() as int)),
    ensures
        runs_between(s, from, run_end(mid, run, s.len() as int), run),
    decreases mid - from,
{
    let last = run_end(mid, run, s.len() as int);
    if from < mid {
        let next = run_end(from, run, s.len() as int);
        lemma_runs_extend(s, next, mid, run);
    } else {
        assert(runs_between(s, last, last, run));
    }
}

/// A sorted stretch that reaches the end of `s` is a chain of runs of any
/// positive size.
pub proof fn lemma_sorted_is_runs<T: PartialOrd>(s: Seq<T>, from: int, run: int)
    requires
        run > 0,
        0 <= from <= s.len(),
        sorted_between(s, from, s.len() as int),
    ensures
        runs_between(s, from, s.len() as int, run),
    decreases s.len() - from,
{
    if from < s.len() {
        lemma_sorted_is_runs(s, run_end(from, run, s.len() as int), run);
    }
}

/// A chain of runs in what follows the first `offset` elements of `whole`
/// is a chain of runs of `whole`, `offset` positions on.
pub proof fn lemma_runs_shift<T: PartialOrd>(whole: Seq<T>, offset: int, from: int, run: int)
    requires
        0 <= offset <= whole.len(),
        0 <= from,
        runs_between(whole.skip(offset), from, whole.len() - offset, run),
    ensures
        runs_between(whole, from + offset, whole.len() as int, run),
    decreases whole.len() - offset - from,
{
    let part = whole.skip(offset);
    if from < part.len() {
        let next = run_end(from, run, part.len() as int);
        assert(next + offset == run_end(from + offset, run, whole.len() as int));
        assert forall|i: int, j: int| from + offset <= i < j < next + offset implies le(
            #[trigger] whole[i],
            #[trigger] whole[j],
        ) by {
            assert(whole[i] == part[i - offset] && whole[j] == part[j - offset]);
        }
        lemma_runs_shift(whole, offset, next, run);
    }
}

/// What one pass makes of `s`: the first run of `run` elements is merged
/// with the run after it, and so on with what follows the two. A last run
/// without a partner stays as it is.
pub open spec fn merge_pass_of<T: PartialOrd>(s: Seq<T>, run: int) -> Seq<T>
    decreases s.len(),
{
    if run <= 0 || s.len() <= run {
        s
    } else {
        let end = run_end(run, run, s.len() as int);
        merged(s.subrange(0, run), s.subrange(run, end)) + merge_pass_of(s.skip(end), run)
    }
}

/// What the passes make of `s`, a sequence of `len` elements, from runs of
/// `run` elements on: pass after pass with runs of twice the size, until
/// one run spans the sequence, as a run of `len` elements or more does.
pub open spec fn merge_runs_from<T: PartialOrd>(s: Seq<T>, run: int, len: int) -> Seq<T>
    decreases len - run,
{
    if run <= 0 || run >= len {
        s
    } else {
        merge_runs_from(merge_pass_of(s, run), run_end(run, run, len), len)
    }
}

/// What all the passes make of `s`, from runs of `run` elements on.
pub open spec fn merge_runs_of<T: PartialOrd>(s: Seq<T>, run: int) -> Seq<T> {
    merge_runs_from(s, run, s.len() as int)
}

/// One pass of the merge: each run of `merge_size` elements is merged with
/// the run after it. If `arr` was in sorted runs of `merge_size` elements,
/// it ends up in sorted runs of twice the size.
pub fn merge_pass<T: PartialOrd + Copy>(arr: &mut [T], merge_size: usize)
    requires
        total_preorder::<T>(),
        merge_size > 0,
    ensures
        final(arr)@ == merge_pass_of(old(arr)@, merge_size as int),
        final(arr)@.len() == old(arr)@.len(),
        permutation(final(arr)@, old(arr)@),
        in_sorted_runs(old(arr)@, merge_size as int) ==> in_sorted_runs(
            final(arr)@,
            2 * merge_size,
        ),
{
    let ghost input = arr@;
    let ghost in_runs = in_sorted_runs(input, merge_size as int);
    let len = arr.len();
    let mut i: usize = 0;
    proof {
        assert(arr@.subrange(0, 0) + merge_pass_of(input.skip(0), merge_size as int)
            =~= merge_pass_of(input, merge_size as int)) by {
            assert(input.skip(0) =~= input);
        }
    }
    while i < len
        invariant
            total_preorder::<T>(),
            merge_size > 0,
            i <= len,
            arr@.len() == len,
            input.len() == len,
            arr@.skip(i as int) == input.skip(i as int),
            arr@.subrange(0, i as int) + merge_pass_of(input.skip(i as int), merge_size as int)
                == merge_pass_of(input, merge_size as int),
            in_runs ==> runs_between(arr@, 0, i as int, 2 * merge_size),
            in_runs ==> runs_between(arr@, i as int, len as int, merge_size as int),
            permutation(arr@, input),
        decreases len - i,
    {
        let start1 = i;
        let end1 = if merge_size < len - i {
            i + merge_size
        } else {
            len
        };
        let start2 = end1;
        let end2 = if merge_size < len - start2 {
            start2 + merge_size
        } else {
            len
        };
        let ghost before = arr@;
        let ghost rest = input.skip(i as int);
        assert(end1 == run_end(i as int, merge_size as int, len as int));
        assert(end2 == run_end(i as int, 2 * merge_size, len as int));
        assert(forall|k: int| i <= k < len ==> before[k] == #[trigger] before.skip(i as int)[k - i]);
        assert(forall|k: int| i <= k < len ==> input[k] == #[trigger] rest[k - i]);
        if start2 < end2 {
            merge_in_place(arr, start1, end1, start2, end2);
            proof {
                let first = before.subrange(start1 as int, end1 as int);
                let second = before.subrange(start2 as int, end2 as int);
                assert(end2 - i == run_end(merge_size as int, merge_size as int, rest.len() as int));
                assert(first =~= rest.subrange(0, merge_size as int));
                assert(second =~= rest.subrange(merge_size as int, end2 - i));
                assert(rest.skip(end2 - i) =~= input.skip(end2 as int));
                assert(arr@.skip(end2 as int) =~= input.skip(end2 as int));
                lemma_merged_len(first, second);
                assert(arr@.subrange(0, end2 as int) =~= before.subrange(0, i as int) + merged(
                    first,
                    second,
                ));
                assert(arr@.subrange(0, end2 as int) + merge_pass_of(
                    input.skip(end2 as int),
                    merge_size as int,
                ) =~= before.subrange(0, i as int) + merge_pass_of(rest, merge_size as int));
                if in_runs {
                    assert(runs_between(before, end1 as int, len as int, merge_size as int));
                    assert(end2 == run_end(end1 as int, merge_size as int, len as int));
                    assert(runs_between(before, end2 as int, len as int, merge_size as int));
                    lemma_runs_frame(before, arr@, 0, i as int, 2 * merge_size);
                    lemma_runs_frame(before, arr@, end2 as int, len as int, merge_size as int);
                }
            }
        } else {
            proof {
                assert(rest.len() <= merge_size);
                assert(input.skip(len as int) =~= Seq::<T>::empty());
                assert(arr@.subrange(0, len as int) =~= before.subrange(0, i as int) + rest);
                assert(arr@.subrange(0, len as int) + merge_pass_of(
                    input.skip(len as int),
                    merge_size as int,
                ) =~= before.subrange(0, i as int) + merge_pass_of(rest, merge_size as int));
            }
        }
        proof {
            if in_runs {
                lemma_runs_extend(arr@, 0, i as int, 2 * merge_size);
            }
        }
        i = end2;
    }
    proof {
        assert(input.skip(len as int) =~= Seq::<T>::empty());
        assert(arr@.subrange(0, len as int) =~= arr@);
        assert(arr@ + Seq::<T>::empty() =~= arr@);
    }
}

/// The number of passes from runs of `run` elements to one run that spans
/// `len` elements.
pub open spec fn passes_needed(run: int, len: int) -> nat
    decreases len - run,
{
    if run <= 0 || run >= len {
        0
    } else {
        1 + passes_needed(run_end(run, run, len), len)
    }
}

/// The passes are as many as it takes to double `run` until it reaches
/// `len`: the least `p` with `run * 2^p >= len`, which is the binary
/// logarithm of `len / run`, rounded up.
pub proof fn lemma_passes_are_logarithmic(run: int, len: int)
    requires
        run > 0,
    ensures
        run * pow2(passes_needed(run, len)) >= len,
        passes_needed(run, len) > 0 ==> run * pow2((passes_needed(run, len) - 1) as nat) < len,
    decreases len - run,
{
    vstd::arithmetic::power2::lemma2_to64();
    let passes = passes_needed(run, len);
    if run >= len {
        assert(passes == 0);
        assert(run * pow2(0) == run) by (nonlinear_arith)
            requires
                pow2(0) == 1,
        ;
    } else if run + run >= len {
        assert(passes_needed(len, len) == 0);
        assert(passes == 1);
        assert(run * pow2(1) == run + run && run * pow2(0) == run) by (nonlinear_arith)
            requires
                pow2(0) == 1,
                pow2(1) == 2,
        ;
    } else {
        let rest = passes_needed(run + run, len);
        assert(passes == rest + 1);
        lemma_passes_are_logarithmic(run + run, len);
        assert(rest > 0);
        vstd::arithmetic::power2::lemma_pow2_unfold(rest);
        vstd::arithmetic::power2::lemma_pow2_unfold(rest + 1);
        assert(run * pow2(rest + 1) == (run + run) * pow2(rest)) by (nonlinear_arith)
            requires
                pow2(rest + 1) == 2 * pow2(rest),
        ;
        assert(run * pow2(rest) == (run + run) * pow2((rest - 1) as nat)) by (nonlinear_arith)
            requires
                pow2(rest) == 2 * pow2((rest - 1) as nat),
        ;
        assert((passes - 1) as nat == rest);
    }
}

/// Merges runs of `run` elements pairwise, pass after pass with runs of
/// twice the size, until one run spans `arr`, and returns the number of
/// passes. If `arr` was in sorted runs of `run` elements, it ends up sorted.
/// Where the first run spans `arr` already, nothing is moved.
pub fn merge_runs<T: PartialOrd + Copy>(arr: &mut [T], run: usize) -> (passes: usize)
    requires
        total_preorder::<T>(),
    ensures
        final(arr)@ == merge_runs_of(old(arr)@, run as int),
        final(arr)@.len() == old(arr)@.len(),
        permutation(final(arr)@, old(arr)@),
        in_sorted_runs(old(arr)@, run as int) ==> sorted(final(arr)@),
        run == 0 || run >= old(arr)@.len() ==> final(arr)@ == old(arr)@,
        passes == passes_needed(run as int, old(arr)@.len() as int),
{
    let ghost input = arr@;
    let ghost in_runs = in_sorted_runs(input, run as int);
    let len = arr.len();
    let mut passes: usize = 0;
    if run == 0 {
        return passes;
    }
    let mut merge_size = run;
    while merge_size < len
        invariant
            total_preorder::<T>(),
            merge_size > 0,
            arr@.len() == len,
            input.len() == len,
            merge_runs_from(arr@, merge_size as int, len as int) == merge_runs_of(
                input,
                run as int,
            ),
            passes + passes_needed(merge_size as int, len as int) == passes_needed(
                run as int,
                len as int,
            ),
            passes < merge_size,
            in_runs ==> in_sorted_runs(arr@, merge_size as int),
            permutation(arr@, input),
            run <= merge_size,
        decreases len - merge_size,
    {
        merge_pass(arr, merge_size);
        if merge_size < len - merge_size {
            merge_size = 2 * merge_size;
        } else {
            proof {
                if in_runs {
                    lemma_sorted_is_runs(arr@, 0, len as int);
                }
            }
            merge_size = len;
        }
        passes += 1;
    }
    passes
}

} // verus!
