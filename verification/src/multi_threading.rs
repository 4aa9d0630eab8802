//! The parallel sort: windows sorted on threads of their own, then merged.

use vstd::prelude::*;
use crate::merge::in_sorted_runs;
use crate::merge::merge_runs;
use crate::merge::merge_runs_of;
use crate::order::permutation;
use crate::order::sorted;
use crate::order::total_order;
use crate::order::total_preorder;
use crate::order::lemma_sorted_permutation_unique;
use crate::windows::lemma_window_sorted;
use crate::windows::lemma_windows_are_runs;
use crate::windows::window_done;
use crate::windows::window_size;
use crate::windows::windows_sorted;

verus! {

/// Sorts `first` with `sort` on a thread of its own while `dispatch` deals
/// with `rest` on the calling thread, and returns when both are done: by
/// `crossbeam::thread::scope`, which joins the thread before it returns, with
/// `Scope::builder` and `ScopedThreadBuilder::spawn` to start the thread.
/// Returns whether the thread was started and ran to its end without a
/// panic, and `dispatch` returned `true`.
///
/// Where that is so, `first` holds an outcome of `sort` on what it held, and
/// `rest` holds what `dispatch` promises of it. In any case both keep their
/// length. Where the thread cannot be started, `dispatch` is not called.
#[verifier::external_body]
fn fork_join<T, F>(sort: F, first: &mut [T], rest: &mut [T], size: usize, workers: usize) -> (joined:
    bool)
    where
        T: PartialOrd + Copy + Send,
        F: Fn(&mut [T]) + Send + Copy,
    requires
        forall|s: &mut [T]| #[trigger] sort.requires((s,)),
        forall|s: &mut [T]| #[trigger]
            sort.ensures((s,), ()) ==> sorted(final(s)@) && permutation(final(s)@, s@),
        workers == 0 ==> old(rest)@.len() == 0,
        workers >= 1 ==> size * (workers - 1) <= old(rest)@.len(),
    ensures
        final(first)@.len() == old(first)@.len(),
        final(rest)@.len() == old(rest)@.len(),
        joined ==> exists|s: &mut [T]| #[trigger]
            sort.ensures((s,), ()) && s@ == old(first)@ && final(s)@ == final(first)@,
        joined ==> windows_sorted(old(rest)@, final(rest)@, size as int, workers as int),
{
    let joined = crossbeam::thread::scope(|scope| {
        match scope.builder().spawn(move |_| sort(first)) {
            Ok(_) => dispatch(sort, rest, size, workers),
            Err(_) => false,
        }
    });
    match joined {
        Ok(started) => started,
        Err(_) => false,
    }
}

/// Sorts each window of `arr` on a thread of its own, the first
/// `workers - 1` windows of `size` elements and then the rest: the first
/// window is handed to a thread, and what follows it is dealt with in the
/// same way while that thread runs. With no window left there is nothing to
/// do. Returns whether every thread was started and ran to its end.
fn dispatch<T, F>(sort: F, arr: &mut [T], size: usize, workers: usize) -> (started: bool)
    where
        T: PartialOrd + Copy + Send,
        F: Fn(&mut [T]) + Send + Copy,
    requires
        forall|s: &mut [T]| #[trigger] sort.requires((s,)),
        forall|s: &mut [T]| #[trigger]
            sort.ensures((s,), ()) ==> sorted(final(s)@) && permutation(final(s)@, s@),
        workers == 0 ==> old(arr)@.len() == 0,
        workers >= 1 ==> size * (workers - 1) <= old(arr)@.len(),
    ensures
        final(arr)@.len() == old(arr)@.len(),
        workers == 0 ==> started && final(arr)@ == old(arr)@,
        started ==> windows_sorted(old(arr)@, final(arr)@, size as int, workers as int),
        started && workers == 1 ==> exists|s: &mut [T]| #[trigger]
            sort.ensures((s,), ()) && s@ == old(arr)@ && final(s)@ == final(arr)@,
{
    if workers == 0 {
        return true;
    }
    let ghost before = arr@;
    let cut = if workers == 1 {
        arr.len()
    } else {
        assert(size <= arr@.len() && size * (workers - 2) <= arr@.len() - size)
            by (nonlinear_arith)
            requires
                size * (workers - 1) <= arr@.len(),
                workers >= 2,
        ;
        size
    };
    let (first, rest) = arr.split_at_mut(cut);
    let started = fork_join(sort, first, rest, size, workers - 1);
    proof {
        let after = arr@;
        assert(after =~= first@ + rest@);
        assert(after.take(cut as int) =~= first@);
        assert(after.skip(cut as int) =~= rest@);
        if workers == 1 {
            assert(rest@ =~= Seq::<T>::empty());
            assert(after =~= first@);
            assert(before.subrange(0, cut as int) =~= before);
        }
    }
    started
}

/// The number of processors that the system offers, by `num_cpus::get`,
/// which promises at least one.
#[verifier::external_body]
fn available_workers() -> (workers: usize)
    ensures
        workers >= 1,
{
    num_cpus::get()
}

/// Why a parallel sort did not take place.
#[derive(Clone, Copy, Debug, PartialEq, Eq, Structural)]
pub enum SortError {
    /// The configuration asks for a parallel sort with no worker.
    NoWorkers,
    /// A worker could not be started, or did not run to its end.
    WorkerFailed,
}

/// How a slice of a given length is sorted.
#[derive(Clone, Copy, Debug, PartialEq, Eq, Structural)]
pub enum Strategy {
    /// Fewer than two elements: there is nothing to do.
    Nothing,
    /// The sequential sorter runs on the whole slice.
    Sequential,
    /// The windows are sorted on threads and merged.
    Parallel,
}

/// The length above which a slice is sorted in parallel, unless a
/// configuration says otherwise.
pub const PARALLEL_THRESHOLD: usize = 20000;

/// What governs a sort: the length above which it runs in parallel, and the
/// number of workers it then uses.
#[derive(Clone, Copy, Debug, PartialEq, Eq, Structural)]
pub struct SortConfig {
    pub threshold: usize,
    pub workers: usize,
}

impl SortConfig {
    /// A configuration with the given threshold and number of workers.
    pub fn new(threshold: usize, workers: usize) -> (config: SortConfig)
        ensures
            config.threshold == threshold,
            config.workers == workers,
    {
        SortConfig { threshold, workers }
    }

    /// The usual threshold, and as many workers as the system offers
    /// processors: at least one.
    pub fn detect() -> (config: SortConfig)
        ensures
            config.threshold == PARALLEL_THRESHOLD,
            config.workers >= 1,
    {
        SortConfig { threshold: PARALLEL_THRESHOLD, workers: available_workers() }
    }

    /// The strategy for a slice of `len` elements.
    pub open spec fn strategy(self, len: int) -> Strategy {
        strategy_for(len, self.threshold as int)
    }

    /// Whether the sorter gets a slice of `len` elements as a whole: on the
    /// sequential path, and on the parallel path with one worker.
    pub open spec fn one_window(self, len: int) -> bool {
        self.strategy(len) == Strategy::Sequential || (self.strategy(len) == Strategy::Parallel
            && self.workers == 1)
    }
}

/// The strategy for `len` elements under a threshold: nothing below two
/// elements, the parallel sort above the threshold, the sequential sorter
/// otherwise.
pub open spec fn strategy_for(len: int, threshold: int) -> Strategy {
    if len < 2 {
        Strategy::Nothing
    } else if len > threshold {
        Strategy::Parallel
    } else {
        Strategy::Sequential
    }
}

/// Chooses the strategy for a slice of `len` elements.
pub fn choose_strategy(len: usize, threshold: usize) -> (strategy: Strategy)
    ensures
        strategy == strategy_for(len as int, threshold as int),
{
    if len < 2 {
        Strategy::Nothing
    } else if len > threshold {
        Strategy::Parallel
    } else {
        Strategy::Sequential
    }
}

/// Sorts every window of `arr` with `sort`, each on a thread of its own, and
/// returns when all of them have ended: the first `workers - 1` windows hold
/// `size` elements each and the last holds the rest. Returns whether every
/// worker was started and ran to its end; where one did not, only the length
/// of `arr` is known.
pub fn sort_windows<T, F>(sort: F, arr: &mut [T], size: usize, workers: usize) -> (joined: bool)
    where
        T: PartialOrd + Copy + Send,
        F: Fn(&mut [T]) + Send + Copy,
    requires
        forall|s: &mut [T]| #[trigger] sort.requires((s,)),
        forall|s: &mut [T]| #[trigger]
            sort.ensures((s,), ()) ==> sorted(final(s)@) && permutation(final(s)@, s@),
        workers >= 1,
        size * (workers - 1) <= old(arr)@.len(),
    ensures
        final(arr)@.len() == old(arr)@.len(),
        joined ==> windows_sorted(old(arr)@, final(arr)@, size as int, workers as int),
        joined ==> forall|k: int|
            0 <= k < workers ==> #[trigger] window_done(
                old(arr)@,
                final(arr)@,
                size as int,
                workers as int,
                k,
            ),
        joined && workers == 1 ==> exists|s: &mut [T]| #[trigger]
            sort.ensures((s,), ()) && s@ == old(arr)@ && final(s)@ == final(arr)@,
{
    let ghost before = arr@;
    let joined = dispatch(sort, arr, size, workers);
    proof {
        if joined {
            assert forall|k: int| 0 <= k < workers implies #[trigger] window_done(
                before,
                arr@,
                size as int,
                workers as int,
                k,
            ) by {
                lemma_window_sorted(before, arr@, size as int, workers as int, k);
            }
        }
    }
    joined
}

/// What follows the sort of the windows. Where every worker ran to its end,
/// the runs of `size` elements are merged into one, which is sorted if the
/// runs were; where not, `arr` is left as it is and the failure is reported.
pub fn merge_if_joined<T: PartialOrd + Copy>(arr: &mut [T], size: usize, joined: bool) -> (r:
    Result<(), SortError>)
    requires
        total_preorder::<T>(),
    ensures
        joined <==> r is Ok,
        !joined ==> r == Err::<(), SortError>(SortError::WorkerFailed),
        !joined ==> final(arr)@ == old(arr)@,
        joined ==> final(arr)@ == merge_runs_of(old(arr)@, size as int),
        joined ==> permutation(final(arr)@, old(arr)@),
        joined && in_sorted_runs(old(arr)@, size as int) ==> sorted(final(arr)@),
        joined && (size == 0 || size >= old(arr)@.len()) ==> final(arr)@ == old(arr)@,
        final(arr)@.len() == old(arr)@.len(),
{
    if joined {
        merge_runs(arr, size);
        Ok(())
    } else {
        Err(SortError::WorkerFailed)
    }
}

/// Sorts `arr` with the parallel pipeline, whatever its length: the slice is
/// cut into `workers` windows, each window is sorted by `sort` on a thread of
/// its own, and the sorted windows are merged. With no worker nothing is
/// done and the call is refused. With one worker the whole slice is the one
/// window, and what comes out is what `sort` alone makes of it.
pub fn parallel_sort<T, F>(sort: F, arr: &mut [T], workers: usize) -> (r: Result<(), SortError>)
    where
        T: PartialOrd + Copy + Send,
        F: Fn(&mut [T]) + Send + Copy,
    requires
        total_preorder::<T>(),
        forall|s: &mut [T]| #[trigger] sort.requires((s,)),
        forall|s: &mut [T]| #[trigger]
            sort.ensures((s,), ()) ==> sorted(final(s)@) && permutation(final(s)@, s@),
    ensures
        final(arr)@.len() == old(arr)@.len(),
        workers == 0 <==> r == Err::<(), SortError>(SortError::NoWorkers),
        workers == 0 ==> final(arr)@ == old(arr)@,
        r is Ok ==> sorted(final(arr)@) && permutation(final(arr)@, old(arr)@),
        r is Ok && workers == 1 ==> exists|s: &mut [T]| #[trigger]
            sort.ensures((s,), ()) && s@ == old(arr)@ && final(s)@ == final(arr)@,
        r is Ok && total_order::<T>() && sorted(old(arr)@) ==> final(arr)@ == old(arr)@,
{
    if workers == 0 {
        return Err(SortError::NoWorkers);
    }
    let ghost before = arr@;
    let size = window_size(arr.len(), workers);
    let joined = sort_windows(sort, arr, size, workers);
    let ghost windows = arr@;
    proof {
        if joined {
            lemma_windows_are_runs(before, windows, size as int, workers as int);
        }
    }
    let r = merge_if_joined(arr, size, joined);
    proof {
        if joined {
            assert(arr@.to_multiset() == before.to_multiset());
            if total_order::<T>() && sorted(before) {
                lemma_sorted_permutation_unique(arr@, before);
            }
        }
    }
    r
}

/// Sorts `arr` as `config` says. A slice of fewer than two elements is left
/// as it is, and no worker is started. A slice longer than the threshold
/// goes through the parallel pipeline with the workers of `config`. Any
/// other slice is handed to `sort` as a whole.
pub fn sort_with_config<T, F>(sort: F, arr: &mut [T], config: &SortConfig) -> (r: Result<
    (),
    SortError,
>)
    where
        T: PartialOrd + Copy + Send,
        F: Fn(&mut [T]) + Send + Copy,
    requires
        total_preorder::<T>(),
        forall|s: &mut [T]| #[trigger] sort.requires((s,)),
        forall|s: &mut [T]| #[trigger]
            sort.ensures((s,), ()) ==> sorted(final(s)@) && permutation(final(s)@, s@),
    ensures
        final(arr)@.len() == old(arr)@.len(),
        config.strategy(old(arr)@.len() as int) == Strategy::Nothing ==> r is Ok && final(arr)@
            == old(arr)@,
        config.strategy(old(arr)@.len() as int) == Strategy::Sequential ==> r is Ok,
        config.strategy(old(arr)@.len() as int) == Strategy::Parallel ==> (config.workers == 0
            <==> r == Err::<(), SortError>(SortError::NoWorkers)),
        r == Err::<(), SortError>(SortError::NoWorkers) ==> final(arr)@ == old(arr)@,
        r is Ok ==> sorted(final(arr)@) && permutation(final(arr)@, old(arr)@),
        r is Ok && config.one_window(old(arr)@.len() as int) ==> exists|s: &mut [T]| #[trigger]
            sort.ensures((s,), ()) && s@ == old(arr)@ && final(s)@ == final(arr)@,
        r is Ok && total_order::<T>() && sorted(old(arr)@) ==> final(arr)@ == old(arr)@,
{
    let ghost before = arr@;
    match choose_strategy(arr.len(), config.threshold) {
        Strategy::Nothing => Ok(()),
        Strategy::Parallel => parallel_sort(sort, arr, config.workers),
        Strategy::Sequential => {
            sort(arr);
            proof {
                if total_order::<T>() && sorted(before) {
                    lemma_sorted_permutation_unique(arr@, before);
                }
                vstd::seq_lib::to_multiset_len(arr@);
                vstd::seq_lib::to_multiset_len(before);
            }
            Ok(())
        },
    }
}

/// Sorts `arr` ascending with `sort`, in parallel where that pays: a slice
/// longer than `PARALLEL_THRESHOLD` is sorted by as many workers as the
/// system offers processors, any other by `sort` alone.
pub fn multi_threaded_sorting<T, F>(sort: F, arr: &mut [T]) -> (r: Result<(), SortError>)
    where
        T: PartialOrd + Copy + Send,
        F: Fn(&mut [T]) + Send + Copy,
    requires
        total_preorder::<T>(),
        forall|s: &mut [T]| #[trigger] sort.requires((s,)),
        forall|s: &mut [T]| #[trigger]
            sort.ensures((s,), ()) ==> sorted(final(s)@) && permutation(final(s)@, s@),
    ensures
        final(arr)@.len() == old(arr)@.len(),
        old(arr)@.len() < 2 ==> final(arr)@ == old(arr)@,
        old(arr)@.len() <= PARALLEL_THRESHOLD ==> r is Ok,
        2 <= old(arr)@.len() <= PARALLEL_THRESHOLD ==> exists|s: &mut [T]| #[trigger]
            sort.ensures((s,), ()) && s@ == old(arr)@ && final(s)@ == final(arr)@,
        r != Err::<(), SortError>(SortError::NoWorkers),
        r is Ok ==> sorted(final(arr)@) && permutation(final(arr)@, old(arr)@),
        r is Ok && total_order::<T>() && sorted(old(arr)@) ==> final(arr)@ == old(arr)@,
{
    let config = SortConfig::detect();
    sort_with_config(sort, arr, &config)
}

} // verus!
