use parallel_sort::sorting::{heap_sort, heapify, partition, quick_sort};
use rand::rngs::StdRng;
use rand::{Rng, SeedableRng};

fn random_values(count: usize, seed: u64) -> Vec<i32> {
    let mut rng = StdRng::seed_from_u64(seed);
    let mut values = Vec::with_capacity(count);
    for _ in 0..count {
        values.push(rng.gen_range(0..=10_000));
    }
    values
}

#[derive(Clone, Copy, Debug, PartialEq)]
struct Keyed {
    key: i32,
    tag: char,
}

impl PartialOrd for Keyed {
    fn partial_cmp(&self, other: &Keyed) -> Option<std::cmp::Ordering> {
        self.key.partial_cmp(&other.key)
    }
}

fn keyed(key: i32, tag: char) -> Keyed {
    Keyed { key, tag }
}

fn is_max_heap(v: &[i32], len: usize) -> bool {
    for k in 0..len {
        if 2 * k + 1 < len && v[2 * k + 1] > v[k] {
            return false;
        }
        if 2 * k + 2 < len && v[2 * k + 2] > v[k] {
            return false;
        }
    }
    true
}

#[test]
fn quick_sort_sorts_ten_elements() {
    let mut v = vec![5, 3, 8, 1, 9, 2, 7, 4, 6, 0];
    quick_sort(&mut v);
    assert_eq!(v, vec![0, 1, 2, 3, 4, 5, 6, 7, 8, 9]);
}

#[test]
fn heap_sort_sorts_ten_elements() {
    let mut v = vec![5, 3, 8, 1, 9, 2, 7, 4, 6, 0];
    heap_sort(&mut v);
    assert_eq!(v, vec![0, 1, 2, 3, 4, 5, 6, 7, 8, 9]);
}

#[test]
fn quick_sort_leaves_short_slices_alone() {
    let mut empty: Vec<i32> = vec![];
    quick_sort(&mut empty);
    assert_eq!(empty, Vec::<i32>::new());
    let mut one = vec![7];
    quick_sort(&mut one);
    assert_eq!(one, vec![7]);
}

#[test]
fn heap_sort_leaves_short_slices_alone() {
    let mut empty: Vec<i32> = vec![];
    heap_sort(&mut empty);
    assert_eq!(empty, Vec::<i32>::new());
    let mut one = vec![7];
    heap_sort(&mut one);
    assert_eq!(one, vec![7]);
}

#[test]
fn quick_sort_sorts_two_elements() {
    let mut v = vec![2, 1];
    quick_sort(&mut v);
    assert_eq!(v, vec![1, 2]);
}

#[test]
fn heap_sort_sorts_two_elements() {
    let mut v = vec![2, 1];
    heap_sort(&mut v);
    assert_eq!(v, vec![1, 2]);
}

#[test]
fn quick_sort_keeps_a_sorted_slice() {
    let sorted: Vec<i32> = (0..500).collect();
    let mut v = sorted.clone();
    quick_sort(&mut v);
    assert_eq!(v, sorted);
}

#[test]
fn heap_sort_keeps_a_sorted_slice() {
    let sorted: Vec<i32> = (0..5000).collect();
    let mut v = sorted.clone();
    heap_sort(&mut v);
    assert_eq!(v, sorted);
}

#[test]
fn quick_sort_sorts_a_descending_slice() {
    let mut v: Vec<i32> = (0..500).rev().collect();
    quick_sort(&mut v);
    assert_eq!(v, (0..500).collect::<Vec<i32>>());
}

#[test]
fn heap_sort_sorts_a_descending_slice() {
    let mut v: Vec<i32> = (0..5000).rev().collect();
    heap_sort(&mut v);
    assert_eq!(v, (0..5000).collect::<Vec<i32>>());
}

#[test]
fn quick_sort_keeps_duplicates() {
    let mut v = vec![3, 1, 3, 1, 2, 2, 3, 1];
    quick_sort(&mut v);
    assert_eq!(v, vec![1, 1, 1, 2, 2, 3, 3, 3]);
}

#[test]
fn heap_sort_keeps_duplicates() {
    let mut v = vec![3, 1, 3, 1, 2, 2, 3, 1];
    heap_sort(&mut v);
    assert_eq!(v, vec![1, 1, 1, 2, 2, 3, 3, 3]);
}

#[test]
fn quick_sort_sorts_negative_numbers() {
    let mut v: Vec<i64> = vec![0, -5, 12, i64::MIN, i64::MAX, -1];
    quick_sort(&mut v);
    assert_eq!(v, vec![i64::MIN, -5, -1, 0, 12, i64::MAX]);
}

#[test]
fn quick_sort_agrees_with_the_standard_sort() {
    let input = random_values(30_000, 11);
    let mut expected = input.clone();
    expected.sort();
    let mut v = input;
    quick_sort(&mut v);
    assert_eq!(v, expected);
}

#[test]
fn heap_sort_agrees_with_the_standard_sort() {
    let input = random_values(30_000, 12);
    let mut expected = input.clone();
    expected.sort();
    let mut v = input;
    heap_sort(&mut v);
    assert_eq!(v, expected);
}

#[test]
fn sorting_twice_changes_nothing() {
    let mut once = random_values(2_000, 13);
    quick_sort(&mut once);
    let mut twice = once.clone();
    quick_sort(&mut twice);
    assert_eq!(twice, once);
    heap_sort(&mut twice);
    assert_eq!(twice, once);
}

#[test]
fn quick_sort_sorts_characters() {
    let mut v = vec!['d', 'a', 'c', 'b'];
    quick_sort(&mut v);
    assert_eq!(v, vec!['a', 'b', 'c', 'd']);
}

#[test]
fn partition_places_the_pivot() {
    let mut v = vec![3, 8, 1, 9, 2, 5];
    let p = partition(&mut v);
    assert_eq!(p, 3);
    assert_eq!(v, vec![3, 1, 2, 5, 8, 9]);
}

#[test]
fn partition_of_one_element() {
    let mut v = vec![4];
    assert_eq!(partition(&mut v), 0);
    assert_eq!(v, vec![4]);
}

#[test]
fn partition_with_the_greatest_pivot() {
    let mut v = vec![2, 7, 1, 9];
    assert_eq!(partition(&mut v), 3);
    assert_eq!(v, vec![2, 7, 1, 9]);
}

#[test]
fn partition_with_the_least_pivot() {
    let mut v = vec![5, 7, 9, 1];
    assert_eq!(partition(&mut v), 0);
    assert_eq!(v, vec![1, 7, 9, 5]);
}

#[test]
fn partition_counts_elements_equal_to_the_pivot() {
    let mut v = vec![4, 6, 4, 1, 4];
    assert_eq!(partition(&mut v), 3);
    assert_eq!(v, vec![4, 4, 1, 4, 6]);
}

#[test]
fn partition_splits_random_values() {
    let input = random_values(1_000, 14);
    let pivot = input[input.len() - 1];
    let mut v = input.clone();
    let p = partition(&mut v);
    assert_eq!(v[p], pivot);
    assert!(v[..p].iter().all(|x| *x <= pivot));
    assert!(v[p + 1..].iter().all(|x| *x > pivot));
    let kept: Vec<i32> = input[..input.len() - 1].iter().copied().filter(|x| *x <= pivot).collect();
    assert_eq!(v[..p].to_vec(), kept);
    let mut a = v.clone();
    let mut b = input;
    a.sort();
    b.sort();
    assert_eq!(a, b);
}

#[test]
fn heapify_lifts_the_greater_child() {
    let mut v = vec![1, 5, 3];
    heapify(&mut v, 3, 0);
    assert_eq!(v, vec![5, 1, 3]);
}

#[test]
fn heapify_prefers_the_right_child_when_greater() {
    let mut v = vec![1, 5, 8];
    heapify(&mut v, 3, 0);
    assert_eq!(v, vec![8, 5, 1]);
}

#[test]
fn heapify_sinks_through_several_levels() {
    let mut v = vec![1, 9, 8, 7, 6, 5, 4];
    heapify(&mut v, 7, 0);
    assert_eq!(v, vec![9, 7, 8, 1, 6, 5, 4]);
    assert!(is_max_heap(&v, 7));
}

#[test]
fn heapify_ignores_what_lies_past_the_heap() {
    let mut v = vec![5, 1, 9];
    heapify(&mut v, 2, 0);
    assert_eq!(v, vec![5, 1, 9]);
    let mut w = vec![1, 5, 9];
    heapify(&mut w, 2, 0);
    assert_eq!(w, vec![5, 1, 9]);
}

#[test]
fn heapify_leaves_a_leaf_alone() {
    let mut v = vec![1, 2, 3, 4];
    heapify(&mut v, 4, 2);
    assert_eq!(v, vec![1, 2, 3, 4]);
    heapify(&mut v, 4, 3);
    assert_eq!(v, vec![1, 2, 3, 4]);
    heapify(&mut v, 0, 0);
    assert_eq!(v, vec![1, 2, 3, 4]);
    heapify(&mut v, 4, usize::MAX);
    assert_eq!(v, vec![1, 2, 3, 4]);
}

#[test]
fn heapify_keeps_a_heap() {
    let mut v = vec![9, 7, 8, 1, 6, 5, 4];
    heapify(&mut v, 7, 0);
    assert_eq!(v, vec![9, 7, 8, 1, 6, 5, 4]);
}

#[test]
fn heapify_from_the_bottom_builds_a_heap() {
    let mut v = random_values(1_000, 15);
    let len = v.len();
    let mut i = len / 2;
    while i > 0 {
        i -= 1;
        heapify(&mut v, len, i);
    }
    assert!(is_max_heap(&v, len));
}

#[test]
fn partition_keeps_the_order_of_what_comes_first() {
    let mut v = vec![keyed(2, 'a'), keyed(9, 'b'), keyed(2, 'c'), keyed(1, 'd'), keyed(2, 'e')];
    assert_eq!(partition(&mut v), 3);
    assert_eq!(v[..4].to_vec(), vec![keyed(2, 'a'), keyed(2, 'c'), keyed(1, 'd'), keyed(2, 'e')]);
    assert_eq!(v[4], keyed(9, 'b'));
}

#[test]
fn sorters_order_by_the_comparison_alone() {
    let input = vec![keyed(3, 'a'), keyed(1, 'b'), keyed(2, 'c'), keyed(1, 'd'), keyed(3, 'e')];
    let mut v = input.clone();
    quick_sort(&mut v);
    assert_eq!(v.iter().map(|k| k.key).collect::<Vec<i32>>(), vec![1, 1, 2, 3, 3]);
    let mut w = input;
    heap_sort(&mut w);
    assert_eq!(w.iter().map(|k| k.key).collect::<Vec<i32>>(), vec![1, 1, 2, 3, 3]);
}

#[test]
fn partition_of_ten_elements_with_the_least_pivot() {
    let mut v = vec![5, 3, 8, 1, 9, 2, 7, 4, 6, 0];
    assert_eq!(partition(&mut v), 0);
    assert_eq!(v, vec![0, 3, 8, 1, 9, 2, 7, 4, 6, 5]);
}

#[test]
fn partition_moves_the_greater_elements_as_the_pass_does() {
    let mut v = vec![9, 1, 8, 2, 7, 3, 5];
    assert_eq!(partition(&mut v), 3);
    assert_eq!(v, vec![1, 2, 3, 5, 7, 8, 9]);
    let mut w = vec![6, 7, 8, 1, 9, 2, 5];
    assert_eq!(partition(&mut w), 2);
    assert_eq!(w, vec![1, 2, 5, 6, 9, 7, 8]);
}

#[test]
fn heapify_leaves_the_other_subtrees_alone() {
    let mut v = vec![0, 1, 2, 9, 8, 7, 6];
    heapify(&mut v, 7, 1);
    assert_eq!(v, vec![0, 9, 2, 1, 8, 7, 6]);
    let mut w = vec![0, 1, 2, 9, 8, 7, 6];
    heapify(&mut w, 7, 2);
    assert_eq!(w, vec![0, 1, 7, 9, 8, 2, 6]);
}

#[test]
fn heapify_assumes_no_heap_below() {
    let mut v = vec![5, 1, 2, 9, 9, 9, 9];
    heapify(&mut v, 7, 0);
    assert_eq!(v, vec![5, 1, 2, 9, 9, 9, 9]);
    let mut w = vec![1, 3, 2, 9, 0, 0, 0];
    heapify(&mut w, 7, 0);
    assert_eq!(w, vec![3, 9, 2, 1, 0, 0, 0]);
}

#[test]
fn heapify_takes_the_left_child_on_a_tie() {
    let mut v = vec![1, 4, 4];
    heapify(&mut v, 3, 0);
    assert_eq!(v, vec![4, 1, 4]);
    let mut keyed_heap = vec![keyed(1, 'a'), keyed(4, 'b'), keyed(4, 'c')];
    heapify(&mut keyed_heap, 3, 0);
    assert_eq!(keyed_heap, vec![keyed(4, 'b'), keyed(1, 'a'), keyed(4, 'c')]);
}
