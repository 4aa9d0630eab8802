use parallel_sort::merge::{merge_in_place, merge_pass, merge_runs};
use std::cmp::Ordering;

#[derive(Clone, Copy, Debug, PartialEq)]
struct Tagged {
    key: i32,
    tag: char,
}

impl PartialOrd for Tagged {
    fn partial_cmp(&self, other: &Tagged) -> Option<Ordering> {
        self.key.partial_cmp(&other.key)
    }
}

fn tagged(key: i32, tag: char) -> Tagged {
    Tagged { key, tag }
}

#[test]
fn merge_in_place_merges_two_runs() {
    let mut v = vec![1, 4, 7, 2, 3, 9];
    merge_in_place(&mut v, 0, 3, 3, 6);
    assert_eq!(v, vec![1, 2, 3, 4, 7, 9]);
}

#[test]
fn merge_in_place_touches_only_the_two_runs() {
    let mut v = vec![9, 1, 5, 2, 6, 0];
    merge_in_place(&mut v, 1, 3, 3, 5);
    assert_eq!(v, vec![9, 1, 2, 5, 6, 0]);
}

#[test]
fn merge_in_place_with_an_empty_run() {
    let mut v = vec![1, 2, 3];
    merge_in_place(&mut v, 0, 3, 3, 3);
    assert_eq!(v, vec![1, 2, 3]);
    merge_in_place(&mut v, 0, 0, 0, 3);
    assert_eq!(v, vec![1, 2, 3]);
    merge_in_place(&mut v, 1, 1, 1, 1);
    assert_eq!(v, vec![1, 2, 3]);
}

#[test]
fn merge_in_place_with_runs_of_unequal_length() {
    let mut v = vec![5, 1, 2, 3, 4, 6, 7];
    merge_in_place(&mut v, 0, 1, 1, 7);
    assert_eq!(v, vec![1, 2, 3, 4, 5, 6, 7]);
}

#[test]
fn merge_in_place_when_the_second_run_comes_first() {
    let mut v = vec![7, 8, 9, 1, 2];
    merge_in_place(&mut v, 0, 3, 3, 5);
    assert_eq!(v, vec![1, 2, 7, 8, 9]);
}

#[test]
fn merge_in_place_favours_the_first_run_on_a_tie() {
    let mut v = vec![tagged(1, 'a'), tagged(2, 'a'), tagged(1, 'b'), tagged(2, 'b')];
    merge_in_place(&mut v, 0, 2, 2, 4);
    assert_eq!(v, vec![tagged(1, 'a'), tagged(1, 'b'), tagged(2, 'a'), tagged(2, 'b')]);
}

#[test]
fn merge_in_place_takes_the_lesser_front_element_of_unsorted_runs() {
    let mut v = vec![3, 1, 2, 0];
    merge_in_place(&mut v, 0, 2, 2, 4);
    assert_eq!(v, vec![2, 0, 3, 1]);
}

#[test]
fn merge_pass_doubles_the_runs() {
    let mut v = vec![1, 5, 2, 3, 0, 9, 4];
    merge_pass(&mut v, 2);
    assert_eq!(v, vec![1, 2, 3, 5, 0, 4, 9]);
    merge_pass(&mut v, 4);
    assert_eq!(v, vec![0, 1, 2, 3, 4, 5, 9]);
}

#[test]
fn merge_pass_leaves_a_lone_last_run() {
    let mut v = vec![2, 4, 1, 3, 0];
    merge_pass(&mut v, 2);
    assert_eq!(v, vec![1, 2, 3, 4, 0]);
}

#[test]
fn merge_pass_of_an_empty_slice() {
    let mut v: Vec<i32> = vec![];
    merge_pass(&mut v, 3);
    assert_eq!(v, Vec::<i32>::new());
}

#[test]
fn merge_runs_merges_until_one_run_is_left() {
    let mut v = vec![1, 5, 2, 3, 0, 9, 4];
    merge_runs(&mut v, 2);
    assert_eq!(v, vec![0, 1, 2, 3, 4, 5, 9]);
}

#[test]
fn merge_runs_of_single_elements_sorts() {
    let mut v = vec![5, 3, 8, 1, 9, 2, 7, 4, 6, 0];
    merge_runs(&mut v, 1);
    assert_eq!(v, vec![0, 1, 2, 3, 4, 5, 6, 7, 8, 9]);
}

#[test]
fn merge_runs_with_a_longer_last_run() {
    let mut v = vec![2, 5, 8, 1, 3, 9, 0, 4, 6, 7];
    merge_runs(&mut v, 3);
    assert_eq!(v, vec![0, 1, 2, 3, 4, 5, 6, 7, 8, 9]);
}

#[test]
fn merge_runs_with_one_run_moves_nothing() {
    let mut v = vec![1, 2, 3, 4];
    merge_runs(&mut v, 4);
    assert_eq!(v, vec![1, 2, 3, 4]);
    merge_runs(&mut v, 9);
    assert_eq!(v, vec![1, 2, 3, 4]);
    merge_runs(&mut v, 0);
    assert_eq!(v, vec![1, 2, 3, 4]);
}

#[test]
fn merge_runs_with_the_largest_run_size() {
    let mut v = vec![1, 2, 3];
    merge_runs(&mut v, usize::MAX);
    assert_eq!(v, vec![1, 2, 3]);
}

#[test]
fn merge_runs_is_stable() {
    let mut v = vec![tagged(2, 'a'), tagged(1, 'b'), tagged(2, 'c'), tagged(1, 'd'), tagged(2, 'e')];
    merge_runs(&mut v, 1);
    assert_eq!(
        v,
        vec![tagged(1, 'b'), tagged(1, 'd'), tagged(2, 'a'), tagged(2, 'c'), tagged(2, 'e')]
    );
}

#[test]
fn merge_pass_of_unsorted_runs_still_merges_front_to_front() {
    let mut v = vec![3, 1, 2, 0, 5];
    merge_pass(&mut v, 2);
    assert_eq!(v, vec![2, 0, 3, 1, 5]);
}

#[test]
fn merge_runs_of_unsorted_runs_still_merges_front_to_front() {
    let mut v = vec![3, 1, 2, 0];
    merge_runs(&mut v, 2);
    assert_eq!(v, vec![2, 0, 3, 1]);
}

#[test]
fn merge_pass_with_a_run_as_long_as_the_slice() {
    let mut v = vec![4, 2, 9];
    merge_pass(&mut v, 3);
    assert_eq!(v, vec![4, 2, 9]);
    merge_pass(&mut v, usize::MAX);
    assert_eq!(v, vec![4, 2, 9]);
}

#[test]
fn merge_runs_counts_its_passes() {
    let mut v = vec![1, 5, 2, 3, 0, 9, 4];
    assert_eq!(merge_runs(&mut v, 2), 2);
    let mut w = vec![5, 3, 8, 1, 9, 2, 7, 4, 6, 0];
    assert_eq!(merge_runs(&mut w, 1), 4);
    let mut x = vec![1, 2, 3, 4];
    assert_eq!(merge_runs(&mut x, 4), 0);
    assert_eq!(merge_runs(&mut x, 0), 0);
    assert_eq!(merge_runs(&mut x, 2), 1);
    assert_eq!(merge_runs(&mut x, 3), 1);
    let mut empty: Vec<i32> = vec![];
    assert_eq!(merge_runs(&mut empty, 1), 0);
}

#[test]
fn merge_runs_of_a_large_slice_takes_logarithmically_many_passes() {
    let mut v: Vec<u32> = (0..100_003).collect();
    assert_eq!(merge_runs(&mut v, 12_500), 4);
    assert_eq!(v, (0..100_003).collect::<Vec<u32>>());
}
