use parallel_sort::windows::{window_bounds, window_size};

#[test]
fn window_size_rounds_down() {
    assert_eq!(window_size(100_003, 8), 12_500);
    assert_eq!(window_size(10, 3), 3);
    assert_eq!(window_size(10, 1), 10);
    assert_eq!(window_size(3, 8), 0);
    assert_eq!(window_size(0, 4), 0);
}

#[test]
fn the_last_window_takes_the_rest() {
    assert_eq!(window_bounds(100_003, 8, 0), (0, 12_500));
    assert_eq!(window_bounds(100_003, 8, 6), (75_000, 87_500));
    assert_eq!(window_bounds(100_003, 8, 7), (87_500, 100_003));
}

#[test]
fn windows_follow_one_another() {
    let len = 50_001;
    let workers = 7;
    let mut at = 0;
    for k in 0..workers {
        let (start, end) = window_bounds(len, workers, k);
        assert_eq!(start, at);
        assert!(start <= end);
        if k + 1 < workers {
            assert_eq!(end - start, len / workers);
        } else {
            assert!(end - start >= len / workers);
        }
        at = end;
    }
    assert_eq!(at, len);
}

#[test]
fn one_window_is_the_whole() {
    assert_eq!(window_bounds(10, 1, 0), (0, 10));
    assert_eq!(window_bounds(0, 1, 0), (0, 0));
}

#[test]
fn windows_for_more_workers_than_elements() {
    assert_eq!(window_bounds(3, 8, 0), (0, 0));
    assert_eq!(window_bounds(3, 8, 6), (0, 0));
    assert_eq!(window_bounds(3, 8, 7), (0, 3));
}
