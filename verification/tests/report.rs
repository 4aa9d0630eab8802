use parallel_sort::report::{axis_label, choose_unit, whole_units, SvgQuery, TimeUnit, Timings};

#[test]
fn unit_follows_the_longest_duration() {
    assert_eq!(choose_unit(0), TimeUnit::Nanoseconds);
    assert_eq!(choose_unit(1_000), TimeUnit::Nanoseconds);
    assert_eq!(choose_unit(1_001), TimeUnit::Microseconds);
    assert_eq!(choose_unit(1_000_000), TimeUnit::Microseconds);
    assert_eq!(choose_unit(1_000_001), TimeUnit::Milliseconds);
    assert_eq!(choose_unit(1_000_500), TimeUnit::Milliseconds);
    assert_eq!(choose_unit(1_000_000_000), TimeUnit::Milliseconds);
    assert_eq!(choose_unit(1_000_000_001), TimeUnit::Seconds);
    assert_eq!(choose_unit(1_000_900_000), TimeUnit::Seconds);
    assert_eq!(choose_unit(u128::MAX), TimeUnit::Seconds);
}

#[test]
fn whole_units_round_down() {
    assert_eq!(whole_units(2_999_999_999, TimeUnit::Seconds), 2);
    assert_eq!(whole_units(2_999_999_999, TimeUnit::Milliseconds), 2_999);
    assert_eq!(whole_units(2_999_999_999, TimeUnit::Microseconds), 2_999_999);
    assert_eq!(whole_units(2_999_999_999, TimeUnit::Nanoseconds), 2_999_999_999);
    assert_eq!(whole_units(999, TimeUnit::Microseconds), 0);
}

#[test]
fn axis_labels() {
    assert_eq!(axis_label(TimeUnit::Seconds), "In Seconds");
    assert_eq!(axis_label(TimeUnit::Milliseconds), "In Milliseconds");
    assert_eq!(axis_label(TimeUnit::Microseconds), "In Microseconds");
    assert_eq!(axis_label(TimeUnit::Nanoseconds), "In Nanoseconds");
}

#[test]
fn largest_of_four_timings() {
    let t = Timings { single_quick: 40, multi_quick: 70, single_heap: 30, multi_heap: 10 };
    assert_eq!(t.largest(), 70);
    let t = Timings { single_quick: 40, multi_quick: 7, single_heap: 300, multi_heap: 10 };
    assert_eq!(t.largest(), 300);
    let t = Timings { single_quick: 4, multi_quick: 7, single_heap: 3, multi_heap: 10 };
    assert_eq!(t.largest(), 10);
    let t = Timings { single_quick: 5, multi_quick: 5, single_heap: 5, multi_heap: 5 };
    assert_eq!(t.largest(), 5);
}

#[test]
fn timings_choose_their_unit() {
    let t = Timings {
        single_quick: 2_500_000,
        multi_quick: 900_000,
        single_heap: 3_100_000,
        multi_heap: 1_200_000,
    };
    assert_eq!(t.unit(), TimeUnit::Milliseconds);
    assert_eq!(whole_units(t.largest(), t.unit()), 3);
}

#[test]
fn query_holds_the_array_size() {
    let q = SvgQuery { user_input: 50_000 };
    assert_eq!(q.user_input, 50_000);
    assert_eq!(q, SvgQuery { user_input: 50_000 });
}
