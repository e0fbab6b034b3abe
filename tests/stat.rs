use git_stats::stat::{StateAccess, Stat};

#[test]
fn test_get_insertion() {
    assert_eq!(Stat::new(10, 5).get_insertion(), 10);
}

#[test]
fn test_get_deletion() {
    assert_eq!(Stat::new(10, 5).get_deletion(), 5);
}

#[test]
fn test_get_change_delta() {
    let test_cases = [((10, 5), 5), ((0, 0), 0), ((5, 10), -5)];

    for &((insertion, deletion), expected_delta) in &test_cases {
        assert_eq!(
            Stat::new(insertion, deletion).get_change_delta(),
            expected_delta
        );
    }
}

#[test]
fn change_delta_spans_the_whole_count_range() {
    assert_eq!(Stat::new(0, u32::MAX).get_change_delta(), -(u32::MAX as i64));
    assert_eq!(Stat::new(u32::MAX, 0).get_change_delta(), u32::MAX as i64);
}

#[test]
fn combine_adds_pairwise_and_rederives_delta() {
    let s = Stat::new(3, 10).combine(&Stat::new(4, 1));
    assert_eq!(s.get_insertion(), 7);
    assert_eq!(s.get_deletion(), 11);
    assert_eq!(s.get_change_delta(), -4);
}

#[test]
fn combine_holds_counts_at_the_maximum() {
    let s = Stat::new(u32::MAX - 1, 2).combine(&Stat::new(5, 3));
    assert_eq!(s.get_insertion(), u32::MAX);
    assert_eq!(s.get_deletion(), 5);
    assert_eq!(s.get_change_delta(), u32::MAX as i64 - 5);
}

#[test]
fn default_stat_is_zero() {
    let s = Stat::default();
    assert_eq!((s.get_insertion(), s.get_deletion(), s.get_change_delta()), (0, 0, 0));
}
