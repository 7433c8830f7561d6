use scicomp::exercises::{add_three, add_two, compare_text, leap_year, receipt_matches, sum_even_times_three};
use scicomp::progress::Progress;

#[test]
fn sum_of_even_numbers_times_three() {
    assert_eq!(sum_even_times_three(6, 6_000_000), 27_000_008_999_982);
    assert_eq!(sum_even_times_three(1, 4), 18);
    assert_eq!(sum_even_times_three(5, 4), 0);
}

#[test]
fn small_sums() {
    assert_eq!(add_two(1, 2), 3);
    assert_eq!(add_three(1_000_000_000_000, 1, 2), 1_000_000_000_003);
}

#[test]
fn comparisons() {
    assert_eq!(compare_text(1, 2), "<");
    assert_eq!(compare_text(3, 2), ">");
    assert_eq!(compare_text(5, 5), "==");
}

#[test]
fn leap_years() {
    assert_eq!(leap_year(2000), 1);
    assert_eq!(leap_year(1900), 0);
    assert_eq!(leap_year(2012), 1);
    assert_eq!(leap_year(2023), 0);
}

#[test]
fn receipts() {
    assert_eq!(receipt_matches(260000, &vec![(20000, 5), (30000, 2), (10000, 6), (5000, 8)]), "Yes");
    assert_eq!(receipt_matches(250000, &vec![(20000, 5), (30000, 2), (10000, 6), (5000, 8)]), "No");
}

#[test]
fn progress_counts_items() {
    let mut p = Progress::new(vec![1, 2, 3].into_iter(), Some(3));
    assert_eq!(p.current, 0);
    p.count_item();
    p.count_item();
    assert_eq!(p.current, 2);
    assert_eq!(p.total, Some(3));
}
