use scicomp::collatz::{collatz_info, first_start_above, trajectory_stats};
use std::collections::HashMap;

#[test]
fn collatz_lengths_and_maxima() {
    let mut memo = HashMap::new();
    assert_eq!(collatz_info(1, &mut memo), (1, 1));
    assert_eq!(collatz_info(6, &mut memo), (9, 16));
    assert_eq!(collatz_info(27, &mut memo), (112, 9232));
    assert_eq!(memo.get(&6), Some(&(9, 16)));
    assert_eq!(collatz_info(7, &mut memo), (17, 52));
}

#[test]
fn memo_entries_are_reused() {
    let mut memo = HashMap::new();
    let first = collatz_info(97, &mut memo);
    let again = collatz_info(97, &mut memo);
    assert_eq!(first, again);
    assert_eq!(first, (119, 9232));
}

#[test]
fn trajectory_scan() {
    assert_eq!(trajectory_stats(27, 9000, 1000), Some((9232, 9232)));
    assert_eq!(trajectory_stats(6, 10, 1000), Some((16, 16)));
    assert_eq!(trajectory_stats(6, 100, 1000), Some((0, 16)));
    assert_eq!(trajectory_stats(1, 0, 10), Some((0, 1)));
    assert_eq!(trajectory_stats(27, 9000, 10), None);
    assert_eq!(trajectory_stats(0, 0, 10), None);
}

#[test]
fn memo_holds_the_terms_met() {
    let mut memo = HashMap::new();
    collatz_info(6, &mut memo);
    let mut keys: Vec<u128> = memo.keys().copied().collect();
    keys.sort();
    assert_eq!(keys, vec![2, 3, 4, 5, 6, 8, 10, 16]);
    assert_eq!(memo.get(&10), Some(&(7, 16)));
}

#[test]
fn first_start_above_a_threshold() {
    assert_eq!(first_start_above(1, 100, 100, 1000), Ok(Some((15, 106, 160))));
    assert_eq!(first_start_above(1, 5, 100, 1000), Ok(None));
    assert_eq!(first_start_above(27, 3, 10_000, 10), Err(27));
}
