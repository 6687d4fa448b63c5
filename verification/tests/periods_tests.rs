use fluxion::periods::{
    consecutive_ranges, detect_window_slots, find_expensive_periods, find_price_regions, true_runs_of,
    PriceClass,
};

#[test]
fn runs_of_flags() {
    assert_eq!(true_runs_of(&[]), vec![]);
    assert_eq!(
        true_runs_of(&[true, true, false, true, false, false, true]),
        vec![(0, 2), (3, 4), (6, 7)]
    );
}

#[test]
fn expensive_periods_use_absolute_indices() {
    let above = [false, true, true, false, true];
    assert_eq!(find_expensive_periods(&above, 10), vec![(11, 13), (14, 15)]);
    assert_eq!(find_expensive_periods(&[], 3), vec![]);
}

#[test]
fn price_regions_keep_runs_of_two_or_more() {
    let flags = [true, false, true, true, false, true, true, true, false, true];
    assert_eq!(find_price_regions(&flags), vec![vec![2, 3], vec![5, 6, 7]]);
}

#[test]
fn consecutive_index_ranges() {
    assert_eq!(consecutive_ranges(&[]), vec![]);
    assert_eq!(consecutive_ranges(&[2, 3, 4, 7, 9, 10]), vec![(2, 5), (7, 8), (9, 11)]);
    // A repeated index starts a new range.
    assert_eq!(consecutive_ranges(&[1, 1, 2]), vec![(1, 2), (1, 3)]);
}

use PriceClass::{Neutral as N, Peak as P, Valley as V};

#[test]
fn fewer_than_eight_blocks_have_no_window() {
    assert!(detect_window_slots(&[V, P, V, P, V, P, V]).is_empty());
}

#[test]
fn valley_peak_windows() {
    // valley (with neutral) -> peak (with neutral) -> next valley closes the window
    let classes = [N, V, N, P, N, V, V, P, N, N];
    let w = detect_window_slots(&classes);
    assert_eq!(w.len(), 2);
    assert_eq!(w[0].valley_slots, vec![1, 2]);
    assert_eq!(w[0].peak_slots, vec![3, 4]);
    assert_eq!(w[1].valley_slots, vec![5, 6]);
    assert_eq!(w[1].peak_slots, vec![7, 8, 9]);
}

#[test]
fn a_valley_without_a_peak_is_no_window() {
    let classes = [V, V, N, N, N, N, N, N];
    assert!(detect_window_slots(&classes).is_empty());
    let classes = [P, P, N, N, N, N, N, N];
    assert!(detect_window_slots(&classes).is_empty());
}
