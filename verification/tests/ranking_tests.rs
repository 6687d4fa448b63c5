use fluxion::ranking::{count_peaks, find_cheapest_overnight_blocks, select_blocks_by_price};
use fluxion::time::UtcDateTime;

#[test]
fn cheapest_first_is_a_stable_choice() {
    let ranks = [3, 1, 2, 1, 0];
    let all = [true; 5];
    assert_eq!(select_blocks_by_price(&ranks, &all, 3, false), vec![4, 1, 3]);
    assert_eq!(select_blocks_by_price(&ranks, &all, 10, false), vec![4, 1, 3, 2, 0]);
    assert_eq!(select_blocks_by_price(&ranks, &all, 0, false), Vec::<usize>::new());
}

#[test]
fn dearest_first_keeps_block_order_on_ties() {
    let ranks = [3, 1, 3, 1, 0];
    let all = [true; 5];
    assert_eq!(select_blocks_by_price(&ranks, &all, 3, true), vec![0, 2, 1]);
}

#[test]
fn only_eligible_blocks_are_chosen() {
    let ranks = [0, 1, 2, 3];
    assert_eq!(select_blocks_by_price(&ranks, &[false, true, false, true], 5, false), vec![1, 3]);
    // Blocks without an eligibility flag are not chosen.
    assert_eq!(select_blocks_by_price(&ranks, &[true, true], 5, false), vec![0, 1]);
}

#[test]
fn cheapest_overnight_blocks() {
    let starts: Vec<UtcDateTime> = [2, 3, 4, 7, 8]
        .iter()
        .map(|h| UtcDateTime::from_ymd_hms_opt(2026, 1, 20, *h, 0, 0).unwrap())
        .collect();
    let ranks = [5, 4, 4, 0, 1];
    // 07:00 and 08:00 are cheapest but not overnight (peak starts at 6).
    assert_eq!(find_cheapest_overnight_blocks(&starts, &ranks, 6, 2), vec![1, 2]);
    assert_eq!(find_cheapest_overnight_blocks(&starts, &ranks, 6, 9), vec![1, 2, 0]);
}

#[test]
fn turning_points_of_a_price_curve() {
    assert_eq!(count_peaks(&[1, 2]), 0);
    // 3 is a peak, 1 a valley, 4 a peak; flat stretches do not count.
    assert_eq!(count_peaks(&[0, 3, 1, 4, 2]), 3);
    assert_eq!(count_peaks(&[1, 1, 1, 1]), 0);
    assert_eq!(count_peaks(&[0, 2, 2, 0]), 0);
}
