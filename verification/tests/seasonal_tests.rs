use fluxion::seasonal::{push_bounded, update_seasonal_mode, DayBalanceClass, SeasonalMode};
use fluxion::time::UtcDateTime;
use std::collections::VecDeque;

fn at(y: i32, mo: u32, d: u32, h: u32, mi: u32, s: u32) -> UtcDateTime {
    UtcDateTime::from_ymd_hms_opt(y, mo, d, h, mi, s).unwrap()
}

#[test]
fn seasonal_test_seasonal_mode_from_date() {
    // Winter months
    assert_eq!(SeasonalMode::from_date(at(2026, 1, 14, 0, 0, 0)), SeasonalMode::Winter);
    assert_eq!(SeasonalMode::from_date(at(2026, 12, 1, 0, 0, 0)), SeasonalMode::Winter);
    // Summer months
    assert_eq!(SeasonalMode::from_date(at(2026, 7, 15, 0, 0, 0)), SeasonalMode::Summer);
    assert_eq!(SeasonalMode::from_date(at(2026, 5, 1, 0, 0, 0)), SeasonalMode::Summer);
}

#[test]
fn winter_adaptive_v3_test_seasonal_mode_from_date() {
    assert_eq!(SeasonalMode::from_date(at(2026, 1, 14, 0, 0, 0)), SeasonalMode::Winter);
    assert_eq!(SeasonalMode::from_date(at(2026, 12, 1, 0, 0, 0)), SeasonalMode::Winter);
    assert_eq!(SeasonalMode::from_date(at(2026, 7, 15, 0, 0, 0)), SeasonalMode::Summer);
    assert_eq!(SeasonalMode::from_date(at(2026, 5, 1, 0, 0, 0)), SeasonalMode::Summer);
}

#[test]
fn test_seasonal_detection_october() {
    let date = at(2025, 10, 14, 10, 0, 0);
    assert_eq!(SeasonalMode::from_date(date), SeasonalMode::Winter);
}

#[test]
fn test_seasonal_detection_july() {
    let date = at(2025, 7, 15, 10, 0, 0);
    assert_eq!(SeasonalMode::from_date(date), SeasonalMode::Summer);
}

#[test]
fn season_boundaries() {
    assert_eq!(SeasonalMode::from_month(4), SeasonalMode::Winter);
    assert_eq!(SeasonalMode::from_month(5), SeasonalMode::Summer);
    assert_eq!(SeasonalMode::from_month(9), SeasonalMode::Summer);
    assert_eq!(SeasonalMode::from_month(10), SeasonalMode::Winter);
}

const DEFICIT: DayBalanceClass = DayBalanceClass { deficit: true, surplus: false };
const SURPLUS: DayBalanceClass = DayBalanceClass { deficit: false, surplus: true };
const NEUTRAL: DayBalanceClass = DayBalanceClass { deficit: false, surplus: false };

#[test]
fn too_little_history_keeps_the_mode() {
    let mut mode = SeasonalMode::Summer;
    assert!(!update_seasonal_mode(&mut mode, 10, &[DEFICIT, DEFICIT], 3));
    assert_eq!(mode, SeasonalMode::Summer);
}

#[test]
fn deficit_run_in_autumn_switches_to_winter() {
    let mut mode = SeasonalMode::Summer;
    assert!(update_seasonal_mode(&mut mode, 10, &[SURPLUS, DEFICIT, DEFICIT, DEFICIT], 3));
    assert_eq!(mode, SeasonalMode::Winter);
    // Already winter: no change reported.
    assert!(!update_seasonal_mode(&mut mode, 10, &[DEFICIT, DEFICIT, DEFICIT], 3));
    assert_eq!(mode, SeasonalMode::Winter);
}

#[test]
fn surplus_run_in_spring_switches_to_summer() {
    let mut mode = SeasonalMode::Winter;
    assert!(update_seasonal_mode(&mut mode, 4, &[SURPLUS, SURPLUS, SURPLUS], 3));
    assert_eq!(mode, SeasonalMode::Summer);
    // A deficit run in April does not switch back (winter rule is Sep-Feb).
    assert!(!update_seasonal_mode(&mut mode, 4, &[DEFICIT, DEFICIT, DEFICIT], 3));
    assert_eq!(mode, SeasonalMode::Summer);
}

#[test]
fn mixed_days_do_not_switch() {
    let mut mode = SeasonalMode::Winter;
    assert!(!update_seasonal_mode(&mut mode, 6, &[SURPLUS, NEUTRAL, SURPLUS], 3));
    assert_eq!(mode, SeasonalMode::Winter);
}

#[test]
fn bounded_history_drops_the_oldest() {
    let mut h: VecDeque<u32> = VecDeque::new();
    for i in 0..5 {
        push_bounded(&mut h, i, 3);
    }
    assert_eq!(h, VecDeque::from(vec![2, 3, 4]));
    push_bounded(&mut h, 9, 0);
    assert!(h.is_empty());
}
