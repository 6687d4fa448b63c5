use fluxion::locking::InverterOperationMode;
use fluxion::plan::{
    add_hold_charge_blocks, bridge_short_charge_gaps, ensure_consecutive_charge_groups, is_morning_peak,
    is_overnight, remove_short_gaps_in_schedule, ChargeReason, OptimizationMode, ScheduledAction, SlotMode,
};
use fluxion::time::UtcDateTime;

fn hour_of_day(h: u32) -> UtcDateTime {
    UtcDateTime::from_ymd_hms_opt(2026, 1, 20, h, 0, 0).unwrap()
}

#[test]
fn test_morning_peak_detection() {
    // morning peak 6..9
    assert!(!is_morning_peak(hour_of_day(5), 6, 9), "5 AM should not be morning peak");
    assert!(is_morning_peak(hour_of_day(6), 6, 9), "6 AM should be morning peak");
    assert!(is_morning_peak(hour_of_day(8), 6, 9), "8 AM should be morning peak");
    assert!(!is_morning_peak(hour_of_day(9), 6, 9), "9 AM should not be morning peak");
}

#[test]
fn test_overnight_detection() {
    assert!(is_overnight(hour_of_day(0), 6), "0 AM should be overnight");
    assert!(is_overnight(hour_of_day(3), 6), "3 AM should be overnight");
    assert!(is_overnight(hour_of_day(5), 6), "5 AM should be overnight");
    assert!(!is_overnight(hour_of_day(6), 6), "6 AM should not be overnight");
}

#[test]
fn slot_modes_map_to_inverter_modes() {
    assert_eq!(SlotMode::GridCharge.to_inverter_mode(), InverterOperationMode::ForceCharge);
    assert_eq!(SlotMode::Hold.to_inverter_mode(), InverterOperationMode::SelfUse);
    assert_eq!(SlotMode::Discharge.to_inverter_mode(), InverterOperationMode::SelfUse);
    assert_eq!(SlotMode::FeedIn.to_inverter_mode(), InverterOperationMode::ForceDischarge);
}

#[test]
fn optimization_mode_names() {
    assert_eq!(OptimizationMode::NegativeExploit.name(), "NEGATIVE_EXPLOIT");
    assert_eq!(OptimizationMode::VolatileArbitrage.name(), "VOLATILE_ARBITRAGE");
    assert_eq!(OptimizationMode::SimpleArbitrage.name(), "SIMPLE_ARBITRAGE");
    assert_eq!(OptimizationMode::PercentileOptimized.name(), "PERCENTILE_OPTIMIZED");
    assert_eq!(OptimizationMode::GlobalRanking.name(), "GLOBAL_RANKING");
}

const CHARGE: ScheduledAction = ScheduledAction::Charge { reason: ChargeReason::Arbitrage };
const CHEAP: ScheduledAction = ScheduledAction::Charge { reason: ChargeReason::Opportunistic };
const GRID: ScheduledAction = ScheduledAction::GridPowered;
const BATTERY: ScheduledAction = ScheduledAction::BatteryPowered;
const HOLD: ScheduledAction = ScheduledAction::HoldCharge;

#[test]
fn hold_blocks_follow_the_last_charge() {
    let mut s = [GRID, CHEAP, GRID, GRID, BATTERY, GRID];
    add_hold_charge_blocks(&mut s);
    assert_eq!(s, [GRID, CHEAP, HOLD, HOLD, BATTERY, GRID]);

    let mut no_discharge = [CHARGE, GRID, ScheduledAction::SolarExcess, GRID];
    add_hold_charge_blocks(&mut no_discharge);
    assert_eq!(no_discharge, [CHARGE, HOLD, ScheduledAction::SolarExcess, HOLD]);

    let mut no_charge = [GRID, BATTERY, GRID];
    add_hold_charge_blocks(&mut no_charge);
    assert_eq!(no_charge, [GRID, BATTERY, GRID]);
}

#[test]
fn short_charge_gaps_are_bridged() {
    let mut charges = vec![5, 2, 9];
    bridge_short_charge_gaps(&mut charges, 10, 3);
    assert_eq!(charges, vec![5, 2, 9, 3, 4]);

    let mut charges = vec![5, 2, 9];
    bridge_short_charge_gaps(&mut charges, 10, 4);
    assert_eq!(charges, vec![5, 2, 9, 3, 4, 6, 7, 8]);

    let mut charges = vec![1, 8];
    bridge_short_charge_gaps(&mut charges, 10, 3);
    assert_eq!(charges, vec![1, 8]);

    // The charge block after the gap must be a block of the plan.
    let mut charges = vec![1, 3];
    bridge_short_charge_gaps(&mut charges, 3, 5);
    assert_eq!(charges, vec![1, 3]);
}

#[test]
fn isolated_charges_are_paired_with_the_cheaper_neighbour() {
    let ranks: Vec<u64> = (0..10).collect();
    let mut charges = vec![0, 5, 9];
    ensure_consecutive_charge_groups(&mut charges, &ranks);
    assert_eq!(charges, vec![0, 5, 9, 1, 4, 8]);

    let mut ranks2 = ranks.clone();
    ranks2[4] = 7;
    ranks2[6] = 3;
    let mut charges = vec![5];
    ensure_consecutive_charge_groups(&mut charges, &ranks2);
    assert_eq!(charges, vec![5, 6]);

    // A block added for one charge block can serve the next one.
    let mut ranks3 = vec![5u64; 10];
    ranks3[4] = 0;
    let mut charges = vec![3, 5];
    ensure_consecutive_charge_groups(&mut charges, &ranks3);
    assert_eq!(charges, vec![3, 5, 4]);

    // Ties go to the earlier neighbour.
    let flat = vec![1u64; 10];
    let mut charges = vec![3, 5];
    ensure_consecutive_charge_groups(&mut charges, &flat);
    assert_eq!(charges, vec![3, 5, 2, 4]);

    // A single block has no neighbour.
    let mut charges = vec![0];
    ensure_consecutive_charge_groups(&mut charges, &[7]);
    assert_eq!(charges, vec![0]);
}

#[test]
fn short_gaps_in_a_schedule_are_filled_when_priced_well() {
    let mut s = [CHEAP, GRID, CHARGE, BATTERY, BATTERY, BATTERY, CHARGE];
    remove_short_gaps_in_schedule(&mut s, &[true; 7], 2);
    assert_eq!(s, [CHEAP, CHARGE, CHARGE, BATTERY, BATTERY, BATTERY, CHARGE]);

    // A leading gap is bridged too.
    let mut s = [GRID, CHARGE];
    remove_short_gaps_in_schedule(&mut s, &[true, true], 2);
    assert_eq!(s, [CHARGE, CHARGE]);

    // A block priced above the tolerance keeps the gap.
    let mut s = [CHARGE, GRID, CHARGE];
    remove_short_gaps_in_schedule(&mut s, &[true, false, true], 2);
    assert_eq!(s, [CHARGE, GRID, CHARGE]);

    // A gap that is not followed by a charge block stays.
    let mut s = [CHARGE, GRID, ScheduledAction::Export];
    remove_short_gaps_in_schedule(&mut s, &[true; 3], 5);
    assert_eq!(s, [CHARGE, GRID, ScheduledAction::Export]);

    // Without any priced charge block nothing changes.
    let mut s = [GRID, CHARGE];
    remove_short_gaps_in_schedule(&mut s, &[true], 2);
    assert_eq!(s, [GRID, CHARGE]);
}

use fluxion::plan::mark_charge_blocks;

#[test]
fn charge_indices_mark_only_grid_powered_blocks() {
    let mut s = [GRID, BATTERY, GRID, HOLD, CHEAP];
    mark_charge_blocks(&mut s, &[0, 1, 4, 0]);
    assert_eq!(s, [CHARGE, BATTERY, GRID, HOLD, CHEAP]);
}
