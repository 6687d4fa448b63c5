use fluxion::locking::{lock_upcoming_blocks, InverterOperationMode, LockedBlock, ScheduleLockState};
use fluxion::time::UtcDateTime;

fn at(h: u32, m: u32, s: u32) -> UtcDateTime {
    UtcDateTime::from_ymd_hms_opt(2026, 1, 20, h, m, s).unwrap()
}

fn block(start: UtcDateTime, mode: InverterOperationMode, reason: &str) -> LockedBlock {
    LockedBlock { block_start: start, mode, reason: reason.to_string() }
}

#[test]
fn locked_mode_lookup() {
    let state = ScheduleLockState {
        locked_blocks: vec![
            block(at(10, 0, 0), InverterOperationMode::ForceCharge, "cheap"),
            block(at(10, 15, 0), InverterOperationMode::SelfUse, "hold"),
        ],
    };
    assert_eq!(
        state.get_locked_mode(at(10, 15, 0)),
        Some((InverterOperationMode::SelfUse, "LOCKED: hold".to_string()))
    );
    assert_eq!(state.get_locked_mode(at(10, 30, 0)), None);
}

#[test]
fn locking_drops_past_locks_and_keeps_existing_ones() {
    let mut state = ScheduleLockState::default();
    state.locked_blocks.push(block(at(9, 0, 0), InverterOperationMode::ForceCharge, "old"));
    state.locked_blocks.push(block(at(11, 0, 0), InverterOperationMode::ForceCharge, "kept"));
    state.lock_blocks_at(
        vec![
            block(at(11, 0, 0), InverterOperationMode::SelfUse, "ignored"),
            block(at(11, 15, 0), InverterOperationMode::SelfUse, "new"),
            block(at(11, 15, 0), InverterOperationMode::ForceCharge, "duplicate"),
        ],
        at(10, 0, 0),
    );
    assert_eq!(state.locked_blocks.len(), 2);
    assert_eq!(state.get_locked_mode(at(9, 0, 0)), None);
    assert_eq!(
        state.get_locked_mode(at(11, 0, 0)),
        Some((InverterOperationMode::ForceCharge, "LOCKED: kept".to_string()))
    );
    assert_eq!(
        state.get_locked_mode(at(11, 15, 0)),
        Some((InverterOperationMode::SelfUse, "LOCKED: new".to_string()))
    );
}

#[test]
fn lock_blocks_uses_the_clock() {
    let mut state = ScheduleLockState::default();
    // A block far in the future is never dropped as past.
    let future = UtcDateTime::from_ymd_hms_opt(9999, 1, 1, 0, 0, 0).unwrap();
    state.lock_blocks(vec![block(future, InverterOperationMode::BackUpMode, "later")]);
    assert_eq!(state.locked_blocks.len(), 1);
    // A block in the past is dropped on the next locking.
    let past = UtcDateTime::from_ymd_hms_opt(2000, 1, 1, 0, 0, 0).unwrap();
    state.locked_blocks.push(block(past, InverterOperationMode::SelfUse, "past"));
    state.lock_blocks(Vec::new());
    assert_eq!(state.locked_blocks.len(), 1);
    assert_eq!(state.locked_blocks[0].block_start, future);
}

#[test]
fn upcoming_blocks_are_locked_only_for_the_running_block() {
    let starts = [at(10, 0, 0), at(10, 15, 0), at(10, 30, 0), at(10, 45, 0)];
    let labels: Vec<String> = ["1.000 CZK", "2.000 CZK", "3.000 CZK", "4.000 CZK"]
        .iter()
        .map(|s| s.to_string())
        .collect();

    // Evaluating a later block (a preview): nothing is locked.
    let mut state = ScheduleLockState::default();
    assert!(!lock_upcoming_blocks(&mut state, &starts, &labels, 1, &[1, 2], true, 2, at(10, 5, 0)));
    assert!(state.locked_blocks.is_empty());

    // The running block: it and the next one are locked.
    let mut state = ScheduleLockState::default();
    let starts_now = [
        UtcDateTime::from_ymd_hms_opt(9999, 1, 1, 10, 0, 0).unwrap(),
        UtcDateTime::from_ymd_hms_opt(9999, 1, 1, 10, 15, 0).unwrap(),
        UtcDateTime::from_ymd_hms_opt(9999, 1, 1, 10, 30, 0).unwrap(),
    ];
    let now = UtcDateTime::from_ymd_hms_opt(9999, 1, 1, 10, 14, 59).unwrap();
    assert!(lock_upcoming_blocks(&mut state, &starts_now, &labels[..3], 0, &[1], true, 2, now));
    assert_eq!(state.locked_blocks.len(), 2);
    assert_eq!(state.locked_blocks[0].mode, InverterOperationMode::SelfUse);
    assert_eq!(state.locked_blocks[0].reason, "Hold: 1.000 CZK");
    assert_eq!(state.locked_blocks[1].mode, InverterOperationMode::ForceCharge);
    assert_eq!(state.locked_blocks[1].reason, "Scheduled charge: 2.000 CZK");

    // Charging not allowed: a scheduled charge block is locked as self-use.
    let mut state = ScheduleLockState::default();
    assert!(lock_upcoming_blocks(&mut state, &starts_now, &labels[..3], 1, &[1], false, 5, starts_now[1]));
    assert_eq!(state.locked_blocks.len(), 2);
    assert_eq!(state.locked_blocks[0].mode, InverterOperationMode::SelfUse);
    assert_eq!(state.locked_blocks[0].reason, "Scheduled charge: 2.000 CZK");

    // Exactly fifteen minutes after the start the block is no longer running.
    let mut state = ScheduleLockState::default();
    let late = UtcDateTime::from_ymd_hms_opt(9999, 1, 1, 10, 15, 0).unwrap();
    assert!(!lock_upcoming_blocks(&mut state, &starts_now, &labels[..3], 0, &[], true, 2, late));
}

use fluxion::locking::scheduled_block_decision;

#[test]
fn current_block_decision() {
    let (mode, reason, uid) = scheduled_block_decision(&[3, 4], 4, true, "1.234 CZK/kWh");
    assert_eq!(mode, InverterOperationMode::ForceCharge);
    assert_eq!(reason, "Scheduled charge: 1.234 CZK/kWh");
    assert_eq!(uid, "winter_adaptive_v2:scheduled_charge");

    let (mode, reason, uid) = scheduled_block_decision(&[3, 4], 4, false, "1.234 CZK/kWh");
    assert_eq!(mode, InverterOperationMode::SelfUse);
    assert_eq!(reason, "Battery full, skipping charge: 1.234 CZK/kWh");
    assert_eq!(uid, "winter_adaptive_v2:battery_full");

    let (mode, reason, uid) = scheduled_block_decision(&[3, 4], 5, true, "0.500 CZK/kWh");
    assert_eq!(mode, InverterOperationMode::SelfUse);
    assert_eq!(reason, "Hold: 0.500 CZK/kWh");
    assert_eq!(uid, "winter_adaptive_v2:hold");
}
