use fluxion::opportunity::{generate_schedule, remove_overlapping_opportunities, OpportunityBlocks, ScheduledAction};

fn opp(charge: &[usize], discharge: &[usize]) -> OpportunityBlocks {
    OpportunityBlocks { charge_blocks: charge.to_vec(), discharge_blocks: discharge.to_vec() }
}

#[test]
fn overlapping_opportunities_are_dropped_in_order() {
    let opps = vec![opp(&[0, 1], &[5, 6]), opp(&[1, 2], &[7]), opp(&[2, 3], &[8, 9]), opp(&[4], &[9])];
    assert_eq!(remove_overlapping_opportunities(&opps), vec![0, 2]);
    assert_eq!(remove_overlapping_opportunities(&[]), Vec::<usize>::new());
}

#[test]
fn schedule_from_opportunities() {
    let opps = vec![opp(&[0, 1], &[3, 4]), opp(&[4, 5], &[7, 20])];
    let s = generate_schedule(8, &opps);
    assert_eq!(
        s,
        vec![
            ScheduledAction::Charge { opportunity_id: 0 },
            ScheduledAction::Charge { opportunity_id: 0 },
            ScheduledAction::NoAction,
            ScheduledAction::Discharge { opportunity_id: 0 },
            ScheduledAction::Charge { opportunity_id: 1 },
            ScheduledAction::Charge { opportunity_id: 1 },
            ScheduledAction::NoAction,
            ScheduledAction::Discharge { opportunity_id: 1 },
        ]
    );
    // Within one opportunity, discharging wins over charging.
    let s = generate_schedule(2, &[opp(&[0, 1], &[1])]);
    assert_eq!(s, vec![ScheduledAction::Charge { opportunity_id: 0 }, ScheduledAction::Discharge { opportunity_id: 0 }]);
}
