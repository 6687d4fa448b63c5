//! Block-level schedule shapes shared by the winter strategies: slot and
//! plan actions, and the passes that tidy a day plan (holding the charge,
//! bridging short gaps between charge blocks).

use vstd::prelude::*;
use crate::locking::InverterOperationMode;
use crate::time::UtcDateTime;

verus! {

broadcast use vstd::slice::group_slice_axioms;

/// Mode assignment for a single slot of a simulated schedule.
#[derive(Debug, Clone, Copy, PartialEq, Eq, Structural)]
pub enum SlotMode {
    GridCharge,
    Hold,
    Discharge,
    FeedIn,
}

/// The inverter mode that carries out a slot mode.
pub open spec fn slot_inverter_mode(m: SlotMode) -> InverterOperationMode {
    match m {
        SlotMode::GridCharge => InverterOperationMode::ForceCharge,
        SlotMode::Hold => InverterOperationMode::SelfUse,
        SlotMode::Discharge => InverterOperationMode::SelfUse,
        SlotMode::FeedIn => InverterOperationMode::ForceDischarge,
    }
}

impl SlotMode {
    /// The inverter mode that carries out this slot mode.
    pub fn to_inverter_mode(self) -> (r: InverterOperationMode)
        ensures
            r == slot_inverter_mode(self),
    {
        match self {
            SlotMode::GridCharge => InverterOperationMode::ForceCharge,
            SlotMode::Hold => InverterOperationMode::SelfUse,
            SlotMode::Discharge => InverterOperationMode::SelfUse,
            SlotMode::FeedIn => InverterOperationMode::ForceDischarge,
        }
    }
}

/// Optimization mode selected from the day's price pattern.
#[derive(Debug, Clone, Copy, PartialEq, Eq, Structural)]
pub enum OptimizationMode {
    /// Negative prices detected - exploit them aggressively
    NegativeExploit,
    /// High volatility - forward-looking arbitrage
    VolatileArbitrage,
    /// Large day/night spread - simple arbitrage
    SimpleArbitrage,
    /// Structured pattern - percentile optimization
    PercentileOptimized,
    /// Default fallback - global ranking
    GlobalRanking,
}

impl OptimizationMode {
    /// The label of the mode in decision reasons.
    pub fn name(&self) -> (r: &'static str)
        ensures
            r@ == match *self {
                OptimizationMode::NegativeExploit => "NEGATIVE_EXPLOIT"@,
                OptimizationMode::VolatileArbitrage => "VOLATILE_ARBITRAGE"@,
                OptimizationMode::SimpleArbitrage => "SIMPLE_ARBITRAGE"@,
                OptimizationMode::PercentileOptimized => "PERCENTILE_OPTIMIZED"@,
                OptimizationMode::GlobalRanking => "GLOBAL_RANKING"@,
            },
    {
        match self {
            OptimizationMode::NegativeExploit => "NEGATIVE_EXPLOIT",
            OptimizationMode::VolatileArbitrage => "VOLATILE_ARBITRAGE",
            OptimizationMode::SimpleArbitrage => "SIMPLE_ARBITRAGE",
            OptimizationMode::PercentileOptimized => "PERCENTILE_OPTIMIZED",
            OptimizationMode::GlobalRanking => "GLOBAL_RANKING",
        }
    }
}

/// Why a block of a day plan charges.
#[derive(Debug, Clone, Copy, PartialEq, Eq, Structural)]
pub enum ChargeReason {
    /// Opportunistic charge (very cheap price)
    Opportunistic,
    /// Arbitrage charge (for later profitable discharge)
    Arbitrage,
    /// Negative price - getting paid to charge
    NegativePrice,
}

/// The planned action of one block of a day plan.
#[derive(Debug, Clone, Copy, PartialEq, Eq, Structural)]
pub enum ScheduledAction {
    /// Charge during this block
    Charge { reason: ChargeReason },
    /// Battery powers the house
    BatteryPowered,
    /// Grid powers the house (battery preserved)
    GridPowered,
    /// Export to grid
    Export,
    /// Solar excess: self-use for natural charging
    SolarExcess,
    /// Hold the battery at target after charging completes
    HoldCharge,
}

/// Whether an action draws on the battery.
pub open spec fn is_discharge(a: ScheduledAction) -> bool {
    a is BatteryPowered || a is Export
}

/// Whether block `i` lies after the last charge block of the plan and no
/// battery-powered or export block comes between that charge block and it.
pub open spec fn after_last_charge_before_discharge(s: Seq<ScheduledAction>, i: int) -> bool {
    exists|l: int|
        #![trigger s[l]]
        0 <= l < i && s[l] is Charge && (forall|j: int| l < j < s.len() ==> !(#[trigger] s[j] is Charge))
            && (forall|j: int| l < j <= i ==> !is_discharge(#[trigger] s[j]))
}

/// The plan with every grid-powered block between the last charge block and
/// the first battery-powered or export block after it turned into a hold
/// block.
pub open spec fn with_hold_charge(s: Seq<ScheduledAction>) -> Seq<ScheduledAction> {
    Seq::new(
        s.len(),
        |i: int|
            if s[i] is GridPowered && after_last_charge_before_discharge(s, i) {
                ScheduledAction::HoldCharge
            } else {
                s[i]
            },
    )
}

/// Turns the grid-powered blocks between the last charge block and the first
/// battery-powered or export block after it into hold blocks: the grid
/// powers the house while the charged battery is kept for later.
pub fn add_hold_charge_blocks(schedule: &mut [ScheduledAction])
    ensures
        final(schedule)@ == with_hold_charge(old(schedule)@),
{
    let ghost s = schedule@;
    let n = schedule.len();
    // the last charge block
    let mut k = n;
    while k > 0 && !matches!(schedule[k - 1], ScheduledAction::Charge { .. })
        invariant
            k <= n == schedule@.len(),
            schedule@ == s,
            forall|j: int| k <= j < n ==> !(#[trigger] s[j] is Charge),
        decreases k,
    {
        k = k - 1;
    }
    if k == 0 {
        proof {
            assert forall|i: int| 0 <= i < n implies !after_last_charge_before_discharge(s, i) by {
                if after_last_charge_before_discharge(s, i) {
                    let l = choose|l: int|
                        #![trigger s[l]]
                        0 <= l < i && s[l] is Charge && (forall|j: int|
                            l < j < s.len() ==> !(#[trigger] s[j] is Charge)) && (forall|j: int|
                            l < j <= i ==> !is_discharge(#[trigger] s[j]));
                    assert(s[l] is Charge);
                }
            }
            assert(schedule@ =~= with_hold_charge(s));
        }
        return;
    }
    let last = k - 1;
    let mut i = k;
    while i < n && !matches!(schedule[i], ScheduledAction::BatteryPowered | ScheduledAction::Export)
        invariant
            last < i <= n == schedule@.len(),
            last + 1 == k,
            s[last as int] is Charge,
            forall|j: int| k <= j < n ==> !(#[trigger] s[j] is Charge),
            forall|j: int| k <= j < i ==> !is_discharge(#[trigger] s[j]),
            schedule@.len() == n,
            forall|j: int| 0 <= j < k ==> schedule@[j] == s[j],
            forall|j: int| i <= j < n ==> schedule@[j] == s[j],
            forall|j: int|
                k <= j < i ==> schedule@[j] == (if s[j] is GridPowered {
                    ScheduledAction::HoldCharge
                } else {
                    s[j]
                }),
        decreases n - i,
    {
        if matches!(schedule[i], ScheduledAction::GridPowered) {
            schedule[i] = ScheduledAction::HoldCharge;
        }
        i = i + 1;
    }
    proof {
        assert forall|j: int| 0 <= j < n implies schedule@[j] == with_hold_charge(s)[j] by {
            if j < k {
                if after_last_charge_before_discharge(s, j) {
                    let l = choose|l: int|
                        #![trigger s[l]]
                        0 <= l < j && s[l] is Charge && (forall|x: int|
                            l < x < s.len() ==> !(#[trigger] s[x] is Charge)) && (forall|x: int|
                            l < x <= j ==> !is_discharge(#[trigger] s[x]));
                    assert(l < last);
                    assert(s[last as int] is Charge);
                }
            } else if j < i {
                assert(after_last_charge_before_discharge(s, j)) by {
                    assert(s[last as int] is Charge);
                }
            } else {
                if after_last_charge_before_discharge(s, j) {
                    let l = choose|l: int|
                        #![trigger s[l]]
                        0 <= l < j && s[l] is Charge && (forall|x: int|
                            l < x < s.len() ==> !(#[trigger] s[x] is Charge)) && (forall|x: int|
                            l < x <= j ==> !is_discharge(#[trigger] s[x]));
                    if l < last {
                        assert(s[last as int] is Charge);
                    } else {
                        assert(l == last);
                        assert(is_discharge(s[i as int]));
                    }
                }
            }
        }
        assert(schedule@ =~= with_hold_charge(s));
    }
}

/// Holding the charge, for a plan whose last charge block is `last`: blocks
/// up to `last` stay as they are; after it, the hold lasts until the first
/// battery-powered or export block, so every block at or after such a block
/// stays as it is; every grid-powered block before it becomes a hold block,
/// and no other block changes.
pub proof fn lemma_hold_charge_span(s: Seq<ScheduledAction>, last: int, i: int)
    requires
        0 <= last < i < s.len(),
        s[last] is Charge,
        forall|j: int| last < j < s.len() ==> !(#[trigger] s[j] is Charge),
    ensures
        (exists|j: int| last < j <= i && (#[trigger] s[j] is BatteryPowered || s[j] is Export))
            ==> with_hold_charge(s)[i] == s[i],
        (forall|j: int| last < j <= i ==> !(#[trigger] s[j] is BatteryPowered || s[j] is Export))
            ==> with_hold_charge(s)[i] == if s[i] is GridPowered {
            ScheduledAction::HoldCharge
        } else {
            s[i]
        },
{
    if exists|j: int| last < j <= i && (#[trigger] s[j] is BatteryPowered || s[j] is Export) {
        let j = choose|j: int| last < j <= i && (#[trigger] s[j] is BatteryPowered || s[j] is Export);
        if after_last_charge_before_discharge(s, i) {
            let l = choose|l: int|
                #![trigger s[l]]
                0 <= l < i && s[l] is Charge && (forall|x: int| l < x < s.len() ==> !(#[trigger] s[x] is Charge))
                    && (forall|x: int| l < x <= i ==> !is_discharge(#[trigger] s[x]));
            if l < last {
                assert(!(s[last] is Charge));
            } else if l > last {
                assert(!(s[l] is Charge));
            } else {
                assert(!is_discharge(s[j]));
            }
        }
    } else {
        assert(after_last_charge_before_discharge(s, i)) by {
            assert forall|x: int| last < x <= i implies !is_discharge(#[trigger] s[x]) by {
                if is_discharge(s[x]) {
                    assert(s[x] is BatteryPowered || s[x] is Export);
                }
            }
            assert(s[last] is Charge);
        }
    }
}

/// Holding the charge leaves every block up to and including the last charge
/// block as it is, and a plan without a charge block is left unchanged.
pub proof fn lemma_hold_charge_before_last(s: Seq<ScheduledAction>, i: int)
    requires
        0 <= i < s.len(),
        (exists|l: int| i <= l < s.len() && (#[trigger] s[l] is Charge)) || (forall|l: int|
            0 <= l < s.len() ==> !(#[trigger] s[l] is Charge)),
    ensures
        with_hold_charge(s)[i] == s[i],
{
    if after_last_charge_before_discharge(s, i) {
        let l = choose|l: int|
            #![trigger s[l]]
            0 <= l < i && s[l] is Charge && (forall|x: int| l < x < s.len() ==> !(#[trigger] s[x] is Charge))
                && (forall|x: int| l < x <= i ==> !is_discharge(#[trigger] s[x]));
        if exists|l2: int| i <= l2 < s.len() && (#[trigger] s[l2] is Charge) {
            let l2 = choose|l2: int| i <= l2 < s.len() && (#[trigger] s[l2] is Charge);
            assert(!(s[l2] is Charge));
        } else {
            assert(!(s[l] is Charge));
        }
    }
}

/// Whether block `x` lies in a gap of fewer than `min_gap` blocks between two
/// neighbouring charge blocks `a` and `b` (no charge block between them),
/// where `b` is a block of the plan (below `num_blocks`).
pub open spec fn in_short_charge_gap(charges: Seq<usize>, num_blocks: int, min_gap: int, x: int) -> bool {
    exists|a: int, b: int|
        #![trigger charges.contains(a as usize), charges.contains(b as usize)]
        0 <= a < x < b && charges.contains(a as usize) && charges.contains(b as usize) && b
            < num_blocks && b - a - 1 < min_gap && (forall|y: int|
            a < y < b ==> !(#[trigger] charges.contains(y as usize)))
}

/// Whether `v` holds `x`.
fn vec_contains(v: &Vec<usize>, x: usize) -> (r: bool)
    ensures
        r == v@.contains(x),
{
    let mut i: usize = 0;
    while i < v.len()
        invariant
            i <= v.len(),
            forall|j: int| 0 <= j < i ==> v@[j] != x,
        decreases v.len() - i,
    {
        if v[i] == x {
            return true;
        }
        i = i + 1;
    }
    false
}

/// The largest charge block below `x`, if any.
fn charge_below(charges: &Vec<usize>, x: usize) -> (r: Option<usize>)
    ensures
        match r {
            Some(a) => a < x && charges@.contains(a) && forall|y: int|
                a < y < x ==> !(#[trigger] charges@.contains(y as usize)),
            None => forall|y: int| 0 <= y < x ==> !(#[trigger] charges@.contains(y as usize)),
        },
{
    let mut best: Option<usize> = None;
    let mut i: usize = 0;
    while i < charges.len()
        invariant
            i <= charges.len(),
            match best {
                Some(a) => a < x && charges@.contains(a) && forall|j: int|
                    0 <= j < i && (#[trigger] charges@[j]) < x ==> charges@[j] <= a,
                None => forall|j: int| 0 <= j < i ==> (#[trigger] charges@[j]) >= x,
            },
        decreases charges.len() - i,
    {
        let c = charges[i];
        if c < x {
            match best {
                Some(a) => {
                    if c > a {
                        best = Some(c);
                    }
                },
                None => {
                    best = Some(c);
                },
            }
        }
        i = i + 1;
    }
    proof {
        match best {
            Some(a) => {
                assert forall|y: int| a < y < x implies !(#[trigger] charges@.contains(y as usize)) by {
                    if charges@.contains(y as usize) {
                        let j = choose|j: int| 0 <= j < charges@.len() && charges@[j] == y as usize;
                        assert(charges@[j] <= a);
                    }
                }
            },
            None => {
                assert forall|y: int| 0 <= y < x implies !(#[trigger] charges@.contains(y as usize)) by {
                    if charges@.contains(y as usize) {
                        let j = choose|j: int| 0 <= j < charges@.len() && charges@[j] == y as usize;
                        assert(charges@[j] >= x);
                    }
                }
            },
        }
    }
    best
}

/// The smallest charge block above `x`, if any.
fn charge_above(charges: &Vec<usize>, x: usize) -> (r: Option<usize>)
    ensures
        match r {
            Some(b) => b > x && charges@.contains(b) && forall|y: int|
                x < y < b ==> !(#[trigger] charges@.contains(y as usize)),
            None => forall|y: int| x < y <= usize::MAX ==> !(#[trigger] charges@.contains(y as usize)),
        },
{
    let mut best: Option<usize> = None;
    let mut i: usize = 0;
    while i < charges.len()
        invariant
            i <= charges.len(),
            match best {
                Some(b) => b > x && charges@.contains(b) && forall|j: int|
                    0 <= j < i && (#[trigger] charges@[j]) > x ==> charges@[j] >= b,
                None => forall|j: int| 0 <= j < i ==> (#[trigger] charges@[j]) <= x,
            },
        decreases charges.len() - i,
    {
        let c = charges[i];
        if c > x {
            match best {
                Some(b) => {
                    if c < b {
                        best = Some(c);
                    }
                },
                None => {
                    best = Some(c);
                },
            }
        }
        i = i + 1;
    }
    proof {
        match best {
            Some(b) => {
                assert forall|y: int| x < y < b implies !(#[trigger] charges@.contains(y as usize)) by {
                    if charges@.contains(y as usize) {
                        let j = choose|j: int| 0 <= j < charges@.len() && charges@[j] == y as usize;
                        assert(charges@[j] >= b);
                    }
                }
            },
            None => {
                assert forall|y: int| x < y <= usize::MAX implies !(#[trigger] charges@.contains(
                    y as usize,
                )) by {
                    if charges@.contains(y as usize) {
                        let j = choose|j: int| 0 <= j < charges@.len() && charges@[j] == y as usize;
                        assert(charges@[j] <= x);
                    }
                }
            },
        }
    }
    best
}

/// Bridges short gaps between charge blocks: every block of a gap of fewer
/// than `min_gap` blocks between two neighbouring charge blocks is appended
/// to the charge blocks, in increasing order. `num_blocks` is the number of
/// blocks of the plan; a gap is only bridged up to a charge block inside it.
pub fn bridge_short_charge_gaps(charge_indices: &mut Vec<usize>, num_blocks: usize, min_gap: usize)
    ensures
        final(charge_indices)@.len() >= old(charge_indices)@.len(),
        final(charge_indices)@.take(old(charge_indices)@.len() as int) == old(charge_indices)@,
        forall|i: int, j: int|
            old(charge_indices)@.len() <= i < j < final(charge_indices)@.len() ==> #[trigger] (final(charge_indices)@[i]) < #[trigger] (final(charge_indices)@[j]),
        forall|x: usize|
            (exists|i: int|
                old(charge_indices)@.len() <= i < final(charge_indices)@.len() && #[trigger] (final(charge_indices)@[i]) == x) <==> in_short_charge_gap(
                old(charge_indices)@,
                num_blocks as int,
                min_gap as int,
                x as int,
            ),
{
    let ghost old_charges = charge_indices@;
    let n0 = charge_indices.len();
    let mut additions: Vec<usize> = Vec::new();
    let mut x: usize = 0;
    while x < num_blocks
        invariant
            x <= num_blocks,
            charge_indices@ == old_charges,
            n0 == old_charges.len(),
            forall|i: int, j: int| 0 <= i < j < additions@.len() ==> #[trigger] additions@[i] < #[trigger] additions@[j],
            forall|i: int| 0 <= i < additions@.len() ==> #[trigger] additions@[i] < x,
            forall|y: usize|
                (y < x && in_short_charge_gap(old_charges, num_blocks as int, min_gap as int, y as int))
                    <==> additions@.contains(y),
        decreases num_blocks - x,
    {
        let ghost before = additions@;
        let below = charge_below(charge_indices, x);
        let above = charge_above(charge_indices, x);
        let is_charge = vec_contains(charge_indices, x);
        let mut bridge = false;
        match (below, above) {
            (Some(a), Some(b)) => {
                if !is_charge && b < num_blocks && b - a - 1 < min_gap {
                    bridge = true;
                }
            },
            _ => {},
        }
        proof {
            let g = in_short_charge_gap(old_charges, num_blocks as int, min_gap as int, x as int);
            if g {
                let (a, b) = choose|a: int, b: int|
                    #![trigger old_charges.contains(a as usize), old_charges.contains(b as usize)]
                    0 <= a < x < b && old_charges.contains(a as usize) && old_charges.contains(
                        b as usize,
                    ) && b < num_blocks && b - a - 1 < min_gap && (forall|y: int|
                        a < y < b ==> !(#[trigger] old_charges.contains(y as usize)));
                assert(old_charges.contains(a as usize));
                assert(old_charges.contains(b as usize));
                assert(below is Some);
                assert(above is Some);
                let a2 = below.unwrap();
                let b2 = above.unwrap();
                assert(a2 as int == a) by {
                    if (a2 as int) < a {
                        assert(old_charges.contains(a as usize));
                    }
                    if (a2 as int) > a {
                        assert(old_charges.contains((a2 as int) as usize));
                    }
                }
                assert(b2 as int == b) by {
                    if (b2 as int) > b {
                        assert(old_charges.contains(b as usize));
                    }
                    if (b2 as int) < b {
                        assert(old_charges.contains((b2 as int) as usize));
                    }
                }
                assert(!old_charges.contains((x as int) as usize));
                assert(!is_charge);
                assert(bridge);
            }
            if bridge {
                let a = below.unwrap();
                let b = above.unwrap();
                assert(old_charges.contains((a as int) as usize) && old_charges.contains(
                    (b as int) as usize,
                ));
                assert forall|y: int| (a as int) < y < (b as int) implies !(
                #[trigger] old_charges.contains(y as usize)) by {
                    if y == x as int {
                        assert(!old_charges.contains(x));
                    }
                }
                assert(g);
            }
        }
        if bridge {
            additions.push(x);
            proof {
                assert forall|y: usize|
                    (y < x + 1 && in_short_charge_gap(
                        old_charges,
                        num_blocks as int,
                        min_gap as int,
                        y as int,
                    )) <==> additions@.contains(y) by {
                    if y == x {
                        assert(additions@[additions@.len() - 1] == x);
                    } else if additions@.contains(y) {
                        let k = choose|k: int| 0 <= k < additions@.len() && additions@[k] == y;
                        assert(k < before.len());
                        assert(before.contains(y));
                    } else if y < x && in_short_charge_gap(
                        old_charges,
                        num_blocks as int,
                        min_gap as int,
                        y as int,
                    ) {
                        assert(before.contains(y));
                        let k = choose|k: int| 0 <= k < before.len() && before[k] == y;
                        assert(additions@[k] == y);
                    }
                }
            }
        } else {
            proof {
                assert forall|y: usize|
                    (y < x + 1 && in_short_charge_gap(
                        old_charges,
                        num_blocks as int,
                        min_gap as int,
                        y as int,
                    )) <==> additions@.contains(y) by {
                    if y == x && additions@.contains(y) {
                        let k = choose|k: int| 0 <= k < additions@.len() && additions@[k] == y;
                        assert(additions@[k] < x);
                    }
                }
            }
        }
        x = x + 1;
    }
    proof {
        assert forall|y: usize| #[trigger] in_short_charge_gap(
            old_charges,
            num_blocks as int,
            min_gap as int,
            y as int,
        ) implies y < num_blocks by {
            let (a, b) = choose|a: int, b: int|
                #![trigger old_charges.contains(a as usize), old_charges.contains(b as usize)]
                0 <= a < y < b && old_charges.contains(a as usize) && old_charges.contains(
                    b as usize,
                ) && b < num_blocks && b - a - 1 < min_gap && (forall|z: int|
                    a < z < b ==> !(#[trigger] old_charges.contains(z as usize)));
        }
    }
    let mut i: usize = 0;
    while i < additions.len()
        invariant
            i <= additions.len(),
            n0 == old_charges.len(),
            charge_indices@ == old_charges + additions@.take(i as int),
        decreases additions.len() - i,
    {
        charge_indices.push(additions[i]);
        assert(charge_indices@ =~= old_charges + additions@.take(i + 1));
        i = i + 1;
    }
    proof {
        assert(additions@.take(additions.len() as int) =~= additions@);
        assert(charge_indices@.take(n0 as int) =~= old_charges);
        assert forall|x: usize|
            (exists|i: int| n0 <= i < charge_indices@.len() && #[trigger] charge_indices@[i] == x)
                <==> in_short_charge_gap(old_charges, num_blocks as int, min_gap as int, x as int) by {
            assert((x < num_blocks && in_short_charge_gap(
                old_charges,
                num_blocks as int,
                min_gap as int,
                x as int,
            )) <==> additions@.contains(x));
            if additions@.contains(x) {
                let k = choose|k: int| 0 <= k < additions@.len() && additions@[k] == x;
                assert(charge_indices@[n0 + k] == x);
            }
            if exists|i: int| n0 <= i < charge_indices@.len() && #[trigger] charge_indices@[i] == x {
                let i = choose|i: int| n0 <= i < charge_indices@.len() && #[trigger] charge_indices@[i] == x;
                assert(additions@[i - n0] == x);
            }
        }
    }
}

/// Whether an action leaves the battery to the house or the grid (the kinds
/// of block that a short gap between charge blocks consists of).
pub open spec fn is_non_charge(a: ScheduledAction) -> bool {
    a is GridPowered || a is BatteryPowered
}

/// Whether the blocks from `gs` up to `ge` form a run of fewer than
/// `min_gap` grid- or battery-powered blocks that starts the plan or follows
/// a charge block, is followed by a charge block, and whose blocks are all
/// priced within the tolerance (`price_ok`).
pub open spec fn is_bridgeable_run(
    s: Seq<ScheduledAction>,
    price_ok: Seq<bool>,
    min_gap: int,
    gs: int,
    ge: int,
) -> bool {
    &&& 0 <= gs < ge < s.len()
    &&& ge - gs < min_gap
    &&& forall|j: int| gs <= j < ge ==> is_non_charge(#[trigger] s[j])
    &&& priced_ok_between(price_ok, gs, ge)
    &&& gs == 0 || s[gs - 1] is Charge
    &&& s[ge] is Charge
}

/// Whether block `i` lies in a bridgeable run (see `is_bridgeable_run`).
pub open spec fn in_bridgeable_gap(
    s: Seq<ScheduledAction>,
    price_ok: Seq<bool>,
    min_gap: int,
    i: int,
) -> bool {
    exists|gs: int, ge: int| gs <= i < ge && #[trigger] is_bridgeable_run(s, price_ok, min_gap, gs, ge)
}

/// Whether block `k` is priced within tolerance.
pub open spec fn priced_ok_at(price_ok: Seq<bool>, k: int) -> bool {
    0 <= k < price_ok.len() && price_ok[k]
}

/// Whether every block from `from` up to `to` is priced within tolerance.
pub open spec fn priced_ok_between(price_ok: Seq<bool>, from: int, to: int) -> bool {
    forall|k: int| from <= k < to ==> #[trigger] priced_ok_at(price_ok, k)
}

/// Whether the plan has a charge block among the priced blocks (the
/// bridging pass does nothing otherwise).
pub open spec fn has_priced_charge(s: Seq<ScheduledAction>, price_ok: Seq<bool>) -> bool {
    exists|i: int| 0 <= i < s.len() && i < price_ok.len() && (#[trigger] s[i]) is Charge
}

/// The plan after bridging short gaps: each block of a bridgeable gap
/// becomes an arbitrage charge block.
pub open spec fn with_short_gaps_bridged(
    s: Seq<ScheduledAction>,
    price_ok: Seq<bool>,
    min_gap: int,
) -> Seq<ScheduledAction> {
    if s.len() == 0 || min_gap == 0 || !has_priced_charge(s, price_ok) {
        s
    } else {
        Seq::new(
            s.len(),
            |i: int|
                if in_bridgeable_gap(s, price_ok, min_gap, i) {
                    ScheduledAction::Charge { reason: ChargeReason::Arbitrage }
                } else {
                    s[i]
                },
        )
    }
}

/// The end of the run of grid- or battery-powered blocks that starts at
/// `start`.
fn non_charge_run_end(schedule: &[ScheduledAction], start: usize) -> (e: usize)
    requires
        start <= schedule@.len(),
    ensures
        start <= e <= schedule@.len(),
        forall|j: int| start <= j < e ==> is_non_charge(#[trigger] schedule@[j]),
        e == schedule@.len() || !is_non_charge(schedule@[e as int]),
{
    let mut i = start;
    while i < schedule.len() && matches!(
        schedule[i],
        ScheduledAction::GridPowered | ScheduledAction::BatteryPowered
    )
        invariant
            start <= i <= schedule@.len(),
            forall|j: int| start <= j < i ==> is_non_charge(#[trigger] schedule@[j]),
        decreases schedule@.len() - i,
    {
        i = i + 1;
    }
    i
}

/// Whether every block from `from` up to `to` is priced within tolerance.
fn all_priced_ok(price_ok: &[bool], from: usize, to: usize) -> (r: bool)
    requires
        from <= to,
    ensures
        r == priced_ok_between(price_ok@, from as int, to as int),
{
    let mut j = from;
    while j < to
        invariant
            from <= j <= to,
            priced_ok_between(price_ok@, from as int, j as int),
        decreases to - j,
    {
        if j >= price_ok.len() {
            proof {
                assert(!priced_ok_at(price_ok@, j as int));
            }
            return false;
        }
        if !price_ok[j] {
            proof {
                assert(!priced_ok_at(price_ok@, j as int));
            }
            return false;
        }
        j = j + 1;
    }
    true
}

/// Makes the blocks from `from` up to `to` arbitrage charge blocks.
fn fill_with_charge(schedule: &mut [ScheduledAction], from: usize, to: usize)
    requires
        from <= to <= old(schedule)@.len(),
    ensures
        final(schedule)@.len() == old(schedule)@.len(),
        forall|x: int|
            0 <= x < old(schedule)@.len() ==> #[trigger] final(schedule)@[x] == if from <= x < to {
                ScheduledAction::Charge { reason: ChargeReason::Arbitrage }
            } else {
                old(schedule)@[x]
            },
{
    let mut k = from;
    while k < to
        invariant
            from <= k <= to <= schedule@.len(),
            schedule@.len() == old(schedule)@.len(),
            forall|x: int|
                0 <= x < schedule@.len() ==> #[trigger] schedule@[x] == if from <= x < k {
                    ScheduledAction::Charge { reason: ChargeReason::Arbitrage }
                } else {
                    old(schedule)@[x]
                },
        decreases to - k,
    {
        schedule[k] = ScheduledAction::Charge { reason: ChargeReason::Arbitrage };
        k = k + 1;
    }
}

/// The action a bridged plan gives block `x`.
pub open spec fn bridged_action(
    s: Seq<ScheduledAction>,
    price_ok: Seq<bool>,
    min_gap: int,
    x: int,
) -> ScheduledAction {
    if in_bridgeable_gap(s, price_ok, min_gap, x) {
        ScheduledAction::Charge { reason: ChargeReason::Arbitrage }
    } else {
        s[x]
    }
}

/// A bridgeable gap around block `x` is the maximal run that holds `x`.
proof fn lemma_gap_is_the_run(
    s: Seq<ScheduledAction>,
    price_ok: Seq<bool>,
    min_gap: int,
    gs: int,
    ge: int,
    x: int,
)
    requires
        0 <= gs <= x < ge <= s.len(),
        forall|j: int| gs <= j < ge ==> is_non_charge(#[trigger] s[j]),
        gs == 0 || !is_non_charge(s[gs - 1]),
        ge == s.len() || !is_non_charge(s[ge]),
        in_bridgeable_gap(s, price_ok, min_gap, x),
    ensures
        is_bridgeable_run(s, price_ok, min_gap, gs, ge),
{
    let (a, b) = choose|a: int, b: int|
        a <= x < b && #[trigger] is_bridgeable_run(s, price_ok, min_gap, a, b);
    if a < gs {
        assert(is_non_charge(s[gs - 1]));
    }
    if a > gs {
        assert(is_non_charge(s[a - 1]));
    }
    if b < ge {
        assert(is_non_charge(s[b]));
    }
    if b > ge {
        assert(is_non_charge(s[ge]));
    }
    assert(a == gs && b == ge);
}

/// A run that meets the bridging conditions is a bridgeable gap for each of
/// its blocks.
proof fn lemma_run_is_gap(
    s: Seq<ScheduledAction>,
    price_ok: Seq<bool>,
    min_gap: int,
    gs: int,
    ge: int,
    x: int,
)
    requires
        0 <= gs <= x < ge < s.len(),
        forall|j: int| gs <= j < ge ==> is_non_charge(#[trigger] s[j]),
        is_bridgeable_run(s, price_ok, min_gap, gs, ge),
    ensures
        in_bridgeable_gap(s, price_ok, min_gap, x),
{
}

/// Removes short grid- or battery-powered gaps between charge blocks (see
/// `with_short_gaps_bridged`). `price_ok[j]` tells whether block `j` is a
/// priced block whose price is within the tolerance of the average charge
/// price; its length is the number of priced blocks.
pub fn remove_short_gaps_in_schedule(schedule: &mut [ScheduledAction], price_ok: &[bool], min_gap: usize)
    ensures
        final(schedule)@ == with_short_gaps_bridged(old(schedule)@, price_ok@, min_gap as int),
{
    let ghost s = schedule@;
    let n = schedule.len();
    if n == 0 || min_gap == 0 {
        return;
    }
    let mut any_charge = false;
    let mut c: usize = 0;
    while c < n && c < price_ok.len()
        invariant
            c <= n == s.len(),
            c <= price_ok@.len(),
            schedule@ == s,
            any_charge == (exists|i: int| 0 <= i < c && (#[trigger] s[i]) is Charge),
        decreases n - c,
    {
        if matches!(schedule[c], ScheduledAction::Charge { .. }) {
            any_charge = true;
        }
        c = c + 1;
    }
    if !any_charge {
        proof {
            if has_priced_charge(s, price_ok@) {
                let i = choose|i: int| 0 <= i < s.len() && i < price_ok@.len() && (#[trigger] s[i]) is Charge;
                assert(i < c);
            }
        }
        return;
    }
    proof {
        let w = choose|w: int| 0 <= w < c && (#[trigger] s[w]) is Charge;
        assert(w < price_ok@.len());
        assert(has_priced_charge(s, price_ok@));
    }
    let mut i: usize = 0;
    while i < n
        invariant
            i <= n == s.len() == schedule@.len(),
            forall|j: int| 0 <= j < i ==> schedule@[j] == bridged_action(s, price_ok@, min_gap as int, j),
            forall|j: int| i <= j < n ==> schedule@[j] == s[j],
            i == 0 || i == n || !is_non_charge(s[i - 1]) || !is_non_charge(s[i as int]),
        decreases n - i,
    {
        if matches!(schedule[i], ScheduledAction::GridPowered | ScheduledAction::BatteryPowered) {
            let gap_start = i;
            let gap_end = non_charge_run_end(schedule, gap_start);
            let ghost sched_before = schedule@;
            let bridge = gap_end - gap_start < min_gap && (gap_start == 0 || matches!(
                schedule[gap_start - 1],
                ScheduledAction::Charge { .. }
            )) && gap_end < n && matches!(schedule[gap_end], ScheduledAction::Charge { .. })
                && all_priced_ok(price_ok, gap_start, gap_end);
            if bridge {
                fill_with_charge(schedule, gap_start, gap_end);
            }
            proof {
                assert forall|x: int| gap_start <= x < gap_end implies schedule@[x] == bridged_action(
                    s,
                    price_ok@,
                    min_gap as int,
                    x,
                ) by {
                    if bridge {
                        lemma_run_is_gap(
                            s,
                            price_ok@,
                            min_gap as int,
                            gap_start as int,
                            gap_end as int,
                            x,
                        );
                    } else if in_bridgeable_gap(s, price_ok@, min_gap as int, x) {
                        lemma_gap_is_the_run(
                            s,
                            price_ok@,
                            min_gap as int,
                            gap_start as int,
                            gap_end as int,
                            x,
                        );
                    }
                }
            }
            i = gap_end;
        } else {
            proof {
                if in_bridgeable_gap(s, price_ok@, min_gap as int, i as int) {
                    let (gs, ge) = choose|gs: int, ge: int|
                        gs <= i < ge && #[trigger] is_bridgeable_run(s, price_ok@, min_gap as int, gs, ge);
                    assert(is_non_charge(s[i as int]));
                }
            }
            i = i + 1;
        }
    }
    let ghost res = with_short_gaps_bridged(s, price_ok@, min_gap as int);
    assert forall|j: int| 0 <= j < n implies schedule@[j] == res[j] by {
        assert(res[j] == bridged_action(s, price_ok@, min_gap as int, j));
    }
    assert(schedule@ =~= res);
}


/// Whether block `x` is a charge block or one added so far.
pub open spec fn charged_or_added(charges: Seq<usize>, added: Seq<usize>, x: int) -> bool {
    x >= 0 && (charges.contains(x as usize) || added.contains(x as usize))
}

/// Whether charge block `idx` has a charge block (or an added one) right
/// before or right after it, among `num_blocks` blocks.
pub open spec fn has_charged_neighbour(
    charges: Seq<usize>,
    added: Seq<usize>,
    num_blocks: int,
    idx: int,
) -> bool {
    (idx > 0 && charged_or_added(charges, added, idx - 1)) || (idx + 1 < num_blocks && charged_or_added(
        charges,
        added,
        idx + 1,
    ))
}

/// The neighbour that an isolated charge block `idx` is paired with: the
/// cheaper of the blocks right before and right after it (the one before on
/// a tie), or the only one of them there is. `ranks` orders the blocks by
/// price as the prices do.
pub open spec fn pairing_neighbour(idx: int, ranks: Seq<u64>) -> Option<int> {
    let has_prev = idx > 0;
    let has_next = idx + 1 < ranks.len();
    if has_prev && has_next {
        if ranks[idx - 1] <= ranks[idx + 1] {
            Some(idx - 1)
        } else {
            Some(idx + 1)
        }
    } else if has_prev {
        Some(idx - 1)
    } else if has_next {
        Some(idx + 1)
    } else {
        None
    }
}

/// The blocks added after looking at the first `k` charge blocks in order:
/// each charge block with no charge or added block next to it gets its
/// pairing neighbour added.
pub open spec fn pairing_additions(charges: Seq<usize>, ranks: Seq<u64>, k: int) -> Seq<usize>
    decreases k,
{
    if k <= 0 {
        Seq::empty()
    } else {
        let a = pairing_additions(charges, ranks, k - 1);
        let idx = charges[k - 1] as int;
        if has_charged_neighbour(charges, a, ranks.len() as int, idx) {
            a
        } else {
            match pairing_neighbour(idx, ranks) {
                Some(b) => a.push(b as usize),
                None => a,
            }
        }
    }
}

/// Whether `v` or `w` holds `x`.
fn either_contains(v: &Vec<usize>, w: &Vec<usize>, x: usize) -> (r: bool)
    ensures
        r == (v@.contains(x) || w@.contains(x)),
{
    vec_contains(v, x) || vec_contains(w, x)
}

/// Pairs up isolated charge blocks: in order, each charge block with no
/// charge block (or block added so far) right before or after it gets the
/// cheaper of its two neighbours added (see `pairing_additions`); the added
/// blocks are appended to the charge blocks. `price_ranks[i]` orders the
/// `price_ranks.len()` blocks by price as their prices do: a block's rank
/// is at most another's exactly when its price is. Afterwards every charge
/// block has a charge block next to it, when there are two blocks or more.
pub fn ensure_consecutive_charge_groups(charge_indices: &mut Vec<usize>, price_ranks: &[u64])
    requires
        forall|i: int| 0 <= i < old(charge_indices)@.len() ==> #[trigger] old(charge_indices)@[i] <= price_ranks@.len(),
    ensures
        final(charge_indices)@ == old(charge_indices)@ + pairing_additions(
            old(charge_indices)@,
            price_ranks@,
            old(charge_indices)@.len() as int,
        ),
        price_ranks@.len() >= 2 ==> forall|i: int|
            0 <= i < old(charge_indices)@.len() ==> has_charged_neighbour(
                final(charge_indices)@,
                Seq::empty(),
                price_ranks@.len() as int,
                #[trigger] old(charge_indices)@[i] as int,
            ),
{
    let ghost charges = charge_indices@;
    let ghost ranks = price_ranks@;
    let total = price_ranks.len();
    let n0 = charge_indices.len();
    let mut additions: Vec<usize> = Vec::new();
    let mut k: usize = 0;
    while k < n0
        invariant
            k <= n0,
            n0 == charges.len(),
            charge_indices@ == charges,
            ranks == price_ranks@,
            total == ranks.len(),
            forall|i: int| 0 <= i < charges.len() ==> #[trigger] charges[i] <= ranks.len(),
            additions@ == pairing_additions(charges, ranks, k as int),
            ranks.len() >= 2 ==> forall|i: int|
                0 <= i < k ==> has_charged_neighbour(
                    charges,
                    additions@,
                    ranks.len() as int,
                    #[trigger] charges[i] as int,
                ),
        decreases n0 - k,
    {
        let idx = charge_indices[k];
        assert(idx == charges[k as int]);
        let prev_taken = idx > 0 && either_contains(charge_indices, &additions, idx - 1);
        let next_taken = total > 0 && idx < total - 1 && either_contains(charge_indices, &additions, idx + 1);
        let ghost before = additions@;
        if !(prev_taken || next_taken) {
            let has_prev = idx > 0;
            let has_next = total > 0 && idx < total - 1;
            let best: Option<usize> = if has_prev && has_next {
                if price_ranks[idx - 1] <= price_ranks[idx + 1] {
                    Some(idx - 1)
                } else {
                    Some(idx + 1)
                }
            } else if has_prev {
                Some(idx - 1)
            } else if has_next {
                Some(idx + 1)
            } else {
                None
            };
            match best {
                Some(b) => {
                    if !either_contains(charge_indices, &additions, b) {
                        additions.push(b);
                    }
                },
                None => {},
            }
        }
        proof {
            let kk = k as int;
            assert(pairing_additions(charges, ranks, kk + 1) == if has_charged_neighbour(
                charges,
                before,
                ranks.len() as int,
                idx as int,
            ) {
                before
            } else {
                match pairing_neighbour(idx as int, ranks) {
                    Some(b) => before.push(b as usize),
                    None => before,
                }
            });
            assert forall|x: int| charged_or_added(charges, before, x) implies charged_or_added(
                charges,
                additions@,
                x,
            ) by {
                if before.contains(x as usize) {
                    let j = choose|j: int| 0 <= j < before.len() && before[j] == x as usize;
                    assert(additions@[j] == before[j]);
                }
            }
            if ranks.len() >= 2 {
                assert forall|i: int| 0 <= i < kk + 1 implies has_charged_neighbour(
                    charges,
                    additions@,
                    ranks.len() as int,
                    #[trigger] charges[i] as int,
                ) by {
                    if i == kk {
                        if !has_charged_neighbour(charges, before, ranks.len() as int, idx as int) {
                            assert(additions@.last() == additions@[additions@.len() - 1]);
                            assert(additions@.contains(additions@.last()));
                        }
                    } else {
                        assert(has_charged_neighbour(charges, before, ranks.len() as int, charges[i] as int));
                    }
                }
            }
        }
        k = k + 1;
    }
    let ghost final_adds = additions@;
    let mut j: usize = 0;
    while j < additions.len()
        invariant
            j <= additions.len(),
            additions@ == final_adds,
            charge_indices@ == charges + final_adds.take(j as int),
        decreases additions.len() - j,
    {
        charge_indices.push(additions[j]);
        assert(final_adds.take(j + 1) =~= final_adds.take(j as int).push(final_adds[j as int]));
        j = j + 1;
    }
    proof {
        assert(final_adds.take(final_adds.len() as int) =~= final_adds);
        let f = charge_indices@;
        if ranks.len() >= 2 {
            assert forall|i: int| 0 <= i < charges.len() implies has_charged_neighbour(
                f,
                Seq::empty(),
                ranks.len() as int,
                #[trigger] charges[i] as int,
            ) by {
                let idx = charges[i] as int;
                assert(has_charged_neighbour(charges, final_adds, ranks.len() as int, idx));
                assert forall|x: int| charged_or_added(charges, final_adds, x) implies charged_or_added(
                    f,
                    Seq::empty(),
                    x,
                ) by {
                    if charges.contains(x as usize) {
                        let p = choose|p: int| 0 <= p < charges.len() && charges[p] == x as usize;
                        assert(f[p] == charges[p]);
                    } else {
                        let p = choose|p: int| 0 <= p < final_adds.len() && final_adds[p] == x as usize;
                        assert(f[charges.len() + p] == final_adds[p]);
                    }
                }
            }
        }
    }
}

/// Whether a block starting at `block_time` lies in the morning peak: the
/// hours from `start_hour` up to (not including) `end_hour`.
pub fn is_morning_peak(block_time: UtcDateTime, start_hour: u8, end_hour: u8) -> (r: bool)
    requires
        block_time.time.wf(),
    ensures
        r == (start_hour <= block_time.time.secs / 3600 && block_time.time.secs / 3600 < end_hour),
{
    let hour = block_time.time.hour() as u8;
    hour >= start_hour && hour < end_hour
}

/// Whether a block starting at `block_time` lies overnight: before the hour
/// `morning_peak_start_hour` at which the morning peak begins.
pub fn is_overnight(block_time: UtcDateTime, morning_peak_start_hour: u8) -> (r: bool)
    requires
        block_time.time.wf(),
    ensures
        r == (block_time.time.secs / 3600 < morning_peak_start_hour),
{
    let hour = block_time.time.hour() as u8;
    hour < morning_peak_start_hour
}
/// Turns the grid-powered blocks among `charge_indices` into arbitrage
/// charge blocks; other blocks keep their action.
pub fn mark_charge_blocks(schedule: &mut [ScheduledAction], charge_indices: &[usize])
    requires
        forall|i: int| 0 <= i < charge_indices@.len() ==> #[trigger] charge_indices@[i] < old(schedule)@.len(),
    ensures
        final(schedule)@ == Seq::new(
            old(schedule)@.len(),
            |j: int|
                if old(schedule)@[j] is GridPowered && charge_indices@.contains(j as usize) {
                    ScheduledAction::Charge { reason: ChargeReason::Arbitrage }
                } else {
                    old(schedule)@[j]
                },
        ),
{
    let ghost s = schedule@;
    let mut k: usize = 0;
    while k < charge_indices.len()
        invariant
            k <= charge_indices@.len(),
            schedule@.len() == s.len(),
            forall|i: int| 0 <= i < charge_indices@.len() ==> #[trigger] charge_indices@[i] < s.len(),
            forall|j: int|
                0 <= j < s.len() ==> #[trigger] schedule@[j] == if s[j] is GridPowered && charge_indices@.take(
                    k as int,
                ).contains(j as usize) {
                    ScheduledAction::Charge { reason: ChargeReason::Arbitrage }
                } else {
                    s[j]
                },
        decreases charge_indices.len() - k,
    {
        let idx = charge_indices[k];
        if matches!(schedule[idx], ScheduledAction::GridPowered) {
            schedule[idx] = ScheduledAction::Charge { reason: ChargeReason::Arbitrage };
        }
        proof {
            let t1 = charge_indices@.take(k + 1);
            let t0 = charge_indices@.take(k as int);
            assert forall|x: usize| t1.contains(x) <==> (t0.contains(x) || x == idx) by {
                if t1.contains(x) {
                    let y = choose|y: int| 0 <= y < t1.len() && t1[y] == x;
                    if y < k {
                        assert(t0[y] == x);
                    }
                }
                if t0.contains(x) {
                    let y = choose|y: int| 0 <= y < t0.len() && t0[y] == x;
                    assert(t1[y] == x);
                }
                if x == idx {
                    assert(t1[k as int] == x);
                }
            }
        }
        k = k + 1;
    }
    assert(charge_indices@.take(charge_indices@.len() as int) =~= charge_indices@);
    assert(schedule@ =~= Seq::new(
        s.len(),
        |j: int|
            if s[j] is GridPowered && charge_indices@.contains(j as usize) {
                ScheduledAction::Charge { reason: ChargeReason::Arbitrage }
            } else {
                s[j]
            },
    ));
}

} // verus!
