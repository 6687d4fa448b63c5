//! Inverter operating modes and the locking of decided schedule blocks, so
//! that the modes of the next few blocks are not recomputed while they run.

use vstd::prelude::*;
use vstd::string::StringExecFns;
use crate::time::{UtcDateTime, utc_le, whole_seconds_between};

verus! {

broadcast use vstd::string::group_string_axioms;

/// Operating mode of the inverter.
#[derive(Debug, Clone, Copy, PartialEq, Eq, Structural)]
pub enum InverterOperationMode {
    /// Battery covers the house load; surplus solar charges it
    SelfUse,
    /// Battery charges from the grid
    ForceCharge,
    /// Battery discharges into the grid
    ForceDischarge,
    /// Battery is held as backup
    BackUpMode,
    /// Battery neither charges nor discharges; the grid powers the house
    NoChargeNoDischarge,
}

/// A block whose mode has been decided and is not to be recomputed.
#[derive(Debug, Clone)]
pub struct LockedBlock {
    /// Start time of this block
    pub block_start: UtcDateTime,
    /// The locked mode for this block
    pub mode: InverterOperationMode,
    /// Reason for this mode (for logging)
    pub reason: String,
}

impl View for LockedBlock {
    type V = (UtcDateTime, InverterOperationMode, Seq<char>);

    open spec fn view(&self) -> (UtcDateTime, InverterOperationMode, Seq<char>) {
        (self.block_start, self.mode, self.reason@)
    }
}

impl LockedBlock {
    /// A copy of the block.
    pub fn duplicate(&self) -> (r: LockedBlock)
        ensures
            r@ == self@,
    {
        LockedBlock { block_start: self.block_start, mode: self.mode, reason: self.reason.clone() }
    }
}

/// The contents of a sequence of locked blocks.
pub open spec fn locked_view(s: Seq<LockedBlock>) -> Seq<(UtcDateTime, InverterOperationMode, Seq<char>)> {
    s.map_values(|b: LockedBlock| b@)
}

/// The first lock of a block start, if there is one.
pub open spec fn first_lock(
    locks: Seq<(UtcDateTime, InverterOperationMode, Seq<char>)>,
    start: UtcDateTime,
) -> Option<(InverterOperationMode, Seq<char>)>
    decreases locks.len(),
{
    if locks.len() == 0 {
        None
    } else if locks[0].0 == start {
        Some((locks[0].1, locks[0].2))
    } else {
        first_lock(locks.drop_first(), start)
    }
}

/// Whether some lock holds the block start.
pub open spec fn has_lock(
    locks: Seq<(UtcDateTime, InverterOperationMode, Seq<char>)>,
    start: UtcDateTime,
) -> bool {
    exists|i: int| 0 <= i < locks.len() && (#[trigger] locks[i]).0 == start
}

/// The locks that do not lie before `now`.
pub open spec fn current_locks(
    locks: Seq<(UtcDateTime, InverterOperationMode, Seq<char>)>,
    now: UtcDateTime,
) -> Seq<(UtcDateTime, InverterOperationMode, Seq<char>)>
    decreases locks.len(),
{
    if locks.len() == 0 {
        Seq::empty()
    } else {
        let r = current_locks(locks.drop_last(), now);
        if utc_le(now, locks.last().0) {
            r.push(locks.last())
        } else {
            r
        }
    }
}

/// `locks` with the new blocks added in order, each only when no lock holds
/// its start yet.
pub open spec fn add_locks(
    locks: Seq<(UtcDateTime, InverterOperationMode, Seq<char>)>,
    new_blocks: Seq<(UtcDateTime, InverterOperationMode, Seq<char>)>,
) -> Seq<(UtcDateTime, InverterOperationMode, Seq<char>)>
    decreases new_blocks.len(),
{
    if new_blocks.len() == 0 {
        locks
    } else {
        let r = add_locks(locks, new_blocks.drop_last());
        if has_lock(r, new_blocks.last().0) {
            r
        } else {
            r.push(new_blocks.last())
        }
    }
}

/// The locks after locking `new_blocks` at `now`: the locks that lie before
/// `now` are dropped, then the new blocks are added.
pub open spec fn locks_after(
    locks: Seq<(UtcDateTime, InverterOperationMode, Seq<char>)>,
    new_blocks: Seq<(UtcDateTime, InverterOperationMode, Seq<char>)>,
    now: UtcDateTime,
) -> Seq<(UtcDateTime, InverterOperationMode, Seq<char>)> {
    add_locks(current_locks(locks, now), new_blocks)
}

/// The blocks locked so far.
#[derive(Debug, Clone)]
pub struct ScheduleLockState {
    /// Locked blocks - mode decisions that should not be recalculated
    pub locked_blocks: Vec<LockedBlock>,
}

impl Default for ScheduleLockState {
    fn default() -> (r: ScheduleLockState)
        ensures
            r.locked_blocks@.len() == 0,
    {
        ScheduleLockState { locked_blocks: Vec::new() }
    }
}

impl ScheduleLockState {
    /// The mode of the block starting at `block_start`, if it is locked, with
    /// the reason "LOCKED: " followed by the lock's reason.
    pub fn get_locked_mode(&self, block_start: UtcDateTime) -> (r: Option<
        (InverterOperationMode, String),
    >)
        ensures
            match first_lock(locked_view(self.locked_blocks@), block_start) {
                None => r is None,
                Some((mode, reason)) => r matches Some((m, text)) && m == mode && text@ == "LOCKED: "@
                    + reason,
            },
    {
        let ghost locks = locked_view(self.locked_blocks@);
        assert(locks.skip(0) =~= locks);
        let mut i: usize = 0;
        while i < self.locked_blocks.len()
            invariant
                i <= self.locked_blocks.len(),
                locks == locked_view(self.locked_blocks@),
                first_lock(locks, block_start) == first_lock(locks.skip(i as int), block_start),
            decreases self.locked_blocks.len() - i,
        {
            let b = &self.locked_blocks[i];
            proof {
                assert(locks.skip(i as int)[0] == b@);
                assert(locks.skip(i as int).drop_first() =~= locks.skip(i + 1));
            }
            if b.block_start == block_start {
                let mut text = String::from_str("LOCKED: ");
                text.append(b.reason.as_str());
                return Some((b.mode, text));
            }
            i = i + 1;
        }
        proof {
            assert(locks.skip(i as int).len() == 0);
        }
        None
    }

    /// Locks the given blocks at `now`: locks of blocks that start before
    /// `now` are dropped, then each new block is added unless a block with
    /// the same start is locked already.
    pub fn lock_blocks_at(&mut self, blocks: Vec<LockedBlock>, now: UtcDateTime)
        ensures
            locked_view(final(self).locked_blocks@) == locks_after(
                locked_view(old(self).locked_blocks@),
                locked_view(blocks@),
                now,
            ),
    {
        let ghost old_locks = locked_view(self.locked_blocks@);
        let mut kept: Vec<LockedBlock> = Vec::new();
        let mut i: usize = 0;
        while i < self.locked_blocks.len()
            invariant
                i <= self.locked_blocks.len(),
                old_locks == locked_view(self.locked_blocks@),
                locked_view(kept@) == current_locks(old_locks.take(i as int), now),
            decreases self.locked_blocks.len() - i,
        {
            proof {
                assert(old_locks.take(i + 1).drop_last() =~= old_locks.take(i as int));
                assert(old_locks.take(i + 1).last() == self.locked_blocks@[i as int]@);
            }
            let ghost before = kept@;
            if now.le(&self.locked_blocks[i].block_start) {
                kept.push(self.locked_blocks[i].duplicate());
                assert(locked_view(kept@) =~= locked_view(before).push(kept@.last()@));
            }
            i = i + 1;
        }
        assert(old_locks.take(self.locked_blocks.len() as int) =~= old_locks);
        let ghost base = locked_view(kept@);
        let ghost new_locks = locked_view(blocks@);
        let mut j: usize = 0;
        while j < blocks.len()
            invariant
                j <= blocks.len(),
                new_locks == locked_view(blocks@),
                locked_view(kept@) == add_locks(base, new_locks.take(j as int)),
            decreases blocks.len() - j,
        {
            proof {
                assert(new_locks.take(j + 1).drop_last() =~= new_locks.take(j as int));
                assert(new_locks.take(j + 1).last() == blocks@[j as int]@);
            }
            let ghost before = kept@;
            let start = blocks[j].block_start;
            let mut present = false;
            let mut k: usize = 0;
            while k < kept.len()
                invariant
                    k <= kept.len(),
                    present == (exists|x: int| 0 <= x < k && (#[trigger] kept@[x]).block_start == start),
                decreases kept.len() - k,
            {
                if kept[k].block_start == start {
                    present = true;
                }
                k = k + 1;
            }
            proof {
                let kv = locked_view(kept@);
                if present {
                    let x = choose|x: int| 0 <= x < kept@.len() && (#[trigger] kept@[x]).block_start == start;
                    assert(kv[x].0 == start);
                } else {
                    assert forall|x: int| 0 <= x < kv.len() implies (#[trigger] kv[x]).0 != start by {
                        assert(kv[x] == kept@[x]@);
                    }
                }
                assert(present == has_lock(kv, start));
            }
            if !present {
                kept.push(blocks[j].duplicate());
                assert(locked_view(kept@) =~= locked_view(before).push(blocks@[j as int]@));
            }
            j = j + 1;
        }
        assert(new_locks.take(blocks.len() as int) =~= new_locks);
        self.locked_blocks = kept;
    }

    /// Locks the given blocks at the current time (see `lock_blocks_at`).
    pub fn lock_blocks(&mut self, blocks: Vec<LockedBlock>)
        ensures
            exists|now: UtcDateTime|
                now.wf() && locked_view(final(self).locked_blocks@) == locks_after(
                    locked_view(old(self).locked_blocks@),
                    locked_view(blocks@),
                    now,
                ),
    {
        let now = UtcDateTime::now();
        self.lock_blocks_at(blocks, now);
    }
}


/// Whether no two locks hold the same block start.
pub open spec fn distinct_starts(locks: Seq<(UtcDateTime, InverterOperationMode, Seq<char>)>) -> bool {
    forall|i: int, j: int| 0 <= i < j < locks.len() ==> (#[trigger] locks[i]).0 != (#[trigger] locks[j]).0
}

proof fn lemma_first_lock_push(
    locks: Seq<(UtcDateTime, InverterOperationMode, Seq<char>)>,
    x: (UtcDateTime, InverterOperationMode, Seq<char>),
    start: UtcDateTime,
)
    ensures
        first_lock(locks.push(x), start) == (match first_lock(locks, start) {
            Some(v) => Some(v),
            None => if x.0 == start {
                Some((x.1, x.2))
            } else {
                None
            },
        }),
    decreases locks.len(),
{
    if locks.len() == 0 {
        assert(locks.push(x).drop_first() =~= Seq::<(UtcDateTime, InverterOperationMode, Seq<char>)>::empty());
        assert(first_lock(locks.push(x).drop_first(), start) is None);
        assert(locks.push(x)[0] == x);
    } else {
        assert(locks.push(x)[0] == locks[0]);
        assert(locks.push(x).drop_first() =~= locks.drop_first().push(x));
        lemma_first_lock_push(locks.drop_first(), x, start);
    }
}

proof fn lemma_first_lock_has(locks: Seq<(UtcDateTime, InverterOperationMode, Seq<char>)>, start: UtcDateTime)
    ensures
        first_lock(locks, start) is Some <==> has_lock(locks, start),
    decreases locks.len(),
{
    if locks.len() > 0 {
        let rest = locks.drop_first();
        lemma_first_lock_has(rest, start);
        if locks[0].0 == start {
            assert(locks[0].0 == start);
        } else {
            if has_lock(locks, start) {
                let i = choose|i: int| 0 <= i < locks.len() && (#[trigger] locks[i]).0 == start;
                assert(rest[i - 1].0 == start);
            }
            if has_lock(rest, start) {
                let i = choose|i: int| 0 <= i < rest.len() && (#[trigger] rest[i]).0 == start;
                assert(locks[i + 1].0 == start);
            }
        }
    }
}

proof fn lemma_current_locks_first(
    locks: Seq<(UtcDateTime, InverterOperationMode, Seq<char>)>,
    now: UtcDateTime,
    start: UtcDateTime,
)
    ensures
        first_lock(current_locks(locks, now), start) == (if utc_le(now, start) {
            first_lock(locks, start)
        } else {
            None
        }),
    decreases locks.len(),
{
    if locks.len() > 0 {
        let init = locks.drop_last();
        let x = locks.last();
        assert(locks =~= init.push(x));
        lemma_current_locks_first(init, now, start);
        lemma_first_lock_push(init, x, start);
        if utc_le(now, x.0) {
            lemma_first_lock_push(current_locks(init, now), x, start);
        }
    }
}

proof fn lemma_add_locks_first(
    locks: Seq<(UtcDateTime, InverterOperationMode, Seq<char>)>,
    new_blocks: Seq<(UtcDateTime, InverterOperationMode, Seq<char>)>,
    start: UtcDateTime,
)
    ensures
        first_lock(add_locks(locks, new_blocks), start) == (if first_lock(locks, start) is Some {
            first_lock(locks, start)
        } else {
            first_lock(new_blocks, start)
        }),
    decreases new_blocks.len(),
{
    if new_blocks.len() > 0 {
        let init = new_blocks.drop_last();
        let y = new_blocks.last();
        assert(new_blocks =~= init.push(y));
        let r = add_locks(locks, init);
        lemma_add_locks_first(locks, init, start);
        lemma_first_lock_push(init, y, start);
        lemma_first_lock_push(r, y, start);
        lemma_first_lock_has(r, start);
        lemma_first_lock_has(r, y.0);
    }
}

proof fn lemma_distinct_push(
    locks: Seq<(UtcDateTime, InverterOperationMode, Seq<char>)>,
    x: (UtcDateTime, InverterOperationMode, Seq<char>),
)
    requires
        distinct_starts(locks),
        !has_lock(locks, x.0),
    ensures
        distinct_starts(locks.push(x)),
{
    let p = locks.push(x);
    assert forall|i: int, j: int| 0 <= i < j < p.len() implies (#[trigger] p[i]).0 != (#[trigger] p[j]).0 by {
        if j == locks.len() {
            assert(p[i] == locks[i]);
        } else {
            assert(p[i] == locks[i] && p[j] == locks[j]);
        }
    }
}

proof fn lemma_current_locks_distinct(locks: Seq<(UtcDateTime, InverterOperationMode, Seq<char>)>, now: UtcDateTime)
    requires
        distinct_starts(locks),
    ensures
        distinct_starts(current_locks(locks, now)),
    decreases locks.len(),
{
    if locks.len() > 0 {
        let init = locks.drop_last();
        let x = locks.last();
        assert(distinct_starts(init)) by {
            assert forall|i: int, j: int| 0 <= i < j < init.len() implies (#[trigger] init[i]).0 != (
            #[trigger] init[j]).0 by {
                assert(init[i] == locks[i] && init[j] == locks[j]);
            }
        }
        lemma_current_locks_distinct(init, now);
        if utc_le(now, x.0) {
            let c = current_locks(init, now);
            lemma_current_locks_first(init, now, x.0);
            lemma_first_lock_has(c, x.0);
            lemma_first_lock_has(init, x.0);
            if has_lock(init, x.0) {
                let i = choose|i: int| 0 <= i < init.len() && (#[trigger] init[i]).0 == x.0;
                assert(locks[i] == init[i]);
                assert(locks[locks.len() - 1] == x);
            }
            lemma_distinct_push(c, x);
        }
    }
}

proof fn lemma_add_locks_distinct(
    locks: Seq<(UtcDateTime, InverterOperationMode, Seq<char>)>,
    new_blocks: Seq<(UtcDateTime, InverterOperationMode, Seq<char>)>,
)
    requires
        distinct_starts(locks),
    ensures
        distinct_starts(add_locks(locks, new_blocks)),
    decreases new_blocks.len(),
{
    if new_blocks.len() > 0 {
        let init = new_blocks.drop_last();
        lemma_add_locks_distinct(locks, init);
        let r = add_locks(locks, init);
        if !has_lock(r, new_blocks.last().0) {
            lemma_distinct_push(r, new_blocks.last());
        }
    }
}

/// Looking a block start up after locking at `now` finds the lock it had
/// before when that lock does not lie in the past; otherwise it finds the
/// first of the new blocks with that start, if any. So every newly locked
/// block is found, and a block locked earlier keeps its mode.
pub proof fn lemma_lock_lookup(
    locks: Seq<(UtcDateTime, InverterOperationMode, Seq<char>)>,
    new_blocks: Seq<(UtcDateTime, InverterOperationMode, Seq<char>)>,
    now: UtcDateTime,
    start: UtcDateTime,
)
    ensures
        first_lock(locks_after(locks, new_blocks, now), start) == (if utc_le(now, start) && first_lock(
            locks,
            start,
        ) is Some {
            first_lock(locks, start)
        } else {
            first_lock(new_blocks, start)
        }),
        has_lock(new_blocks, start) ==> has_lock(locks_after(locks, new_blocks, now), start),
{
    lemma_current_locks_first(locks, now, start);
    lemma_add_locks_first(current_locks(locks, now), new_blocks, start);
    lemma_first_lock_has(new_blocks, start);
    lemma_first_lock_has(locks_after(locks, new_blocks, now), start);
}

/// Locking never leaves two locks on the same block start.
pub proof fn lemma_lock_starts_distinct(
    locks: Seq<(UtcDateTime, InverterOperationMode, Seq<char>)>,
    new_blocks: Seq<(UtcDateTime, InverterOperationMode, Seq<char>)>,
    now: UtcDateTime,
)
    requires
        distinct_starts(locks),
    ensures
        distinct_starts(locks_after(locks, new_blocks, now)),
{
    lemma_current_locks_distinct(locks, now);
    lemma_add_locks_distinct(current_locks(locks, now), new_blocks);
}


/// Whether a block that started `age_secs` seconds before now is the block
/// being run: it started within the last fifteen minutes.
pub open spec fn is_running_block_age(age_secs: int) -> bool {
    0 <= age_secs < 900
}

/// The lock of block `idx` of a plan: charging when the plan charges in it
/// and charging is allowed, self-use otherwise; the reason names the plan's
/// choice and the block's price label.
pub open spec fn planned_lock(
    starts: Seq<UtcDateTime>,
    labels: Seq<Seq<char>>,
    charge_schedule: Seq<usize>,
    may_charge: bool,
    idx: int,
) -> (UtcDateTime, InverterOperationMode, Seq<char>) {
    let charged = charge_schedule.contains(idx as usize);
    (
        starts[idx],
        if charged && may_charge {
            InverterOperationMode::ForceCharge
        } else {
            InverterOperationMode::SelfUse
        },
        if charged {
            "Scheduled charge: "@ + labels[idx]
        } else {
            "Hold: "@ + labels[idx]
        },
    )
}

/// The locks of the `count` blocks from `current` on (fewer at the end of
/// the plan).
pub open spec fn planned_locks(
    starts: Seq<UtcDateTime>,
    labels: Seq<Seq<char>>,
    charge_schedule: Seq<usize>,
    may_charge: bool,
    current: int,
    count: int,
) -> Seq<(UtcDateTime, InverterOperationMode, Seq<char>)> {
    let n = if count < starts.len() - current {
        count
    } else {
        starts.len() - current
    };
    Seq::new(n as nat, |k: int| planned_lock(starts, labels, charge_schedule, may_charge, current + k))
}

/// The texts of a sequence of strings.
pub open spec fn strings_view(s: Seq<String>) -> Seq<Seq<char>> {
    s.map_values(|x: String| x@)
}

/// Whether the charge schedule holds block `idx`.
fn schedule_contains(charge_schedule: &[usize], idx: usize) -> (r: bool)
    ensures
        r == charge_schedule@.contains(idx),
{
    let mut k: usize = 0;
    while k < charge_schedule.len()
        invariant
            k <= charge_schedule.len(),
            forall|j: int| 0 <= j < k ==> charge_schedule@[j] != idx,
        decreases charge_schedule.len() - k,
    {
        if charge_schedule[k] == idx {
            assert(charge_schedule@[k as int] == idx);
            return true;
        }
        k = k + 1;
    }
    false
}

/// Locks the blocks of a plan from `current_idx` on, `min_consecutive` of
/// them (fewer at the end of the plan), so that re-evaluation does not
/// change them while they run; `price_labels[i]` is the printed price of
/// block `i`. Locking happens only when the block at `current_idx` is the one
/// being run at `now` (it started within the last fifteen minutes), so a
/// preview of later blocks locks nothing. Returns whether it locked.
pub fn lock_upcoming_blocks(
    lock_state: &mut ScheduleLockState,
    block_starts: &[UtcDateTime],
    price_labels: &[String],
    current_idx: usize,
    charge_schedule: &[usize],
    may_charge: bool,
    min_consecutive: usize,
    now: UtcDateTime,
) -> (locked: bool)
    requires
        current_idx < block_starts.len(),
        price_labels.len() == block_starts.len(),
        now.wf(),
        block_starts[current_idx as int].wf(),
    ensures
        locked == is_running_block_age(whole_seconds_between(block_starts[current_idx as int], now)),
        locked ==> exists|t: UtcDateTime|
            t.wf() && locked_view(final(lock_state).locked_blocks@) == locks_after(
                locked_view(old(lock_state).locked_blocks@),
                planned_locks(
                    block_starts@,
                    strings_view(price_labels@),
                    charge_schedule@,
                    may_charge,
                    current_idx as int,
                    min_consecutive as int,
                ),
                t,
            ),
        !locked ==> final(lock_state).locked_blocks@ == old(lock_state).locked_blocks@,
{
    let age = now.whole_seconds_since(&block_starts[current_idx]);
    if !(0 <= age && age < 900) {
        return false;
    }
    let ghost target = planned_locks(
        block_starts@,
        strings_view(price_labels@),
        charge_schedule@,
        may_charge,
        current_idx as int,
        min_consecutive as int,
    );
    let end: usize = if min_consecutive < block_starts.len() - current_idx {
        current_idx + min_consecutive
    } else {
        block_starts.len()
    };
    let mut blocks: Vec<LockedBlock> = Vec::new();
    let mut idx = current_idx;
    while idx < end
        invariant
            current_idx <= idx <= end <= block_starts.len(),
            price_labels.len() == block_starts.len(),
            end - current_idx == target.len(),
            target == planned_locks(
                block_starts@,
                strings_view(price_labels@),
                charge_schedule@,
                may_charge,
                current_idx as int,
                min_consecutive as int,
            ),
            locked_view(blocks@) == target.take(idx - current_idx),
        decreases end - idx,
    {
        let charged = schedule_contains(charge_schedule, idx);
        let mode = if charged && may_charge {
            InverterOperationMode::ForceCharge
        } else {
            InverterOperationMode::SelfUse
        };
        let mut reason = if charged {
            String::from_str("Scheduled charge: ")
        } else {
            String::from_str("Hold: ")
        };
        reason.append(price_labels[idx].as_str());
        let ghost before = locked_view(blocks@);
        blocks.push(LockedBlock { block_start: block_starts[idx], mode, reason });
        proof {
            let k = idx - current_idx;
            assert(strings_view(price_labels@)[idx as int] == price_labels@[idx as int]@);
            assert(target[k] == planned_lock(
                block_starts@,
                strings_view(price_labels@),
                charge_schedule@,
                may_charge,
                idx as int,
            ));
            assert(locked_view(blocks@) =~= before.push(blocks@.last()@));
            assert(target.take(k + 1) =~= target.take(k).push(target[k]));
        }
        idx = idx + 1;
    }
    assert(target.take(target.len() as int) =~= target);
    lock_state.lock_blocks(blocks);
    true
}
/// The decision for the current block of a plan: charge when the plan
/// charges in it and the battery is below its charging target, otherwise
/// self-use. Returns the mode, the reason (with the block's price label) and
/// the decision's identifier.
pub fn scheduled_block_decision(
    charge_schedule: &[usize],
    current_block_index: usize,
    below_target_soc: bool,
    price_label: &str,
) -> (r: (InverterOperationMode, String, String))
    ensures
        ({
            let charge = charge_schedule@.contains(current_block_index);
            &&& r.0 == if charge && below_target_soc {
                InverterOperationMode::ForceCharge
            } else {
                InverterOperationMode::SelfUse
            }
            &&& r.1@ == if !charge {
                "Hold: "@ + price_label@
            } else if below_target_soc {
                "Scheduled charge: "@ + price_label@
            } else {
                "Battery full, skipping charge: "@ + price_label@
            }
            &&& r.2@ == if !charge {
                "winter_adaptive_v2:hold"@
            } else if below_target_soc {
                "winter_adaptive_v2:scheduled_charge"@
            } else {
                "winter_adaptive_v2:battery_full"@
            }
        }),
{
    if schedule_contains(charge_schedule, current_block_index) {
        if below_target_soc {
            let mut reason = String::from_str("Scheduled charge: ");
            reason.append(price_label);
            (
                InverterOperationMode::ForceCharge,
                reason,
                String::from_str("winter_adaptive_v2:scheduled_charge"),
            )
        } else {
            let mut reason = String::from_str("Battery full, skipping charge: ");
            reason.append(price_label);
            (InverterOperationMode::SelfUse, reason, String::from_str("winter_adaptive_v2:battery_full"))
        }
    } else {
        let mut reason = String::from_str("Hold: ");
        reason.append(price_label);
        (InverterOperationMode::SelfUse, reason, String::from_str("winter_adaptive_v2:hold"))
    }
}

} // verus!
