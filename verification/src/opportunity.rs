//! Arbitrage opportunities as sets of blocks: choosing opportunities that
//! share no block, and laying the chosen ones out as a block schedule.

use vstd::prelude::*;

verus! {

broadcast use vstd::slice::group_slice_axioms;

/// The blocks of an arbitrage opportunity: where it charges and where it
/// discharges.
#[derive(Debug)]
pub struct OpportunityBlocks {
    /// Indices of blocks in the charge window
    pub charge_blocks: Vec<usize>,
    /// Indices of blocks in the discharge window
    pub discharge_blocks: Vec<usize>,
}

impl View for OpportunityBlocks {
    type V = (Seq<usize>, Seq<usize>);

    open spec fn view(&self) -> (Seq<usize>, Seq<usize>) {
        (self.charge_blocks@, self.discharge_blocks@)
    }
}

/// The contents of a list of opportunities.
pub open spec fn opportunities_view(s: Seq<OpportunityBlocks>) -> Seq<(Seq<usize>, Seq<usize>)> {
    s.map_values(|o: OpportunityBlocks| o@)
}

/// Whether opportunity `o` uses block `b`.
pub open spec fn uses_block(o: (Seq<usize>, Seq<usize>), b: usize) -> bool {
    o.0.contains(b) || o.1.contains(b)
}

/// Whether one of the opportunities at the positions `kept` uses block `b`.
pub open spec fn kept_use(opps: Seq<(Seq<usize>, Seq<usize>)>, kept: Seq<int>, b: usize) -> bool {
    exists|t: int| 0 <= t < kept.len() && #[trigger] uses_block(opps[kept[t]], b)
}

/// The positions of the opportunities kept among the first `k`, in order:
/// an opportunity is kept when none of its blocks is used by one kept
/// before it.
pub open spec fn kept_opportunities(opps: Seq<(Seq<usize>, Seq<usize>)>, k: int) -> Seq<int>
    decreases k,
{
    if k <= 0 {
        Seq::empty()
    } else {
        let r = kept_opportunities(opps, k - 1);
        if exists|b: usize| #[trigger] uses_block(opps[k - 1], b) && kept_use(opps, r, b) {
            r
        } else {
            r.push(k - 1)
        }
    }
}

/// Whether `v` holds `x`.
fn holds(v: &Vec<usize>, x: usize) -> (r: bool)
    ensures
        r == v@.contains(x),
{
    let mut i: usize = 0;
    while i < v.len()
        invariant
            i <= v.len(),
            forall|j: int| 0 <= j < i ==> v@[j] != x,
        decreases v.len() - i,
    {
        if v[i] == x {
            assert(v@[i as int] == x);
            return true;
        }
        i = i + 1;
    }
    false
}

proof fn lemma_concat_contains(s: Seq<usize>, t: Seq<usize>, b: usize)
    ensures
        (s + t).contains(b) <==> (s.contains(b) || t.contains(b)),
{
    if (s + t).contains(b) {
        let y = choose|y: int| 0 <= y < (s + t).len() && (s + t)[y] == b;
        if y < s.len() {
            assert(s[y] == b);
        } else {
            assert(t[y - s.len()] == b);
        }
    }
    if s.contains(b) {
        let y = choose|y: int| 0 <= y < s.len() && s[y] == b;
        assert((s + t)[y] == b);
    }
    if t.contains(b) {
        let y = choose|y: int| 0 <= y < t.len() && t[y] == b;
        assert((s + t)[s.len() + y] == b);
    }
}

/// Whether some block of `blocks` is in `used`.
fn any_used(blocks: &Vec<usize>, used: &Vec<usize>) -> (r: bool)
    ensures
        r == exists|b: usize| blocks@.contains(b) && used@.contains(b),
{
    let mut i: usize = 0;
    while i < blocks.len()
        invariant
            i <= blocks.len(),
            forall|j: int| 0 <= j < i ==> !used@.contains(#[trigger] blocks@[j]),
        decreases blocks.len() - i,
    {
        if holds(used, blocks[i]) {
            assert(blocks@.contains(blocks@[i as int]));
            return true;
        }
        i = i + 1;
    }
    proof {
        assert forall|b: usize| blocks@.contains(b) implies !used@.contains(b) by {
            let j = choose|j: int| 0 <= j < blocks@.len() && blocks@[j] == b;
            assert(!used@.contains(blocks@[j]));
        }
    }
    false
}

/// The positions of the opportunities that are kept when they are taken in
/// order and one is dropped if it uses a block of one kept before it (see
/// `kept_opportunities`).
pub fn remove_overlapping_opportunities(opportunities: &[OpportunityBlocks]) -> (kept: Vec<usize>)
    ensures
        kept@.len() == kept_opportunities(opportunities_view(opportunities@), opportunities@.len() as int).len(),
        forall|t: int|
            0 <= t < kept@.len() ==> #[trigger] kept@[t] as int == kept_opportunities(
                opportunities_view(opportunities@),
                opportunities@.len() as int,
            )[t],
{
    let ghost opps = opportunities_view(opportunities@);
    let mut used: Vec<usize> = Vec::new();
    let mut kept: Vec<usize> = Vec::new();
    let mut k: usize = 0;
    while k < opportunities.len()
        invariant
            k <= opportunities@.len(),
            opps == opportunities_view(opportunities@),
            kept@.len() == kept_opportunities(opps, k as int).len(),
            forall|t: int| 0 <= t < kept@.len() ==> #[trigger] kept@[t] as int == kept_opportunities(opps, k as int)[t],
            forall|t: int| 0 <= t < kept@.len() ==> #[trigger] kept@[t] < k,
            forall|b: usize| used@.contains(b) <==> kept_use(opps, kept_opportunities(opps, k as int), b),
        decreases opportunities.len() - k,
    {
        let o = &opportunities[k];
        let ghost r = kept_opportunities(opps, k as int);
        assert(opps[k as int] == o@);
        let clash = any_used(&o.charge_blocks, &used) || any_used(&o.discharge_blocks, &used);
        proof {
            if clash {
                let b = choose|b: usize| (o.charge_blocks@.contains(b) || o.discharge_blocks@.contains(b)) && used@.contains(b);
                assert(uses_block(opps[k as int], b) && kept_use(opps, r, b));
            } else {
                assert forall|b: usize| #[trigger] uses_block(opps[k as int], b) implies !kept_use(opps, r, b) by {
                    assert(!used@.contains(b));
                }
            }
        }
        if !clash {
            let ghost before_used = used@;
            assert(forall|b: usize| #[trigger] before_used.contains(b) <==> kept_use(opps, r, b));
            let mut j: usize = 0;
            while j < o.charge_blocks.len()
                invariant
                    j <= o.charge_blocks.len(),
                    used@ == before_used + o.charge_blocks@.take(j as int),
                decreases o.charge_blocks.len() - j,
            {
                used.push(o.charge_blocks[j]);
                assert(o.charge_blocks@.take(j + 1) =~= o.charge_blocks@.take(j as int).push(o.charge_blocks@[j as int]));
                assert(used@ =~= before_used + o.charge_blocks@.take(j + 1));
                j = j + 1;
            }
            let ghost mid_used = used@;
            assert(mid_used =~= before_used + o.charge_blocks@);
            let mut j: usize = 0;
            while j < o.discharge_blocks.len()
                invariant
                    j <= o.discharge_blocks.len(),
                    used@ == mid_used + o.discharge_blocks@.take(j as int),
                decreases o.discharge_blocks.len() - j,
            {
                used.push(o.discharge_blocks[j]);
                assert(o.discharge_blocks@.take(j + 1) =~= o.discharge_blocks@.take(j as int).push(o.discharge_blocks@[j as int]));
                assert(used@ =~= mid_used + o.discharge_blocks@.take(j + 1));
                j = j + 1;
            }
            assert(used@ =~= before_used + o.charge_blocks@ + o.discharge_blocks@);
            proof {
                assert forall|b: usize| used@.contains(b) <==> (before_used.contains(b) || uses_block(o@, b)) by {
                    lemma_concat_contains(before_used, o.charge_blocks@, b);
                    lemma_concat_contains(before_used + o.charge_blocks@, o.discharge_blocks@, b);
                }
            }
            kept.push(k);
            proof {
                let r2 = r.push(k as int);
                assert(kept_opportunities(opps, k + 1) == r2);
                assert forall|b: usize| used@.contains(b) <==> kept_use(opps, r2, b) by {
                    if kept_use(opps, r2, b) {
                        let t = choose|t: int| 0 <= t < r2.len() && #[trigger] uses_block(opps[r2[t]], b);
                        if t < r.len() {
                            assert(r2[t] == r[t]);
                            assert(kept_use(opps, r, b));
                            assert(before_used.contains(b));
                        } else {
                            assert(r2[t] == k);
                            assert(uses_block(o@, b));
                        }
                    }
                    if used@.contains(b) {
                        if before_used.contains(b) {
                            assert(kept_use(opps, r, b));
                            let t = choose|t: int| 0 <= t < r.len() && #[trigger] uses_block(opps[r[t]], b);
                            assert(r2[t] == r[t]);
                            assert(uses_block(opps[r2[t]], b));
                        } else {
                            assert(uses_block(o@, b));
                            assert(r2[r.len() as int] == k);
                            assert(uses_block(opps[r2[r.len() as int]], b));
                        }
                    }
                }
            }
        } else {
            proof {
                assert(kept_opportunities(opps, k + 1) == r);
            }
        }
        k = k + 1;
    }
    kept
}

/// The opportunities kept share no block with each other, and they come in
/// the order they were given in.
pub proof fn lemma_kept_opportunities_disjoint(opps: Seq<(Seq<usize>, Seq<usize>)>, k: int)
    requires
        0 <= k <= opps.len(),
    ensures
        forall|t: int| 0 <= t < kept_opportunities(opps, k).len() ==> 0 <= #[trigger] kept_opportunities(opps, k)[t] < k,
        forall|t: int, u: int|
            0 <= t < u < kept_opportunities(opps, k).len() ==> #[trigger] kept_opportunities(opps, k)[t]
                < #[trigger] kept_opportunities(opps, k)[u],
        forall|t: int, u: int, b: usize|
            0 <= t < u < kept_opportunities(opps, k).len() && #[trigger] uses_block(opps[kept_opportunities(opps, k)[t]], b)
                ==> !#[trigger] uses_block(opps[kept_opportunities(opps, k)[u]], b),
    decreases k,
{
    if k > 0 {
        lemma_kept_opportunities_disjoint(opps, k - 1);
        let r = kept_opportunities(opps, k - 1);
        let r2 = kept_opportunities(opps, k);
        if r2 != r {
            assert(r2 == r.push(k - 1));
            assert forall|t: int, u: int, b: usize|
                0 <= t < u < r2.len() && #[trigger] uses_block(opps[r2[t]], b) implies !#[trigger] uses_block(opps[r2[u]], b) by {
                if u == r.len() {
                    assert(r2[t] == r[t]);
                    assert(kept_use(opps, r, b));
                } else {
                    assert(r2[t] == r[t] && r2[u] == r[u]);
                }
            }
        }
    }
}

/// The action of one block of an opportunity schedule.
#[derive(Debug, Clone, Copy, PartialEq, Eq, Structural)]
pub enum ScheduledAction {
    /// Charge during this block (part of arbitrage opportunity N)
    Charge { opportunity_id: usize },
    /// Discharge during this block (part of arbitrage opportunity N)
    Discharge { opportunity_id: usize },
    /// No scheduled action - use self-use mode
    NoAction,
}

/// The action of block `j` after laying out the first `k` opportunities in
/// order: the last opportunity that uses the block decides, and within one
/// opportunity discharging wins over charging.
pub open spec fn planned_action(opps: Seq<(Seq<usize>, Seq<usize>)>, k: int, j: int) -> ScheduledAction
    decreases k,
{
    if k <= 0 {
        ScheduledAction::NoAction
    } else if opps[k - 1].1.contains(j as usize) {
        ScheduledAction::Discharge { opportunity_id: (k - 1) as usize }
    } else if opps[k - 1].0.contains(j as usize) {
        ScheduledAction::Charge { opportunity_id: (k - 1) as usize }
    } else {
        planned_action(opps, k - 1, j)
    }
}

/// Writes `action` at every block of `blocks` that is a block of the
/// schedule.
fn mark_blocks(schedule: &mut Vec<ScheduledAction>, blocks: &Vec<usize>, action: ScheduledAction)
    ensures
        final(schedule)@.len() == old(schedule)@.len(),
        forall|j: int|
            0 <= j < old(schedule)@.len() ==> #[trigger] final(schedule)@[j] == if blocks@.contains(j as usize) {
                action
            } else {
                old(schedule)@[j]
            },
{
    let ghost s0 = schedule@;
    let mut i: usize = 0;
    while i < blocks.len()
        invariant
            i <= blocks.len(),
            schedule@.len() == s0.len(),
            forall|j: int|
                0 <= j < s0.len() ==> #[trigger] schedule@[j] == if blocks@.take(i as int).contains(j as usize) {
                    action
                } else {
                    s0[j]
                },
        decreases blocks.len() - i,
    {
        let b = blocks[i];
        if b < schedule.len() {
            schedule.set(b, action);
        }
        proof {
            let s1 = blocks@.take(i + 1);
            let s0b = blocks@.take(i as int);
            assert forall|x: usize| s1.contains(x) <==> (s0b.contains(x) || x == b) by {
                if s1.contains(x) {
                    let y = choose|y: int| 0 <= y < s1.len() && s1[y] == x;
                    if y < i {
                        assert(s0b[y] == x);
                    }
                }
                if s0b.contains(x) {
                    let y = choose|y: int| 0 <= y < s0b.len() && s0b[y] == x;
                    assert(s1[y] == x);
                }
                if x == b {
                    assert(s1[i as int] == x);
                }
            }
        }
        i = i + 1;
    }
    assert(blocks@.take(blocks@.len() as int) =~= blocks@);
}

/// The schedule of `num_blocks` blocks that the opportunities give: each
/// block charges or discharges for the opportunity that uses it last (see
/// `planned_action`), and the other blocks have no action.
pub fn generate_schedule(num_blocks: usize, opportunities: &[OpportunityBlocks]) -> (schedule: Vec<ScheduledAction>)
    ensures
        schedule@.len() == num_blocks,
        forall|j: int|
            0 <= j < num_blocks ==> #[trigger] schedule@[j] == planned_action(
                opportunities_view(opportunities@),
                opportunities@.len() as int,
                j,
            ),
{
    let ghost opps = opportunities_view(opportunities@);
    let mut schedule: Vec<ScheduledAction> = Vec::new();
    let mut i: usize = 0;
    while i < num_blocks
        invariant
            i <= num_blocks,
            schedule@.len() == i,
            forall|j: int| 0 <= j < i ==> #[trigger] schedule@[j] == ScheduledAction::NoAction,
        decreases num_blocks - i,
    {
        schedule.push(ScheduledAction::NoAction);
        i = i + 1;
    }
    let mut k: usize = 0;
    while k < opportunities.len()
        invariant
            k <= opportunities@.len(),
            opps == opportunities_view(opportunities@),
            schedule@.len() == num_blocks,
            forall|j: int| 0 <= j < num_blocks ==> #[trigger] schedule@[j] == planned_action(opps, k as int, j),
        decreases opportunities.len() - k,
    {
        let o = &opportunities[k];
        assert(opps[k as int] == o@);
        mark_blocks(&mut schedule, &o.charge_blocks, ScheduledAction::Charge { opportunity_id: k });
        mark_blocks(&mut schedule, &o.discharge_blocks, ScheduledAction::Discharge { opportunity_id: k });
        k = k + 1;
    }
    schedule
}

} // verus!
