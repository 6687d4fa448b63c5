//! Choosing blocks by price. The prices themselves stay with the caller:
//! each block comes with a rank that orders the blocks as their prices do
//! (a block's rank is below another's exactly when its price is, and equal
//! prices have equal ranks), and every choice here depends on that order
//! alone.

use vstd::prelude::*;
use crate::time::UtcDateTime;
use crate::plan::is_overnight;

verus! {

broadcast use vstd::slice::group_slice_axioms;

/// Whether block `i` is chosen before block `j`: it is cheaper (dearer,
/// when the dearest come first), or priced the same and earlier.
pub open spec fn goes_before(ranks: Seq<u64>, dearest_first: bool, i: int, j: int) -> bool {
    ||| (if dearest_first {
        ranks[i] > ranks[j]
    } else {
        ranks[i] < ranks[j]
    })
    ||| (ranks[i] == ranks[j] && i < j)
}

/// Whether `chosen` is the list of the first eligible blocks in price order
/// (see `goes_before`), `count` of them or all there are when fewer: the
/// chosen blocks are eligible and in that order, and an eligible block that
/// is left out comes after all the chosen ones, which are then `count`.
pub open spec fn is_price_selection(
    ranks: Seq<u64>,
    eligible: Seq<bool>,
    dearest_first: bool,
    count: int,
    chosen: Seq<usize>,
) -> bool {
    &&& chosen.len() <= count
    &&& forall|t: int| 0 <= t < chosen.len() ==> (#[trigger] chosen[t]) < ranks.len() && chosen[t] < eligible.len()
        && eligible[chosen[t] as int]
    &&& forall|t: int, u: int|
        0 <= t < u < chosen.len() ==> goes_before(ranks, dearest_first, #[trigger] chosen[t] as int, #[trigger] chosen[u] as int)
    &&& forall|i: int|
        0 <= i < ranks.len() && i < eligible.len() && eligible[i] && !chosen.contains(i as usize) ==> {
            &&& chosen.len() == count
            &&& forall|t: int| 0 <= t < chosen.len() ==> goes_before(ranks, dearest_first, #[trigger] chosen[t] as int, i)
        }
}

/// The first `count` eligible blocks in price order: the cheapest first, or
/// the dearest first, blocks of the same price in block order (a stable
/// sort by price, then the first `count`). `eligible[i]` tells whether block
/// `i` may be chosen; blocks beyond it may not.
pub fn select_blocks_by_price(
    price_ranks: &[u64],
    eligible: &[bool],
    count: usize,
    dearest_first: bool,
) -> (chosen: Vec<usize>)
    ensures
        is_price_selection(price_ranks@, eligible@, dearest_first, count as int, chosen@),
{
    let ghost ranks = price_ranks@;
    let n = if price_ranks.len() < eligible.len() {
        price_ranks.len()
    } else {
        eligible.len()
    };
    let mut chosen: Vec<usize> = Vec::new();
    let mut last: Option<usize> = None;
    while chosen.len() < count
        invariant_except_break
            chosen@.len() <= count,
        invariant
            ranks == price_ranks@,
            n <= price_ranks@.len(),
            n <= eligible@.len(),
            n == price_ranks@.len() || n == eligible@.len(),
            forall|t: int| 0 <= t < chosen@.len() ==> (#[trigger] chosen@[t]) < n && eligible@[chosen@[t] as int],
            forall|t: int, u: int|
                0 <= t < u < chosen@.len() ==> goes_before(ranks, dearest_first, #[trigger] chosen@[t] as int, #[trigger] chosen@[u] as int),
            match last {
                None => chosen@.len() == 0,
                Some(l) => chosen@.len() > 0 && l == chosen@.last(),
            },
            forall|i: int|
                0 <= i < n && eligible@[i] ==> (chosen@.contains(i as usize) <==> (last matches Some(l) && !goes_before(ranks, dearest_first, l as int, i))),
        ensures
            chosen@.len() <= count,
            forall|t: int| 0 <= t < chosen@.len() ==> (#[trigger] chosen@[t]) < n && eligible@[chosen@[t] as int],
            forall|t: int, u: int|
                0 <= t < u < chosen@.len() ==> goes_before(ranks, dearest_first, #[trigger] chosen@[t] as int, #[trigger] chosen@[u] as int),
            match last {
                None => chosen@.len() == 0,
                Some(l) => chosen@.len() > 0 && l == chosen@.last(),
            },
            forall|i: int|
                0 <= i < n && eligible@[i] ==> (chosen@.contains(i as usize) <==> (last matches Some(l) && !goes_before(ranks, dearest_first, l as int, i))),
            chosen@.len() < count ==> forall|i: int| 0 <= i < n && eligible@[i] ==> chosen@.contains(i as usize),
        decreases count - chosen@.len(),
    {
        let mut best: Option<usize> = None;
        let mut i: usize = 0;
        while i < n
            invariant
                i <= n,
                n <= price_ranks@.len(),
                n <= eligible@.len(),
                ranks == price_ranks@,
                last matches Some(l) ==> l < n,
                match best {
                    None => forall|j: int| 0 <= j < i && eligible@[j] ==> (last matches Some(l) && !goes_before(ranks, dearest_first, l as int, j)),
                    Some(b) => b < i && eligible@[b as int] && (last matches Some(l) ==> goes_before(ranks, dearest_first, l as int, b as int))
                        && forall|j: int| 0 <= j < i && eligible@[j] && (last matches Some(l) ==> goes_before(ranks, dearest_first, l as int, j)) ==> (j == b || goes_before(ranks, dearest_first, b as int, j)),
                },
            decreases n - i,
        {
            if eligible[i] {
                let after_last = match last {
                    None => true,
                    Some(l) => if dearest_first {
                        price_ranks[l] > price_ranks[i] || (price_ranks[l] == price_ranks[i] && l < i)
                    } else {
                        price_ranks[l] < price_ranks[i] || (price_ranks[l] == price_ranks[i] && l < i)
                    },
                };
                if after_last {
                    let better = match best {
                        None => true,
                        Some(b) => if dearest_first {
                            price_ranks[i] > price_ranks[b]
                        } else {
                            price_ranks[i] < price_ranks[b]
                        },
                    };
                    if better {
                        best = Some(i);
                    }
                }
            }
            i = i + 1;
        }
        match best {
            None => {
                proof {
                    assert forall|j: int| 0 <= j < n && eligible@[j] implies chosen@.contains(j as usize) by {}
                }
                break;
            },
            Some(b) => {
                let ghost before = chosen@;
                chosen.push(b);
                proof {
                    assert forall|t: int| 0 <= t < before.len() implies goes_before(ranks, dearest_first, before[t] as int, b as int) by {
                        let l = last->0;
                        assert(l == before.last());
                        if t < before.len() - 1 {
                            assert(goes_before(ranks, dearest_first, before[t] as int, before[before.len() - 1] as int));
                        }
                    }
                    assert forall|i: int| 0 <= i < n && eligible@[i] implies (chosen@.contains(i as usize) <==> !goes_before(ranks, dearest_first, b as int, i)) by {
                        if chosen@.contains(i as usize) {
                            let t = choose|t: int| 0 <= t < chosen@.len() && chosen@[t] == i as usize;
                            if t < before.len() {
                                assert(before[t] == i as usize);
                                assert(before.contains(i as usize));
                                assert(goes_before(ranks, dearest_first, before[t] as int, b as int));
                            }
                        } else {
                            assert(!before.contains(i as usize)) by {
                                if before.contains(i as usize) {
                                    let t = choose|t: int| 0 <= t < before.len() && before[t] == i as usize;
                                    assert(chosen@[t] == i as usize);
                                }
                            }
                            assert(chosen@[before.len() as int] == b);
                            assert(i != b);
                        }
                    }
                }
                last = Some(b);
            },
        }
    }
    proof {
        let c = chosen@;
        assert forall|i: int|
            0 <= i < price_ranks@.len() && i < eligible@.len() && eligible@[i] && !c.contains(i as usize) implies {
                &&& c.len() == count
                &&& forall|t: int| 0 <= t < c.len() ==> goes_before(ranks, dearest_first, #[trigger] c[t] as int, i)
            } by {
            assert(i < n);
            if c.len() > 0 {
                let l = last->0;
                assert(goes_before(ranks, dearest_first, l as int, i));
                assert forall|t: int| 0 <= t < c.len() implies goes_before(ranks, dearest_first, #[trigger] c[t] as int, i) by {
                    if t < c.len() - 1 {
                        assert(goes_before(ranks, dearest_first, c[t] as int, c[c.len() - 1] as int));
                    }
                }
            }
        }
    }
    chosen
}

/// The `count` cheapest blocks that start overnight, before the hour
/// `morning_peak_start_hour` (see `select_blocks_by_price`).
pub fn find_cheapest_overnight_blocks(
    block_starts: &[UtcDateTime],
    price_ranks: &[u64],
    morning_peak_start_hour: u8,
    count: usize,
) -> (chosen: Vec<usize>)
    requires
        block_starts.len() == price_ranks.len(),
        forall|i: int| 0 <= i < block_starts.len() ==> (#[trigger] block_starts[i]).time.wf(),
    ensures
        is_price_selection(
            price_ranks@,
            Seq::new(
                block_starts@.len(),
                |i: int| block_starts@[i].time.secs / 3600 < morning_peak_start_hour,
            ),
            false,
            count as int,
            chosen@,
        ),
{
    let mut overnight: Vec<bool> = Vec::new();
    let mut i: usize = 0;
    while i < block_starts.len()
        invariant
            i <= block_starts.len(),
            forall|k: int| 0 <= k < block_starts.len() ==> (#[trigger] block_starts[k]).time.wf(),
            overnight@ == Seq::new(
                i as nat,
                |k: int| block_starts@[k].time.secs / 3600 < morning_peak_start_hour,
            ),
        decreases block_starts.len() - i,
    {
        overnight.push(is_overnight(block_starts[i], morning_peak_start_hour));
        i = i + 1;
    }
    select_blocks_by_price(price_ranks, &overnight, count, false)
}

/// The number of turning points of a price curve: blocks (other than the
/// first and the last) priced strictly above both neighbours, plus those
/// priced strictly below both.
pub open spec fn price_turns(ranks: Seq<u64>) -> int
    decreases ranks.len(),
{
    if ranks.len() < 3 {
        0
    } else {
        let n = ranks.len() as int;
        let i = n - 2;
        price_turns(ranks.drop_last()) + (if ranks[i] > ranks[i - 1] && ranks[i] > ranks[i + 1] {
            1int
        } else {
            0
        }) + (if ranks[i] < ranks[i - 1] && ranks[i] < ranks[i + 1] {
            1int
        } else {
            0
        })
    }
}

/// Counts the turning points of a price curve (see `price_turns`).
pub fn count_peaks(price_ranks: &[u64]) -> (r: usize)
    ensures
        r == price_turns(price_ranks@),
{
    let n = price_ranks.len();
    if n < 3 {
        return 0;
    }
    let mut peaks: usize = 0;
    let mut i: usize = 1;
    while i < n - 1
        invariant
            1 <= i <= n - 1,
            n == price_ranks@.len(),
            peaks == price_turns(price_ranks@.take(i + 1)),
            peaks <= i,
        decreases n - 1 - i,
    {
        proof {
            let t = price_ranks@.take(i + 2);
            assert(t.drop_last() =~= price_ranks@.take(i + 1));
        }
        if price_ranks[i] > price_ranks[i - 1] && price_ranks[i] > price_ranks[i + 1] {
            peaks = peaks + 1;
        }
        if price_ranks[i] < price_ranks[i - 1] && price_ranks[i] < price_ranks[i + 1] {
            peaks = peaks + 1;
        }
        i = i + 1;
    }
    assert(price_ranks@.take(n as int) =~= price_ranks@);
    peaks
}

} // verus!
