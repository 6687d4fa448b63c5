//! Seasonal operating modes and the rules that switch between them.

use vstd::prelude::*;
use std::collections::VecDeque;
use crate::time::UtcDateTime;

verus! {

/// Seasonal operating mode.
#[derive(Debug, Clone, Copy, PartialEq, Eq, Structural)]
pub enum SeasonalMode {
    /// May-September: more solar, lower minimum state of charge
    Summer,
    /// October-April: less solar, higher minimum state of charge
    Winter,
}

/// The season of a calendar month: summer for May to September, winter
/// otherwise.
pub open spec fn season_of_month(month: int) -> SeasonalMode {
    if 5 <= month <= 9 {
        SeasonalMode::Summer
    } else {
        SeasonalMode::Winter
    }
}

impl SeasonalMode {
    /// The season of a UTC date-time.
    pub fn from_date(date: UtcDateTime) -> (r: SeasonalMode)
        ensures
            r == season_of_month(date.date.month as int),
    {
        SeasonalMode::from_month(date.date.month)
    }

    /// The season of a calendar month (1 to 12).
    pub fn from_month(month: u32) -> (r: SeasonalMode)
        ensures
            r == season_of_month(month as int),
    {
        if 5 <= month && month <= 9 {
            SeasonalMode::Summer
        } else {
            SeasonalMode::Winter
        }
    }
}

/// How one recent day's energy balance is classified.
#[derive(Debug, Clone, Copy, PartialEq, Eq, Structural)]
pub struct DayBalanceClass {
    /// Imports exceeded solar production by 20% or more of the imports.
    pub deficit: bool,
    /// Solar production exceeded imports by 20% or more of the imports.
    pub surplus: bool,
}

/// The season that the recent days call for, if it differs from the
/// current one. `recent` holds the classification of the days looked at
/// (the most recent ones). From September to February, a run of deficit
/// days switches to winter; from February to September, a run of surplus
/// days switches to summer. The winter rule is looked at first.
pub open spec fn seasonal_switch(
    current: SeasonalMode,
    month: int,
    recent: Seq<DayBalanceClass>,
) -> Option<SeasonalMode> {
    let all_deficit = forall|i: int| 0 <= i < recent.len() ==> (#[trigger] recent[i]).deficit;
    let all_surplus = forall|i: int| 0 <= i < recent.len() ==> (#[trigger] recent[i]).surplus;
    if (month >= 9 || month <= 2) && all_deficit && current != SeasonalMode::Winter {
        Some(SeasonalMode::Winter)
    } else if 2 <= month <= 9 && all_surplus && current != SeasonalMode::Summer {
        Some(SeasonalMode::Summer)
    } else {
        None
    }
}

/// The last `n` items of `s` (all of them when there are fewer).
pub open spec fn last_n<T>(s: Seq<T>, n: int) -> Seq<T> {
    if s.len() <= n {
        s
    } else {
        s.subrange(s.len() - n, s.len() as int)
    }
}

/// The seasonal mode update: with fewer than `required_days` days of
/// history nothing changes; otherwise the last `required_days` days decide
/// (see `seasonal_switch`). Returns whether the mode changed.
pub fn update_seasonal_mode(
    mode: &mut SeasonalMode,
    month: u32,
    history: &[DayBalanceClass],
    required_days: usize,
) -> (changed: bool)
    ensures
        history.len() < required_days ==> !changed && *final(mode) == *old(mode),
        history.len() >= required_days ==> match seasonal_switch(
            *old(mode),
            month as int,
            last_n(history@, required_days as int),
        ) {
            Some(m) => changed && *final(mode) == m,
            None => !changed && *final(mode) == *old(mode),
        },
{
    if history.len() < required_days {
        return false;
    }
    let start = history.len() - required_days;
    let ghost recent = last_n(history@, required_days as int);
    assert(recent =~= history@.subrange(start as int, history@.len() as int));
    let mut all_deficit = true;
    let mut all_surplus = true;
    let mut i = start;
    while i < history.len()
        invariant
            start <= i <= history.len(),
            recent == history@.subrange(start as int, history@.len() as int),
            all_deficit == (forall|j: int| start <= j < i ==> (#[trigger] history@[j]).deficit),
            all_surplus == (forall|j: int| start <= j < i ==> (#[trigger] history@[j]).surplus),
        decreases history.len() - i,
    {
        all_deficit = all_deficit && history[i].deficit;
        all_surplus = all_surplus && history[i].surplus;
        i = i + 1;
    }
    assert(all_deficit == (forall|k: int| 0 <= k < recent.len() ==> (#[trigger] recent[k]).deficit))
        by {
        if all_deficit {
            assert forall|k: int| 0 <= k < recent.len() implies (#[trigger] recent[k]).deficit by {
                assert(recent[k] == history@[start + k]);
            }
        } else {
            let j = choose|j: int| start <= j < history.len() && !(#[trigger] history@[j]).deficit;
            assert(recent[j - start] == history@[j]);
        }
    }
    assert(all_surplus == (forall|k: int| 0 <= k < recent.len() ==> (#[trigger] recent[k]).surplus))
        by {
        if all_surplus {
            assert forall|k: int| 0 <= k < recent.len() implies (#[trigger] recent[k]).surplus by {
                assert(recent[k] == history@[start + k]);
            }
        } else {
            let j = choose|j: int| start <= j < history.len() && !(#[trigger] history@[j]).surplus;
            assert(recent[j - start] == history@[j]);
        }
    }
    if (month >= 9 || month <= 2) && all_deficit && *mode != SeasonalMode::Winter {
        *mode = SeasonalMode::Winter;
        return true;
    }
    if 2 <= month && month <= 9 && all_surplus && *mode != SeasonalMode::Summer {
        *mode = SeasonalMode::Summer;
        return true;
    }
    false
}

/// Appends `item` to a history and drops the oldest entries until at most
/// `max_len` remain.
pub fn push_bounded<T>(history: &mut VecDeque<T>, item: T, max_len: usize)
    ensures
        final(history)@ == last_n(old(history)@.push(item), max_len as int),
{
    history.push_back(item);
    let ghost full = old(history)@.push(item);
    while history.len() > max_len
        invariant
            full == old(history)@.push(item),
            history@.len() <= full.len(),
            history@.len() >= max_len || history@.len() == full.len(),
            history@ == full.subrange(full.len() - history@.len(), full.len() as int),
        decreases history@.len(),
    {
        history.pop_front();
        assert(history@ =~= full.subrange(full.len() - history@.len(), full.len() as int));
    }
    assert(history@ =~= last_n(full, max_len as int));
}

/// After an update the mode reported as changed is the new one, and an
/// unchanged mode is reported as unchanged: the update never reports a change
/// to the mode it already had.
pub proof fn lemma_switch_changes_mode(current: SeasonalMode, month: int, recent: Seq<DayBalanceClass>)
    ensures
        seasonal_switch(current, month, recent) matches Some(m) ==> m != current,
{
}

/// In the months where only one rule applies (October to January, and March
/// to August), a run of days can only switch towards that rule's season.
pub proof fn lemma_switch_direction(current: SeasonalMode, month: int, recent: Seq<DayBalanceClass>)
    ensures
        (10 <= month <= 12 || month == 1) ==> seasonal_switch(current, month, recent) != Some(
            SeasonalMode::Summer,
        ),
        (3 <= month <= 8) ==> seasonal_switch(current, month, recent) != Some(
            SeasonalMode::Winter,
        ),
{
}

/// The winter rule: from September to February, a summer mode with a window
/// of days that are all deficit days switches to winter; outside those
/// months, or with a day in the window that is no deficit day, the update
/// never switches to winter.
pub proof fn lemma_winter_rule(current: SeasonalMode, month: int, recent: Seq<DayBalanceClass>)
    requires
        1 <= month <= 12,
    ensures
        ((month >= 9 || month <= 2) && current == SeasonalMode::Summer && (forall|i: int|
            0 <= i < recent.len() ==> (#[trigger] recent[i]).deficit)) ==> seasonal_switch(
            current,
            month,
            recent,
        ) == Some(SeasonalMode::Winter),
        seasonal_switch(current, month, recent) == Some(SeasonalMode::Winter) ==> {
            &&& month >= 9 || month <= 2
            &&& current == SeasonalMode::Summer
            &&& forall|i: int| 0 <= i < recent.len() ==> (#[trigger] recent[i]).deficit
        },
{
}

/// The summer rule: from February to September, a winter mode with a window
/// of days that are all surplus days switches to summer; the update switches
/// to summer in no other case.
pub proof fn lemma_summer_rule(current: SeasonalMode, month: int, recent: Seq<DayBalanceClass>)
    requires
        1 <= month <= 12,
    ensures
        (2 <= month <= 9 && current == SeasonalMode::Winter && (forall|i: int|
            0 <= i < recent.len() ==> (#[trigger] recent[i]).surplus)) ==> seasonal_switch(
            current,
            month,
            recent,
        ) == Some(SeasonalMode::Summer),
        seasonal_switch(current, month, recent) == Some(SeasonalMode::Summer) ==> {
            &&& 2 <= month <= 9
            &&& current == SeasonalMode::Winter
            &&& forall|i: int| 0 <= i < recent.len() ==> (#[trigger] recent[i]).surplus
        },
{
}

/// A bounded history never holds more than its bound, and its newest entry
/// is the one pushed last.
pub proof fn lemma_push_bounded_shape<T>(history: Seq<T>, item: T, max_len: int)
    ensures
        max_len >= 0 ==> last_n(history.push(item), max_len).len() <= max_len,
        max_len > 0 ==> last_n(history.push(item), max_len).last() == item,
{
}

} // verus!
