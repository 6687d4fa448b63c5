//! HDO (ripple-control) grid tariff schedules: parsing the sensor data and
//! answering whether a moment falls into a low-tariff period.
//!
//! The grid fee depends on whether a moment lies in one of the low-tariff
//! periods that the distributor announces per day; a day without a
//! schedule counts as unknown, and callers treat it as high tariff.

use vstd::prelude::*;
use crate::text::{
    str_chars, trim_chars, split_chars, parse_u32, parse_i32, trim, split, parse_u32_spec,
    parse_i32_spec, char_vecs_view, digits_value, all_digits,
};
use crate::time::{
    CalendarDate, TimeOfDay, UtcDateTime, time_of_day, time_fields_valid, date_fields_valid,
    time_le, nanos_between, whole_seconds_between,
};

verus! {

broadcast use vstd::string::group_string_axioms;

/// A low-tariff period of a day, from `start` up to (not including) `end`.
/// A period whose end comes before its start runs over midnight.
#[derive(Debug, Clone, Copy, PartialEq, Eq, Structural)]
pub struct HdoTimeRange {
    pub start: TimeOfDay,
    pub end: TimeOfDay,
}

/// The low-tariff periods of one date.
#[derive(Debug, Clone)]
pub struct HdoDaySchedule {
    pub date: CalendarDate,
    pub low_tariff_ranges: Vec<HdoTimeRange>,
}

impl View for HdoDaySchedule {
    type V = (CalendarDate, Seq<HdoTimeRange>);

    open spec fn view(&self) -> (CalendarDate, Seq<HdoTimeRange>) {
        (self.date, self.low_tariff_ranges@)
    }
}

/// The contents of a sequence of day schedules.
pub open spec fn schedules_view(s: Seq<HdoDaySchedule>) -> Seq<(CalendarDate, Seq<HdoTimeRange>)> {
    s.map_values(|d: HdoDaySchedule| d@)
}

// ---------------------------------------------------------------------------
// Parsing
// ---------------------------------------------------------------------------

/// A time "HH:MM" (surrounding white space allowed); "24:00" stands for
/// the last second of the day, 23:59:59.
pub open spec fn parse_time_spec(s: Seq<char>) -> Option<TimeOfDay> {
    let p = split(trim(s), ':');
    if p.len() != 2 {
        None
    } else {
        match (parse_u32_spec(p[0]), parse_u32_spec(p[1])) {
            (Some(h), Some(m)) => {
                if h == 24 && m == 0 {
                    Some(time_of_day(23, 59, 59, 0))
                } else if time_fields_valid(h as int, m as int, 0, 0) {
                    Some(time_of_day(h as int, m as int, 0, 0))
                } else {
                    None
                }
            },
            _ => None,
        }
    }
}

/// A period "HH:MM-HH:MM".
pub open spec fn parse_range_spec(s: Seq<char>) -> Option<HdoTimeRange> {
    let p = split(s, '-');
    if p.len() != 2 {
        None
    } else {
        match (parse_time_spec(p[0]), parse_time_spec(p[1])) {
            (Some(start), Some(end)) => Some(HdoTimeRange { start, end }),
            _ => None,
        }
    }
}

/// The periods that the pieces of a period list give: blank pieces are
/// skipped, and so are pieces that are no period.
pub open spec fn ranges_from_pieces(pieces: Seq<Seq<char>>) -> Seq<HdoTimeRange>
    decreases pieces.len(),
{
    if pieces.len() == 0 {
        Seq::empty()
    } else {
        let r = ranges_from_pieces(pieces.drop_last());
        let t = trim(pieces.last());
        if t.len() == 0 {
            r
        } else {
            match parse_range_spec(t) {
                Some(x) => r.push(x),
                None => r,
            }
        }
    }
}

/// The periods of a list "HH:MM-HH:MM; HH:MM-HH:MM; ...".
pub open spec fn parse_time_ranges_spec(s: Seq<char>) -> Seq<HdoTimeRange> {
    ranges_from_pieces(split(s, ';'))
}

/// A Czech date "DD.MM.YYYY" (surrounding white space allowed) that exists.
pub open spec fn parse_czech_date_spec(s: Seq<char>) -> Option<CalendarDate> {
    let p = split(trim(s), '.');
    if p.len() != 3 {
        None
    } else {
        match (parse_u32_spec(p[0]), parse_u32_spec(p[1]), parse_i32_spec(p[2])) {
            (Some(day), Some(month), Some(year)) => {
                if date_fields_valid(year as int, month as int, day as int) {
                    Some(CalendarDate { year, month, day })
                } else {
                    None
                }
            },
            _ => None,
        }
    }
}

proof fn lemma_parse_time_valid(s: Seq<char>)
    ensures
        parse_time_spec(s) matches Some(t) ==> t.wf(),
{
    let p = split(trim(s), ':');
    if p.len() == 2 {
        match (parse_u32_spec(p[0]), parse_u32_spec(p[1])) {
            (Some(h), Some(m)) => {
                if h == 24 && m == 0 {
                    assert(time_of_day(23, 59, 59, 0).secs == 86399);
                } else if time_fields_valid(h as int, m as int, 0, 0) {
                    assert(h * 3600 + m * 60 < 86400);
                }
            },
            _ => {},
        }
    }
}

/// Every period that a period list gives runs between two times of day.
pub proof fn lemma_parsed_ranges_valid(s: Seq<char>)
    ensures
        forall|k: int|
            0 <= k < parse_time_ranges_spec(s).len() ==> (#[trigger] parse_time_ranges_spec(s)[k]).start.wf()
                && parse_time_ranges_spec(s)[k].end.wf(),
{
    lemma_pieces_valid(split(s, ';'));
}

proof fn lemma_pieces_valid(pieces: Seq<Seq<char>>)
    ensures
        forall|k: int|
            0 <= k < ranges_from_pieces(pieces).len() ==> (#[trigger] ranges_from_pieces(pieces)[k]).start.wf()
                && ranges_from_pieces(pieces)[k].end.wf(),
    decreases pieces.len(),
{
    if pieces.len() > 0 {
        let r = ranges_from_pieces(pieces.drop_last());
        lemma_pieces_valid(pieces.drop_last());
        let t = trim(pieces.last());
        if t.len() > 0 {
            let p = split(t, '-');
            if p.len() == 2 {
                lemma_parse_time_valid(p[0]);
                lemma_parse_time_valid(p[1]);
            }
            match parse_range_spec(t) {
                Some(x) => {
                    let res = r.push(x);
                    assert(res == ranges_from_pieces(pieces));
                    assert forall|k: int| 0 <= k < res.len() implies (#[trigger] res[k]).start.wf()
                        && res[k].end.wf() by {
                        if k < r.len() {
                            assert(res[k] == r[k]);
                        }
                    }
                },
                None => {},
            }
        }
    }
}

/// The digit character of `d` (below ten).
pub open spec fn date_digit(d: int) -> char {
    (d + 48) as char
}

/// A number below a hundred as two digits, with a leading zero.
pub open spec fn two_digit_text(n: int) -> Seq<char> {
    seq![date_digit(n / 10), date_digit(n % 10)]
}

/// A number below ten thousand as four digits, with leading zeros.
pub open spec fn four_digit_text(n: int) -> Seq<char> {
    seq![date_digit(n / 1000), date_digit((n / 100) % 10), date_digit((n / 10) % 10), date_digit(n % 10)]
}

/// A date written "DD.MM.YYYY".
pub open spec fn czech_date_text(d: CalendarDate) -> Seq<char> {
    two_digit_text(d.day as int) + seq!['.'] + two_digit_text(d.month as int) + seq!['.'] + four_digit_text(
        d.year as int,
    )
}

proof fn lemma_two_digits(n: int)
    requires
        0 <= n < 100,
    ensures
        parse_u32_spec(two_digit_text(n)) == Some(n as u32),
        forall|i: int| 0 <= i < two_digit_text(n).len() ==> two_digit_text(n)[i] != '.',
{
    let t = two_digit_text(n);
    assert(t[0] as u32 == 48 + n / 10);
    assert(t[1] as u32 == 48 + n % 10);
    assert(all_digits(t));
    assert(t.drop_last() =~= seq![t[0]]);
    assert(seq![t[0]].drop_last() =~= Seq::<char>::empty());
    assert(digits_value(Seq::<char>::empty()) == 0);
    assert(seq![t[0]].last() == t[0]);
    assert(digits_value(seq![t[0]]) == n / 10);
    assert(digits_value(t) == n);
}

proof fn lemma_four_digits(n: int)
    requires
        0 <= n < 10000,
    ensures
        parse_i32_spec(four_digit_text(n)) == Some(n as i32),
        forall|i: int| 0 <= i < four_digit_text(n).len() ==> four_digit_text(n)[i] != '.',
{
    let t = four_digit_text(n);
    assert(t[0] as u32 == 48 + n / 1000);
    assert(t[1] as u32 == 48 + (n / 100) % 10);
    assert(t[2] as u32 == 48 + (n / 10) % 10);
    assert(t[3] as u32 == 48 + n % 10);
    assert(all_digits(t));
    let t3 = t.drop_last();
    let t2 = t3.drop_last();
    let t1 = t2.drop_last();
    assert(t1.drop_last() =~= Seq::<char>::empty());
    assert(t1 =~= seq![t[0]]);
    assert(digits_value(Seq::<char>::empty()) == 0);
    assert(t1.last() == t[0]);
    assert(t2 =~= seq![t[0], t[1]]);
    assert(t3 =~= seq![t[0], t[1], t[2]]);
    assert(digits_value(t1) == n / 1000);
    assert(digits_value(t2) == n / 100);
    assert(digits_value(t3) == n / 10);
    assert(digits_value(t) == n);
}

/// A date of the years 0 to 9999 written "DD.MM.YYYY" parses back to
/// itself.
pub proof fn lemma_czech_date_round_trip(d: CalendarDate)
    requires
        d.wf(),
        0 <= d.year <= 9999,
    ensures
        parse_czech_date_spec(czech_date_text(d)) == Some(d),
{
    let a = two_digit_text(d.day as int);
    let b = two_digit_text(d.month as int);
    let c = four_digit_text(d.year as int);
    assert(d.day <= 31) by {
        assert(crate::time::days_in_month(d.year as int, d.month as int) <= 31);
    }
    lemma_two_digits(d.day as int);
    lemma_two_digits(d.month as int);
    lemma_four_digits(d.year as int);
    let s = czech_date_text(d);
    assert(s[0] == a[0]);
    assert(s[s.len() - 1] == c[3]);
    assert(trim(s) == s);
    crate::text::lemma_split_no_sep(a, '.');
    crate::text::lemma_split_append(a, '.', b);
    crate::text::lemma_split_append(a + seq!['.'] + b, '.', c);
    assert(split(s, '.') =~= seq![a, b, c]);
}

/// Parses a Czech date "DD.MM.YYYY".
pub fn parse_czech_date(s: &str) -> (r: Option<CalendarDate>)
    ensures
        r == parse_czech_date_spec(s@),
{
    let chars = str_chars(s);
    let trimmed = trim_chars(&chars);
    let parts = split_chars(&trimmed, '.');
    proof {
        assert(char_vecs_view(parts@).len() == parts@.len());
    }
    if parts.len() != 3 {
        return None;
    }
    proof {
        assert(parts@[0]@ == char_vecs_view(parts@)[0]);
        assert(parts@[1]@ == char_vecs_view(parts@)[1]);
        assert(parts@[2]@ == char_vecs_view(parts@)[2]);
    }
    let day = match parse_u32(&parts[0]) {
        Some(d) => d,
        None => return None,
    };
    let month = match parse_u32(&parts[1]) {
        Some(m) => m,
        None => return None,
    };
    let year = match parse_i32(&parts[2]) {
        Some(y) => y,
        None => return None,
    };
    CalendarDate::from_ymd_opt(year, month, day)
}

/// Parses a time "HH:MM".
fn parse_time(s: &Vec<char>) -> (r: Option<TimeOfDay>)
    ensures
        r == parse_time_spec(s@),
        r matches Some(t) ==> t.wf(),
{
    let trimmed = trim_chars(s);
    let parts = split_chars(&trimmed, ':');
    proof {
        assert(char_vecs_view(parts@).len() == parts@.len());
    }
    if parts.len() != 2 {
        return None;
    }
    proof {
        assert(parts@[0]@ == char_vecs_view(parts@)[0]);
        assert(parts@[1]@ == char_vecs_view(parts@)[1]);
    }
    let hour = match parse_u32(&parts[0]) {
        Some(h) => h,
        None => return None,
    };
    let minute = match parse_u32(&parts[1]) {
        Some(m) => m,
        None => return None,
    };
    if hour == 24 && minute == 0 {
        return TimeOfDay::from_hms_opt(23, 59, 59);
    }
    TimeOfDay::from_hms_opt(hour, minute, 0)
}

/// Parses a period "HH:MM-HH:MM".
fn parse_single_time_range(s: &Vec<char>) -> (r: Option<HdoTimeRange>)
    ensures
        r == parse_range_spec(s@),
        r matches Some(x) ==> x.start.wf() && x.end.wf(),
{
    let parts = split_chars(s, '-');
    proof {
        assert(char_vecs_view(parts@).len() == parts@.len());
    }
    if parts.len() != 2 {
        return None;
    }
    proof {
        assert(parts@[0]@ == char_vecs_view(parts@)[0]);
        assert(parts@[1]@ == char_vecs_view(parts@)[1]);
    }
    let start = match parse_time(&parts[0]) {
        Some(t) => t,
        None => return None,
    };
    let end = match parse_time(&parts[1]) {
        Some(t) => t,
        None => return None,
    };
    Some(HdoTimeRange { start, end })
}

/// Parses a list of low-tariff periods "HH:MM-HH:MM; HH:MM-HH:MM; ...";
/// blank entries and entries that are no period are skipped.
pub fn parse_time_ranges(s: &str) -> (r: Vec<HdoTimeRange>)
    ensures
        r@ == parse_time_ranges_spec(s@),
{
    let chars = str_chars(s);
    let pieces = split_chars(&chars, ';');
    let ghost pv = char_vecs_view(pieces@);
    let mut ranges: Vec<HdoTimeRange> = Vec::new();
    let mut i: usize = 0;
    while i < pieces.len()
        invariant
            i <= pieces.len(),
            pv == char_vecs_view(pieces@),
            pv == split(s@, ';'),
            ranges@ == ranges_from_pieces(pv.take(i as int)),
        decreases pieces.len() - i,
    {
        proof {
            assert(pv.take(i + 1).drop_last() =~= pv.take(i as int));
            assert(pv.take(i + 1).last() == pieces@[i as int]@);
        }
        let t = trim_chars(&pieces[i]);
        if t.len() > 0 {
            match parse_single_time_range(&t) {
                Some(x) => ranges.push(x),
                None => {},
            }
        }
        i = i + 1;
    }
    assert(pv.take(pieces.len() as int) =~= pv);
    ranges
}

// ---------------------------------------------------------------------------
// Low-tariff lookup
// ---------------------------------------------------------------------------

/// Whether a period covers a time of day.
pub open spec fn range_contains(r: HdoTimeRange, t: TimeOfDay) -> bool {
    if time_le(r.start, r.end) {
        time_le(r.start, t) && !time_le(r.end, t)
    } else {
        time_le(r.start, t) || !time_le(r.end, t)
    }
}

/// A period is half open: a period that does not wrap past midnight covers
/// the times from its start up to, but not including, its end; one that
/// wraps covers the times from its start to midnight and from midnight up
/// to, but not including, its end. So a period never covers its own end,
/// and covers its start unless it is empty.
pub proof fn lemma_range_half_open(r: HdoTimeRange, t: TimeOfDay)
    ensures
        (r.start.secs < r.end.secs || (r.start.secs == r.end.secs && r.start.nano <= r.end.nano)) ==> (
        range_contains(r, t) <==> ((r.start.secs < t.secs || (r.start.secs == t.secs && r.start.nano
            <= t.nano)) && (t.secs < r.end.secs || (t.secs == r.end.secs && t.nano < r.end.nano)))),
        (r.end.secs < r.start.secs || (r.end.secs == r.start.secs && r.end.nano < r.start.nano)) ==> (
        range_contains(r, t) <==> ((r.start.secs < t.secs || (r.start.secs == t.secs && r.start.nano
            <= t.nano)) || (t.secs < r.end.secs || (t.secs == r.end.secs && t.nano < r.end.nano)))),
        (r.start.secs < r.end.secs || (r.start.secs == r.end.secs && r.start.nano <= r.end.nano))
            ==> !range_contains(r, r.end),
        r.start != r.end ==> range_contains(r, r.start),
{
}

/// With one cached schedule for a date, a moment of that date is in a low
/// tariff exactly when one of the schedule's periods covers its time: at
/// the end of a period that does not wrap past midnight, and that no other
/// period covers, the tariff is high.
pub proof fn lemma_single_schedule_lookup(
    date: CalendarDate,
    ranges: Seq<HdoTimeRange>,
    dt: UtcDateTime,
    k: int,
)
    requires
        dt.date == date,
        0 <= k < ranges.len(),
        time_le(ranges[k].start, ranges[k].end),
        dt.time == ranges[k].end,
        forall|i: int| 0 <= i < ranges.len() && i != k ==> !range_contains(#[trigger] ranges[i], dt.time),
    ensures
        low_tariff_at(seq![(date, ranges)], dt) == Some(false),
{
    let entries = seq![(date, ranges)];
    assert(entries.drop_last().len() == 0);
    assert(ranges_for_date(entries, dt.date) == Some(ranges));
    assert(!range_contains(ranges[k], dt.time));
}

/// Whether any of the periods covers a time of day.
pub open spec fn any_range_contains(ranges: Seq<HdoTimeRange>, t: TimeOfDay) -> bool {
    exists|i: int| 0 <= i < ranges.len() && range_contains(#[trigger] ranges[i], t)
}

/// The periods stored for a date: those of the last schedule for that date,
/// as a later schedule for a date replaces an earlier one.
pub open spec fn ranges_for_date(
    entries: Seq<(CalendarDate, Seq<HdoTimeRange>)>,
    date: CalendarDate,
) -> Option<Seq<HdoTimeRange>>
    decreases entries.len(),
{
    if entries.len() == 0 {
        None
    } else if entries.last().0 == date {
        Some(entries.last().1)
    } else {
        ranges_for_date(entries.drop_last(), date)
    }
}

/// Whether a moment is in a low-tariff period: unknown (`None`) when no
/// schedule covers its date.
pub open spec fn low_tariff_at(
    entries: Seq<(CalendarDate, Seq<HdoTimeRange>)>,
    dt: UtcDateTime,
) -> Option<bool> {
    match ranges_for_date(entries, dt.date) {
        None => None,
        Some(ranges) => Some(any_range_contains(ranges, dt.time)),
    }
}

/// `x` read as an unsigned 64-bit number (how the age of the cache is
/// compared with its time to live).
pub open spec fn as_unsigned_64(x: int) -> int {
    if x >= 0 {
        x
    } else {
        x + 0x1_0000_0000_0000_0000
    }
}

/// Whether a cache refreshed at `last` (if ever) is due for a refresh at
/// `now`.
pub open spec fn refresh_due(last: Option<UtcDateTime>, ttl_secs: u64, now: UtcDateTime) -> bool {
    match last {
        None => true,
        Some(t) => as_unsigned_64(whole_seconds_between(t, now)) > ttl_secs,
    }
}

/// A cache refreshed at `t` is not due for a refresh at a later moment of
/// the same day that is fewer than `ttl_secs` whole seconds of the clock
/// after `t`.
pub proof fn lemma_fresh_within_ttl(t: UtcDateTime, ttl_secs: u64, now: UtcDateTime)
    requires
        t.wf(),
        now.wf(),
        now.date == t.date,
        time_le(t.time, now.time),
        now.time.secs - t.time.secs < ttl_secs,
    ensures
        !refresh_due(Some(t), ttl_secs, now),
        0 <= whole_seconds_between(t, now) <= now.time.secs - t.time.secs + 1,
{
    let n = nanos_between(t, now);
    let d = now.time.secs - t.time.secs;
    assert(n >= 0);
    assert(n < (d + 2) * 1_000_000_000);
    assert(n / 1_000_000_000 <= d + 1);
}

/// A cache of HDO day schedules with a time to live.
pub struct HdoCache {
    schedules: Vec<HdoDaySchedule>,
    last_refresh: Option<UtcDateTime>,
    ttl_secs: u64,
}

impl HdoCache {
    #[verifier::type_invariant]
    spec fn inv(self) -> bool {
        self.last_refresh matches Some(t) ==> t.wf()
    }

    /// The schedules held, in the order they were stored.
    pub closed spec fn entries(&self) -> Seq<(CalendarDate, Seq<HdoTimeRange>)> {
        schedules_view(self.schedules@)
    }

    /// When the cache was last refreshed.
    pub closed spec fn refreshed_at(&self) -> Option<UtcDateTime> {
        self.last_refresh
    }

    /// The time to live in seconds.
    pub closed spec fn ttl(&self) -> u64 {
        self.ttl_secs
    }

    /// An empty cache with the given time to live in seconds.
    pub fn new(ttl_secs: u64) -> (r: HdoCache)
        ensures
            r.entries() == Seq::<(CalendarDate, Seq<HdoTimeRange>)>::empty(),
            r.refreshed_at() is None,
            r.ttl() == ttl_secs,
    {
        let r = HdoCache { schedules: Vec::new(), last_refresh: None, ttl_secs };
        assert(r.entries() =~= Seq::<(CalendarDate, Seq<HdoTimeRange>)>::empty());
        r
    }

    /// Whether the cache is due for a refresh at `now`: it never was
    /// refreshed, or more than the time to live has passed since.
    pub fn needs_refresh_at(&self, now: UtcDateTime) -> (r: bool)
        requires
            now.wf(),
        ensures
            r == refresh_due(self.refreshed_at(), self.ttl(), now),
            self.refreshed_at() == Some(now) ==> !r,
    {
        proof {
            use_type_invariant(self);
        }
        match &self.last_refresh {
            None => true,
            Some(t) => {
                let elapsed = now.whole_seconds_since(t);
                if elapsed >= 0 {
                    (elapsed as u64) > self.ttl_secs
                } else {
                    let shifted = (elapsed + 0x7FFF_FFFF_FFFF_FFFF + 1) as u64;
                    shifted + 0x8000_0000_0000_0000 > self.ttl_secs
                }
            },
        }
    }

    /// Whether the cache is due for a refresh now.
    pub fn needs_refresh(&self) -> (r: bool)
        ensures
            exists|now: UtcDateTime| now.wf() && r == refresh_due(self.refreshed_at(), self.ttl(), now),
            self.refreshed_at() is None ==> r,
    {
        let now = UtcDateTime::now();
        self.needs_refresh_at(now)
    }

    /// Replaces the cached schedules, recording `now` as the refresh time.
    pub fn update_at(&mut self, schedules: Vec<HdoDaySchedule>, now: UtcDateTime)
        requires
            now.wf(),
        ensures
            final(self).entries() == schedules_view(schedules@),
            final(self).refreshed_at() == Some(now),
            final(self).ttl() == old(self).ttl(),
    {
        proof {
            use_type_invariant(&*self);
        }
        self.schedules = schedules;
        self.last_refresh = Some(now);
    }

    /// Replaces the cached schedules, recording the current time as the
    /// refresh time.
    pub fn update(&mut self, schedules: Vec<HdoDaySchedule>)
        ensures
            final(self).entries() == schedules_view(schedules@),
            final(self).refreshed_at() matches Some(t) && t.wf(),
            final(self).ttl() == old(self).ttl(),
    {
        let now = UtcDateTime::now();
        self.update_at(schedules, now);
    }

    /// Whether `dt` is in a low-tariff period; `None` when no schedule for
    /// its date is cached (callers then assume high tariff).
    pub fn is_low_tariff(&self, dt: UtcDateTime) -> (r: Option<bool>)
        ensures
            r == low_tariff_at(self.entries(), dt),
    {
        let ghost entries = self.entries();
        let mut k = self.schedules.len();
        assert(entries.take(k as int) =~= entries);
        while k > 0 && self.schedules[k - 1].date != dt.date
            invariant
                k <= self.schedules.len(),
                entries == schedules_view(self.schedules@),
                ranges_for_date(entries, dt.date) == ranges_for_date(entries.take(k as int), dt.date),
            decreases k,
        {
            proof {
                assert(entries.take(k as int).drop_last() =~= entries.take(k - 1));
            }
            k = k - 1;
        }
        if k == 0 {
            assert(entries.take(0).len() == 0);
            return None;
        }
        let ranges = &self.schedules[k - 1].low_tariff_ranges;
        proof {
            assert(entries.take(k as int).last() == self.schedules@[k - 1]@);
            assert(ranges_for_date(entries, dt.date) == Some(ranges@));
        }
        let mut i: usize = 0;
        while i < ranges.len()
            invariant
                i <= ranges.len(),
                low_tariff_at(self.entries(), dt) == Some(any_range_contains(ranges@, dt.time)),
                forall|j: int| 0 <= j < i ==> !range_contains(#[trigger] ranges@[j], dt.time),
            decreases ranges.len() - i,
        {
            let r = ranges[i];
            let inside = if r.start.le(&r.end) {
                r.start.le(&dt.time) && !r.end.le(&dt.time)
            } else {
                r.start.le(&dt.time) || !r.end.le(&dt.time)
            };
            if inside {
                assert(range_contains(ranges@[i as int], dt.time));
                return Some(true);
            }
            i = i + 1;
        }
        Some(false)
    }
}

/// A moment's tariff is unknown exactly when no cached schedule is for its
/// date; otherwise the schedule stored last for that date decides it.
pub proof fn lemma_low_tariff_known(entries: Seq<(CalendarDate, Seq<HdoTimeRange>)>, dt: UtcDateTime)
    ensures
        low_tariff_at(entries, dt) is None <==> forall|i: int|
            0 <= i < entries.len() ==> (#[trigger] entries[i]).0 != dt.date,
        low_tariff_at(entries, dt) is Some ==> exists|i: int|
            0 <= i < entries.len() && (#[trigger] entries[i]).0 == dt.date && low_tariff_at(entries, dt)
                == Some(any_range_contains(entries[i].1, dt.time)) && forall|j: int|
                i < j < entries.len() ==> (#[trigger] entries[j]).0 != dt.date,
    decreases entries.len(),
{
    if entries.len() > 0 {
        let init = entries.drop_last();
        let n = entries.len() - 1;
        if entries.last().0 != dt.date {
            lemma_low_tariff_known(init, dt);
            assert forall|i: int| 0 <= i < init.len() implies init[i] == entries[i] by {}
            if low_tariff_at(entries, dt) is None {
                assert forall|i: int| 0 <= i < entries.len() implies (#[trigger] entries[i]).0 != dt.date by {
                    if i < n {
                        assert(init[i] == entries[i]);
                    }
                }
            } else {
                let i = choose|i: int|
                    0 <= i < init.len() && (#[trigger] init[i]).0 == dt.date && low_tariff_at(init, dt)
                        == Some(any_range_contains(init[i].1, dt.time)) && forall|j: int|
                        i < j < init.len() ==> (#[trigger] init[j]).0 != dt.date;
                assert(entries[i] == init[i]);
                assert forall|j: int| i < j < entries.len() implies (#[trigger] entries[j]).0 != dt.date by {
                    if j < n {
                        assert(init[j] == entries[j]);
                    }
                }
            }
        } else {
            assert(entries[n].0 == dt.date);
        }
    }
}

/// The grid fee at `block_time`: the low-tariff fee when the cache knows
/// the moment to be in a low-tariff period, the high-tariff fee otherwise
/// (also when its date is unknown).
pub fn grid_fee_at<T: Copy>(hdo_cache: &HdoCache, block_time: UtcDateTime, low_tariff: T, high_tariff: T) -> (r: T)
    ensures
        r == if low_tariff_at(hdo_cache.entries(), block_time) == Some(true) {
            low_tariff
        } else {
            high_tariff
        },
{
    match hdo_cache.is_low_tariff(block_time) {
        Some(true) => low_tariff,
        _ => high_tariff,
    }
}

impl Default for HdoCache {
    fn default() -> (r: HdoCache)
        ensures
            r.entries() == Seq::<(CalendarDate, Seq<HdoTimeRange>)>::empty(),
            r.refreshed_at() is None,
            r.ttl() == 3600,
    {
        HdoCache::new(3600)
    }
}

// ---------------------------------------------------------------------------
// Sensor data
// ---------------------------------------------------------------------------

/// One signal entry of the distributor's data: its date ("datum") and its
/// list of low-tariff periods ("casy"), where present as strings.
#[derive(Debug)]
pub struct HdoSignal {
    pub datum: Option<String>,
    pub casy: Option<String>,
}

/// The text of an optional string.
pub open spec fn opt_text(s: Option<String>) -> Option<Seq<char>> {
    match s {
        Some(t) => Some(t@),
        None => None,
    }
}

impl View for HdoSignal {
    type V = (Option<Seq<char>>, Option<Seq<char>>);

    open spec fn view(&self) -> (Option<Seq<char>>, Option<Seq<char>>) {
        (opt_text(self.datum), opt_text(self.casy))
    }
}

/// The day schedules that a list of signals gives: each signal with both
/// strings, a date that parses and at least one period gives the schedule of
/// that date; the others give nothing.
pub open spec fn schedules_from_signals(
    signals: Seq<(Option<Seq<char>>, Option<Seq<char>>)>,
) -> Seq<(CalendarDate, Seq<HdoTimeRange>)>
    decreases signals.len(),
{
    if signals.len() == 0 {
        Seq::empty()
    } else {
        let r = schedules_from_signals(signals.drop_last());
        match signals.last() {
            (Some(datum), Some(casy)) => match parse_czech_date_spec(datum) {
                Some(date) => {
                    let ranges = parse_time_ranges_spec(casy);
                    if ranges.len() > 0 {
                        r.push((date, ranges))
                    } else {
                        r
                    }
                },
                None => r,
            },
            _ => r,
        }
    }
}

/// Turns signal entries into day schedules (see `schedules_from_signals`).
pub fn hdo_schedules_from_signals(signals: &Vec<HdoSignal>) -> (r: Vec<HdoDaySchedule>)
    ensures
        schedules_view(r@) == schedules_from_signals(signals@.map_values(|x: HdoSignal| x@)),
{
    let ghost sv = signals@.map_values(|x: HdoSignal| x@);
    let mut out: Vec<HdoDaySchedule> = Vec::new();
    let mut i: usize = 0;
    while i < signals.len()
        invariant
            i <= signals.len(),
            sv == signals@.map_values(|x: HdoSignal| x@),
            schedules_view(out@) == schedules_from_signals(sv.take(i as int)),
        decreases signals.len() - i,
    {
        proof {
            assert(sv.take(i + 1).drop_last() =~= sv.take(i as int));
            assert(sv.take(i + 1).last() == signals@[i as int]@);
        }
        let ghost before = out@;
        let signal = &signals[i];
        match (&signal.datum, &signal.casy) {
            (Some(datum), Some(casy)) => match parse_czech_date(datum.as_str()) {
                Some(date) => {
                    let ranges = parse_time_ranges(casy.as_str());
                    if ranges.len() > 0 {
                        out.push(HdoDaySchedule { date, low_tariff_ranges: ranges });
                        assert(schedules_view(out@) =~= schedules_view(before).push(
                            out@.last()@,
                        ));
                    }
                },
                None => {},
            },
            _ => {},
        }
        i = i + 1;
    }
    assert(sv.take(signals.len() as int) =~= sv);
    out
}

#[verifier::external_type_specification]
#[verifier::external_body]
pub struct ExJsonValue(serde_json::Value);

/// The JSON value that a text is, if it is one (what `serde_json::from_str`
/// gives).
pub uninterp spec fn json_of_text(raw: Seq<char>) -> Option<serde_json::Value>;

/// The member under a key of a JSON object (what `serde_json::Value::get`
/// gives; nothing for a value that is no object).
pub uninterp spec fn json_member(v: serde_json::Value, key: Seq<char>) -> Option<serde_json::Value>;

/// The items of a JSON array (what `serde_json::Value::as_array` gives;
/// nothing for a value that is no array).
pub uninterp spec fn json_items(v: serde_json::Value) -> Option<Seq<serde_json::Value>>;

/// The text of a JSON string (what `serde_json::Value::as_str` gives;
/// nothing for a value that is no string).
pub uninterp spec fn json_text(v: serde_json::Value) -> Option<Seq<char>>;

/// `serde_json::from_str` into a `serde_json::Value`, with a parse error
/// turned into `None`: its result is named `json_of_text`.
#[verifier::external_body]
fn json_parse(raw: &str) -> (r: Option<serde_json::Value>)
    ensures
        r == json_of_text(raw@),
{
    serde_json::from_str::<serde_json::Value>(raw).ok()
}

/// `serde_json::Value::get` with a string key: its result is named
/// `json_member`.
#[verifier::external_body]
fn json_get<'a>(v: &'a serde_json::Value, key: &str) -> (r: Option<&'a serde_json::Value>)
    ensures
        match r {
            Some(x) => json_member(*v, key@) == Some(*x),
            None => json_member(*v, key@) is None,
        },
{
    v.get(key)
}

/// `serde_json::Value::as_array`: its result is named `json_items`.
#[verifier::external_body]
fn json_as_array(v: &serde_json::Value) -> (r: Option<&Vec<serde_json::Value>>)
    ensures
        match r {
            Some(a) => json_items(*v) == Some(a@),
            None => json_items(*v) is None,
        },
{
    v.as_array()
}

/// `serde_json::Value::as_str`: its result is named `json_text`.
#[verifier::external_body]
fn json_as_str(v: &serde_json::Value) -> (r: Option<&str>)
    ensures
        match r {
            Some(t) => json_text(*v) == Some(t@),
            None => json_text(*v) is None,
        },
{
    v.as_str()
}

/// The value reached from `v` by the keys in turn, if every step exists.
pub open spec fn json_at_path(v: serde_json::Value, keys: Seq<Seq<char>>) -> Option<serde_json::Value>
    decreases keys.len(),
{
    if keys.len() == 0 {
        Some(v)
    } else {
        match json_member(v, keys[0]) {
            Some(next) => json_at_path(next, keys.drop_first()),
            None => None,
        }
    }
}

/// The texts of a list of keys.
pub open spec fn key_texts(keys: Seq<&str>) -> Seq<Seq<char>> {
    keys.map_values(|k: &str| k@)
}

/// The value reached from `v` by the keys in turn, if every step exists
/// (see `json_at_path`).
fn json_path<'a>(v: &'a serde_json::Value, keys: &[&str]) -> (r: Option<&'a serde_json::Value>)
    ensures
        match r {
            Some(x) => json_at_path(*v, key_texts(keys@)) == Some(*x),
            None => json_at_path(*v, key_texts(keys@)) is None,
        },
{
    let ghost ks = key_texts(keys@);
    assert(ks.skip(0) =~= ks);
    let mut cur = v;
    let mut i: usize = 0;
    while i < keys.len()
        invariant
            i <= keys@.len(),
            ks == key_texts(keys@),
            json_at_path(*v, ks) == json_at_path(*cur, ks.skip(i as int)),
        decreases keys.len() - i,
    {
        proof {
            assert(ks.skip(i as int)[0] == keys@[i as int]@);
            assert(ks.skip(i as int).drop_first() =~= ks.skip(i + 1));
        }
        match json_get(cur, keys[i]) {
            Some(next) => cur = next,
            None => return None,
        }
        i = i + 1;
    }
    assert(ks.skip(i as int).len() == 0);
    Some(cur)
}

/// The array reached from `v` by the keys, if every step exists and it is
/// an array.
pub open spec fn json_array_at(v: serde_json::Value, keys: Seq<Seq<char>>) -> Option<Seq<serde_json::Value>> {
    match json_at_path(v, keys) {
        Some(x) => json_items(x),
        None => None,
    }
}

/// The signal array of the sensor data: the first array found under
/// `attributes.raw_json.data.data.signals`, then
/// `attributes.response_json.data.signals`, then `data.signals`.
pub open spec fn hdo_signal_items(json: serde_json::Value) -> Option<Seq<serde_json::Value>> {
    let raw_json_path = seq!["attributes"@, "raw_json"@, "data"@, "data"@, "signals"@];
    let response_json_path = seq!["attributes"@, "response_json"@, "data"@, "signals"@];
    let direct_path = seq!["data"@, "signals"@];
    match json_array_at(json, raw_json_path) {
        Some(a) => Some(a),
        None => match json_array_at(json, response_json_path) {
            Some(a) => Some(a),
            None => json_array_at(json, direct_path),
        },
    }
}

/// The array of signals (see `hdo_signal_items`).
fn find_signals(json: &serde_json::Value) -> (r: Option<&Vec<serde_json::Value>>)
    ensures
        match r {
            Some(a) => hdo_signal_items(*json) == Some(a@),
            None => hdo_signal_items(*json) is None,
        },
{
    let raw_json_path = ["attributes", "raw_json", "data", "data", "signals"];
    assert(key_texts(raw_json_path@) =~= seq!["attributes"@, "raw_json"@, "data"@, "data"@, "signals"@]);
    if let Some(v) = json_path(json, &raw_json_path) {
        if let Some(a) = json_as_array(v) {
            return Some(a);
        }
    }
    let response_json_path = ["attributes", "response_json", "data", "signals"];
    assert(key_texts(response_json_path@) =~= seq!["attributes"@, "response_json"@, "data"@, "signals"@]);
    if let Some(v) = json_path(json, &response_json_path) {
        if let Some(a) = json_as_array(v) {
            return Some(a);
        }
    }
    let direct_path = ["data", "signals"];
    assert(key_texts(direct_path@) =~= seq!["data"@, "signals"@]);
    match json_path(json, &direct_path) {
        Some(v) => json_as_array(v),
        None => None,
    }
}

/// The string under `key` of a JSON object, if there is one.
pub open spec fn json_string_member(v: serde_json::Value, key: Seq<char>) -> Option<Seq<char>> {
    match json_member(v, key) {
        Some(f) => json_text(f),
        None => None,
    }
}

/// The string under `key` of a JSON object, if there is one (see
/// `json_string_member`).
fn json_string_field(v: &serde_json::Value, key: &str) -> (r: Option<String>)
    ensures
        opt_text(r) == json_string_member(*v, key@),
{
    match json_get(v, key) {
        Some(f) => match json_as_str(f) {
            Some(s) => Some(s.to_string()),
            None => None,
        },
        None => None,
    }
}

/// The date and period strings of a signal entry.
pub open spec fn signal_fields(entry: serde_json::Value) -> (Option<Seq<char>>, Option<Seq<char>>) {
    (json_string_member(entry, "datum"@), json_string_member(entry, "casy"@))
}

/// The day schedules that HDO sensor data gives: none for text that is no
/// JSON or holds no signal array; otherwise those of its signal entries
/// (see `schedules_from_signals`).
pub open spec fn sensor_schedules(raw: Seq<char>) -> Seq<(CalendarDate, Seq<HdoTimeRange>)> {
    match json_of_text(raw) {
        None => Seq::empty(),
        Some(json) => match hdo_signal_items(json) {
            None => Seq::empty(),
            Some(items) => schedules_from_signals(items.map_values(|e: serde_json::Value| signal_fields(e))),
        },
    }
}

/// Parses the HDO sensor data (JSON) into day schedules (see
/// `sensor_schedules`).
pub fn parse_hdo_sensor_data(raw_data: &str) -> (r: Vec<HdoDaySchedule>)
    ensures
        schedules_view(r@) == sensor_schedules(raw_data@),
{
    let json = match json_parse(raw_data) {
        Some(j) => j,
        None => {
            let r: Vec<HdoDaySchedule> = Vec::new();
            assert(schedules_view(r@) =~= Seq::<(CalendarDate, Seq<HdoTimeRange>)>::empty());
            return r;
        },
    };
    let signals = match find_signals(&json) {
        Some(a) => a,
        None => {
            let r: Vec<HdoDaySchedule> = Vec::new();
            assert(schedules_view(r@) =~= Seq::<(CalendarDate, Seq<HdoTimeRange>)>::empty());
            return r;
        },
    };
    let ghost fields = signals@.map_values(|e: serde_json::Value| signal_fields(e));
    let mut entries: Vec<HdoSignal> = Vec::new();
    let mut i: usize = 0;
    while i < signals.len()
        invariant
            i <= signals@.len(),
            fields == signals@.map_values(|e: serde_json::Value| signal_fields(e)),
            entries@.map_values(|x: HdoSignal| x@) == fields.take(i as int),
        decreases signals.len() - i,
    {
        let signal = &signals[i];
        let ghost before = entries@.map_values(|x: HdoSignal| x@);
        entries.push(
            HdoSignal {
                datum: json_string_field(signal, "datum"),
                casy: json_string_field(signal, "casy"),
            },
        );
        proof {
            assert(fields[i as int] == signal_fields(signals@[i as int]));
            assert(entries@.map_values(|x: HdoSignal| x@) =~= before.push(entries@.last()@));
            assert(fields.take(i + 1) =~= fields.take(i as int).push(fields[i as int]));
        }
        i = i + 1;
    }
    assert(fields.take(signals@.len() as int) =~= fields);
    hdo_schedules_from_signals(&entries)
}

/// Refreshes the cache from HDO sensor data: the schedules parsed from it
/// replace the cached ones, unless it gives none, in which case the cache
/// is left as it was.
pub fn update_hdo_cache(hdo_cache: &mut HdoCache, raw_data: &str)
    ensures
        final(hdo_cache).ttl() == old(hdo_cache).ttl(),
        sensor_schedules(raw_data@).len() > 0 ==> final(hdo_cache).entries() == sensor_schedules(raw_data@),
        sensor_schedules(raw_data@).len() > 0 ==> (final(hdo_cache).refreshed_at() matches Some(t) && t.wf()),
        sensor_schedules(raw_data@).len() == 0 ==> final(hdo_cache).entries() == old(hdo_cache).entries()
            && final(hdo_cache).refreshed_at() == old(hdo_cache).refreshed_at(),
{
    let schedules = parse_hdo_sensor_data(raw_data);
    if schedules.len() > 0 {
        hdo_cache.update(schedules);
    }
}

} // verus!
