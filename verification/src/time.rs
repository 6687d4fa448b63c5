//! Calendar dates, times of day and UTC date-times as plain values.
//!
//! The calendar rules are those of `chrono`, which the constructors consult;
//! elapsed time between two date-times is measured by `chrono` as well.

use vstd::prelude::*;
use chrono::{Datelike, Timelike};

verus! {

#[verifier::external_type_specification]
#[verifier::external_body]
pub struct ExNaiveDate(chrono::NaiveDate);

#[verifier::external_type_specification]
#[verifier::external_body]
pub struct ExNaiveTime(chrono::NaiveTime);

/// Whether `y` is a leap year of the proleptic Gregorian calendar.
pub open spec fn is_leap_year(y: int) -> bool {
    (y % 4 == 0 && y % 100 != 0) || y % 400 == 0
}

/// The number of days of month `m` (1 to 12) of year `y`.
pub open spec fn days_in_month(y: int, m: int) -> int {
    if m == 2 {
        if is_leap_year(y) {
            29
        } else {
            28
        }
    } else if m == 4 || m == 6 || m == 9 || m == 11 {
        30
    } else {
        31
    }
}

/// The smallest year that a calendar date can have.
pub const MIN_YEAR: i32 = -262143;

/// The largest year that a calendar date can have.
pub const MAX_YEAR: i32 = 262142;

/// Whether year, month and day name an existing date in the supported range.
pub open spec fn date_fields_valid(year: int, month: int, day: int) -> bool {
    &&& MIN_YEAR <= year <= MAX_YEAR
    &&& 1 <= month <= 12
    &&& 1 <= day <= days_in_month(year, month)
}

/// Whether hour, minute, second and nanosecond name a time of day; a
/// nanosecond count of a second or more marks a leap second, which only
/// the 59th second of a minute may hold.
pub open spec fn time_fields_valid(hour: int, min: int, sec: int, nano: int) -> bool {
    &&& 0 <= hour < 24
    &&& 0 <= min < 60
    &&& 0 <= sec < 60
    &&& 0 <= nano < 2_000_000_000
    &&& (nano >= 1_000_000_000 ==> sec == 59)
}

/// `chrono::NaiveDate::from_ymd_opt`: it gives a date exactly when the
/// fields name an existing date between `MIN_YEAR` and `MAX_YEAR`.
#[verifier::external_body]
fn chrono_date_from_ymd(year: i32, month: u32, day: u32) -> (r: Option<chrono::NaiveDate>)
    ensures
        r is Some <==> date_fields_valid(year as int, month as int, day as int),
{
    chrono::NaiveDate::from_ymd_opt(year, month, day)
}

/// `chrono::NaiveTime::from_hms_nano_opt`: it gives a time exactly when the
/// fields name a time of day (see `time_fields_valid`).
#[verifier::external_body]
fn chrono_time_from_hms_nano(hour: u32, min: u32, sec: u32, nano: u32) -> (r: Option<
    chrono::NaiveTime,
>)
    ensures
        r is Some <==> time_fields_valid(hour as int, min as int, sec as int, nano as int),
{
    chrono::NaiveTime::from_hms_nano_opt(hour, min, sec, nano)
}

/// A calendar date (the library's counterpart of `chrono::NaiveDate`).
#[derive(Debug, Clone, Copy, PartialEq, Eq, Structural)]
pub struct CalendarDate {
    pub year: i32,
    /// 1 to 12
    pub month: u32,
    /// 1 to the length of the month
    pub day: u32,
}

impl CalendarDate {
    /// Whether the date exists.
    pub open spec fn wf(self) -> bool {
        date_fields_valid(self.year as int, self.month as int, self.day as int)
    }

    /// The date with the given fields, if it exists.
    pub fn from_ymd_opt(year: i32, month: u32, day: u32) -> (r: Option<CalendarDate>)
        ensures
            r is Some <==> date_fields_valid(year as int, month as int, day as int),
            r matches Some(d) ==> d == (CalendarDate { year, month, day }),
    {
        match chrono_date_from_ymd(year, month, day) {
            Some(_) => Some(CalendarDate { year, month, day }),
            None => None,
        }
    }
}

/// A time of day (the library's counterpart of `chrono::NaiveTime`): whole
/// seconds since midnight and the nanoseconds past them.
#[derive(Debug, Clone, Copy, PartialEq, Eq, Structural)]
pub struct TimeOfDay {
    /// 0 to 86399
    pub secs: u32,
    /// below 2_000_000_000; a second or more only during a leap second
    pub nano: u32,
}

/// The time of day with the given fields, as a value.
pub open spec fn time_of_day(hour: int, min: int, sec: int, nano: int) -> TimeOfDay {
    TimeOfDay { secs: (hour * 3600 + min * 60 + sec) as u32, nano: nano as u32 }
}

/// Whether `a` is no later than `b` within a day.
pub open spec fn time_le(a: TimeOfDay, b: TimeOfDay) -> bool {
    a.secs < b.secs || (a.secs == b.secs && a.nano <= b.nano)
}

impl TimeOfDay {
    /// Whether the value is a time of day.
    pub open spec fn wf(self) -> bool {
        &&& self.secs < 86400
        &&& self.nano < 2_000_000_000
        &&& (self.nano >= 1_000_000_000 ==> self.secs % 60 == 59)
    }

    /// The time with the given hour, minute, second and nanosecond, if it is
    /// one.
    pub fn from_hms_nano_opt(hour: u32, min: u32, sec: u32, nano: u32) -> (r: Option<TimeOfDay>)
        ensures
            r is Some <==> time_fields_valid(hour as int, min as int, sec as int, nano as int),
            r matches Some(t) ==> t == time_of_day(hour as int, min as int, sec as int, nano as int)
                && t.wf(),
    {
        match chrono_time_from_hms_nano(hour, min, sec, nano) {
            Some(_) => Some(TimeOfDay { secs: hour * 3600 + min * 60 + sec, nano }),
            None => None,
        }
    }

    /// The time with the given hour, minute and second, if it is one.
    pub fn from_hms_opt(hour: u32, min: u32, sec: u32) -> (r: Option<TimeOfDay>)
        ensures
            r is Some <==> time_fields_valid(hour as int, min as int, sec as int, 0),
            r matches Some(t) ==> t == time_of_day(hour as int, min as int, sec as int, 0)
                && t.wf(),
    {
        TimeOfDay::from_hms_nano_opt(hour, min, sec, 0)
    }

    /// The hour (0 to 23).
    pub fn hour(&self) -> (r: u32)
        ensures
            r == self.secs / 3600,
    {
        self.secs / 3600
    }

    /// Whether this time is no later than `other`.
    pub fn le(&self, other: &TimeOfDay) -> (r: bool)
        ensures
            r == time_le(*self, *other),
    {
        self.secs < other.secs || (self.secs == other.secs && self.nano <= other.nano)
    }
}

/// A UTC date-time (the library's counterpart of `chrono::DateTime<Utc>`).
#[derive(Debug, Clone, Copy, PartialEq, Eq, Structural)]
pub struct UtcDateTime {
    pub date: CalendarDate,
    pub time: TimeOfDay,
}

/// Whether `a` is no later than `b`.
pub open spec fn utc_le(a: UtcDateTime, b: UtcDateTime) -> bool {
    ||| a.date.year < b.date.year
    ||| (a.date.year == b.date.year && a.date.month < b.date.month)
    ||| (a.date.year == b.date.year && a.date.month == b.date.month && a.date.day < b.date.day)
    ||| (a.date == b.date && time_le(a.time, b.time))
}

/// The number of a day of the proleptic Gregorian calendar: consecutive
/// days have consecutive numbers.
pub open spec fn day_number(year: int, month: int, day: int) -> int {
    let y = if month <= 2 {
        year - 1
    } else {
        year
    };
    let era = y / 400;
    let year_of_era = y - era * 400;
    let shifted_month = if month > 2 {
        month - 3
    } else {
        month + 9
    };
    let day_of_year = (153 * shifted_month + 2) / 5 + day - 1;
    era * 146097 + year_of_era * 365 + year_of_era / 4 - year_of_era / 100 + day_of_year
}

/// The nanoseconds from `earlier` to `later` as `chrono` counts them: the
/// days between the dates, the seconds between the times (a leap second
/// that is passed counts as one more), and the nanoseconds.
pub open spec fn nanos_between(earlier: UtcDateTime, later: UtcDateTime) -> int {
    let days = day_number(later.date.year as int, later.date.month as int, later.date.day as int)
        - day_number(earlier.date.year as int, earlier.date.month as int, earlier.date.day as int);
    let adjust: int = if later.time.secs > earlier.time.secs && earlier.time.nano >= 1_000_000_000 {
        1
    } else if later.time.secs < earlier.time.secs && later.time.nano >= 1_000_000_000 {
        -1
    } else {
        0
    };
    (days * 86400 + later.time.secs - earlier.time.secs + adjust) * 1_000_000_000 + later.time.nano
        - earlier.time.nano
}

/// The whole seconds from `earlier` to `later` as `chrono` measures them
/// (`signed_duration_since` and then `num_seconds`): the nanoseconds
/// between them in whole seconds, rounded towards zero.
pub open spec fn whole_seconds_between(earlier: UtcDateTime, later: UtcDateTime) -> int {
    let n = nanos_between(earlier, later);
    if n >= 0 {
        n / 1_000_000_000
    } else {
        -((-n) / 1_000_000_000)
    }
}

/// `chrono::DateTime::signed_duration_since`, taken in whole seconds by
/// `TimeDelta::num_seconds`: its result is `whole_seconds_between`.
#[verifier::external_body]
fn chrono_whole_seconds_between(earlier: &UtcDateTime, later: &UtcDateTime) -> (r: i64)
    requires
        earlier.wf(),
        later.wf(),
    ensures
        r as int == whole_seconds_between(*earlier, *later),
{
    let to_chrono = |d: &UtcDateTime| {
        let date = chrono::NaiveDate::from_ymd_opt(d.date.year, d.date.month, d.date.day).unwrap();
        let time = chrono::NaiveTime::from_num_seconds_from_midnight_opt(d.time.secs, d.time.nano).unwrap();
        chrono::NaiveDateTime::new(date, time).and_utc()
    };
    to_chrono(later).signed_duration_since(to_chrono(earlier)).num_seconds()
}

/// `chrono::Utc::now`, taken apart into calendar fields; every outcome is
/// a valid date-time.
#[verifier::external_body]
fn chrono_utc_now() -> (r: UtcDateTime)
    ensures
        r.wf(),
{
    let now = chrono::Utc::now().naive_utc();
    UtcDateTime {
        date: CalendarDate { year: now.year(), month: now.month(), day: now.day() },
        time: TimeOfDay { secs: now.num_seconds_from_midnight(), nano: now.nanosecond() },
    }
}

impl UtcDateTime {
    /// Whether the value is a date-time.
    pub open spec fn wf(self) -> bool {
        self.date.wf() && self.time.wf()
    }

    /// The date-time with the given fields, if they name one.
    pub fn from_ymd_hms_opt(year: i32, month: u32, day: u32, hour: u32, min: u32, sec: u32) -> (r:
        Option<UtcDateTime>)
        ensures
            r is Some <==> date_fields_valid(year as int, month as int, day as int)
                && time_fields_valid(hour as int, min as int, sec as int, 0),
            r matches Some(t) ==> t.wf() && t.date == (CalendarDate { year, month, day })
                && t.time == time_of_day(hour as int, min as int, sec as int, 0),
    {
        match CalendarDate::from_ymd_opt(year, month, day) {
            Some(date) => match TimeOfDay::from_hms_opt(hour, min, sec) {
                Some(time) => Some(UtcDateTime { date, time }),
                None => None,
            },
            None => None,
        }
    }

    /// The current date-time.
    pub fn now() -> (r: UtcDateTime)
        ensures
            r.wf(),
    {
        chrono_utc_now()
    }

    /// Whether this date-time is no later than `other`.
    pub fn le(&self, other: &UtcDateTime) -> (r: bool)
        ensures
            r == utc_le(*self, *other),
    {
        if self.date.year != other.date.year {
            self.date.year < other.date.year
        } else if self.date.month != other.date.month {
            self.date.month < other.date.month
        } else if self.date.day != other.date.day {
            self.date.day < other.date.day
        } else {
            self.time.le(&other.time)
        }
    }

    /// The whole seconds elapsed from `earlier` to this date-time (negative
    /// when `earlier` is later).
    pub fn whole_seconds_since(&self, earlier: &UtcDateTime) -> (r: i64)
        requires
            self.wf(),
            earlier.wf(),
        ensures
            r as int == whole_seconds_between(*earlier, *self),
            *earlier == *self ==> r == 0,
    {
        chrono_whole_seconds_between(earlier, self)
    }
}

} // verus!
