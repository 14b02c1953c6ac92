//! Calendar dates and times of day.
use chrono::{Datelike, Timelike};
use vstd::prelude::*;

verus! {

/// The weekday of the proleptic Gregorian date `year-month-day`, counted from
/// Monday (0) to Sunday (6), or `None` when no such date exists.
pub uninterp spec fn weekday_of(year: int, month: int, day: int) -> Option<int>;

/// Relies on chrono's `NaiveDate::from_ymd_opt`, which yields `None` when the
/// date does not exist, and `Datelike::weekday` with
/// `Weekday::num_days_from_monday`, which counts Monday as 0 and Sunday as 6.
#[verifier::external_body]
fn calendar_weekday(year: i32, month: u32, day: u32) -> (r: Option<u8>)
    ensures
        r matches Some(w) ==> weekday_of(year as int, month as int, day as int) == Some(
            w as int,
        ) && w < 7,
        r is None ==> weekday_of(year as int, month as int, day as int) is None,
{
    match chrono::NaiveDate::from_ymd_opt(year, month, day) {
        Some(d) => Some(d.weekday().num_days_from_monday() as u8),
        None => None,
    }
}

/// A calendar date together with its weekday (Monday is 0, Sunday is 6).
#[derive(Clone, Copy, Debug, PartialEq, Eq, Structural)]
pub struct Date {
    pub year: i32,
    pub month: u32,
    pub day: u32,
    pub weekday: u8,
}

impl Date {
    /// The weekday field is the weekday of the calendar date.
    pub open spec fn wf(self) -> bool {
        weekday_of(self.year as int, self.month as int, self.day as int) == Some(
            self.weekday as int,
        )
    }

    /// Chronological order: by year, then month, then day.
    pub open spec fn spec_le(self, other: Date) -> bool {
        self.year < other.year || (self.year == other.year && (self.month < other.month || (
        self.month == other.month && self.day <= other.day)))
    }

    /// The date `year-month-day`, or `None` when the calendar has no such day.
    pub fn from_ymd(year: i32, month: u32, day: u32) -> (r: Option<Date>)
        ensures
            r is Some <==> weekday_of(year as int, month as int, day as int) is Some,
            r matches Some(d) ==> d.wf() && d.year == year && d.month == month && d.day == day
                && d.weekday < 7,
    {
        match calendar_weekday(year, month, day) {
            Some(w) => Some(Date { year, month, day, weekday: w }),
            None => None,
        }
    }

    /// Whether `self` falls on or before `other`.
    pub fn is_on_or_before(&self, other: &Date) -> (r: bool)
        ensures
            r == self.spec_le(*other),
    {
        self.year < other.year || (self.year == other.year && (self.month < other.month || (
        self.month == other.month && self.day <= other.day)))
    }
}

/// Number of seconds in a day.
pub const SECONDS_PER_DAY: u32 = 86400;

/// A time of day, in seconds after midnight.
#[derive(Clone, Copy, Debug, PartialEq, Eq, Structural)]
pub struct TimeOfDay {
    pub seconds: u32,
}

impl TimeOfDay {
    pub open spec fn wf(self) -> bool {
        self.seconds < SECONDS_PER_DAY
    }

    /// The time `seconds` after midnight, or `None` from a full day on.
    pub fn from_seconds(seconds: u32) -> (r: Option<TimeOfDay>)
        ensures
            r is Some <==> seconds < SECONDS_PER_DAY,
            r matches Some(t) ==> t.seconds == seconds && t.wf(),
    {
        if seconds < SECONDS_PER_DAY {
            Some(TimeOfDay { seconds })
        } else {
            None
        }
    }

    pub fn hour(&self) -> (r: u32)
        ensures
            r == self.seconds / 3600,
    {
        self.seconds / 3600
    }

    pub fn minute(&self) -> (r: u32)
        ensures
            r == (self.seconds % 3600) / 60,
    {
        (self.seconds % 3600) / 60
    }
}

/// Relies on chrono's `Local::now` and `DateTime::naive_local`: the local
/// date as year, month and day with its weekday (`Datelike`, Monday counted
/// 0), and the seconds since midnight (`Timelike::num_seconds_from_midnight`,
/// below a full day).
#[verifier::external_body]
fn local_now() -> (r: (i32, u32, u32, u8, u32))
    ensures
        weekday_of(r.0 as int, r.1 as int, r.2 as int) == Some(r.3 as int),
        r.3 < 7,
        r.4 < SECONDS_PER_DAY,
{
    let now = chrono::Local::now().naive_local();
    (
        now.year(),
        now.month(),
        now.day(),
        now.weekday().num_days_from_monday() as u8,
        now.num_seconds_from_midnight(),
    )
}

/// The local date and time of day now.
pub fn now() -> (r: (Date, TimeOfDay))
    ensures
        r.0.wf(),
        r.0.weekday < 7,
        r.1.wf(),
{
    let (year, month, day, weekday, seconds) = local_now();
    (Date { year, month, day, weekday }, TimeOfDay { seconds })
}

} // verus!
