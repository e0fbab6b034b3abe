//! Calendar days, and the calls into chrono that compute with them.

use chrono::Datelike;
use chrono::NaiveDate;
use vstd::prelude::*;

verus! {

/// The first year that chrono's `NaiveDate` can hold.
pub const MIN_YEAR: i32 = -262143;

/// The last year that chrono's `NaiveDate` can hold.
pub const MAX_YEAR: i32 = 262142;

/// A day of the proleptic Gregorian calendar, without a time of day.
#[derive(Debug, Clone, Copy, PartialEq, Eq, Structural, Hash)]
pub struct Date {
    pub year: i32,
    pub month: u32,
    pub day: u32,
}

pub open spec fn is_leap_year(year: int) -> bool {
    year % 4 == 0 && (year % 100 != 0 || year % 400 == 0)
}

pub open spec fn days_in_month(year: int, month: int) -> int {
    if month == 2 {
        if is_leap_year(year) {
            29
        } else {
            28
        }
    } else if month == 4 || month == 6 || month == 9 || month == 11 {
        30
    } else {
        31
    }
}

/// A day that exists, in a year that chrono can hold.
pub open spec fn is_calendar_date(year: int, month: int, day: int) -> bool {
    &&& MIN_YEAR <= year <= MAX_YEAR
    &&& 1 <= month <= 12
    &&& 1 <= day <= days_in_month(year, month)
}

/// The date that a triple of year, month and day names, if any.
pub open spec fn date_of_fields(f: Option<(i32, u32, u32)>) -> Option<Date> {
    match f {
        Some(t) => Some(Date { year: t.0, month: t.1, day: t.2 }),
        None => None,
    }
}

/// The calendar day before `d`; none before the first day that chrono holds.
pub open spec fn day_before(d: Date) -> Option<Date> {
    if d.day > 1 {
        Some(Date { year: d.year, month: d.month, day: (d.day - 1) as u32 })
    } else if d.month > 1 {
        Some(
            Date {
                year: d.year,
                month: (d.month - 1) as u32,
                day: days_in_month(d.year as int, d.month - 1) as u32,
            },
        )
    } else if d.year > MIN_YEAR {
        Some(Date { year: (d.year - 1) as i32, month: 12, day: 31 })
    } else {
        None
    }
}

impl Date {
    pub open spec fn wf(self) -> bool {
        is_calendar_date(self.year as int, self.month as int, self.day as int)
    }

    /// `self` comes strictly before `other` in time.
    pub open spec fn spec_before(self, other: Date) -> bool {
        ||| self.year < other.year
        ||| self.year == other.year && self.month < other.month
        ||| self.year == other.year && self.month == other.month && self.day < other.day
    }

    pub fn is_before(&self, other: &Date) -> (r: bool)
        ensures
            r == self.spec_before(*other),
    {
        if self.year != other.year {
            self.year < other.year
        } else if self.month != other.month {
            self.month < other.month
        } else {
            self.day < other.day
        }
    }
}

/// The name for what chrono's `NaiveDate::parse_from_str` reads from a text in
/// a layout: year, month and day, or nothing.
pub uninterp spec fn parsed_ymd(s: Seq<char>, fmt: Seq<char>) -> Option<(i32, u32, u32)>;

/// Relies on chrono's `NaiveDate::from_ymd_opt`: a date exists exactly for a
/// day of the calendar in a year that chrono holds, and keeps the fields given.
#[verifier::external_body]
pub(crate) fn from_ymd_opt(year: i32, month: u32, day: u32) -> (r: Option<Date>)
    ensures
        r == (if is_calendar_date(year as int, month as int, day as int) {
            Some(Date { year, month, day })
        } else {
            None
        }),
{
    NaiveDate::from_ymd_opt(year, month, day).map(
        |d| Date { year: d.year(), month: d.month(), day: d.day() },
    )
}

/// Relies on chrono's `NaiveDate::pred_opt`: the calendar day before, none
/// before chrono's first date. `d` reaches chrono through `NaiveDate::from_ymd_opt`.
#[verifier::external_body]
pub(crate) fn pred_opt(d: Date) -> (r: Option<Date>)
    requires
        d.wf(),
    ensures
        r == day_before(d),
{
    NaiveDate::from_ymd_opt(d.year, d.month, d.day).and_then(|n| n.pred_opt()).map(
        |p| Date { year: p.year(), month: p.month(), day: p.day() },
    )
}

/// Relies on chrono's `NaiveDate::parse_from_str`: the date that `s` names in
/// the layout `fmt` (time of day and offset read and then left out), if any.
/// A date that chrono returns is a valid one.
#[verifier::external_body]
pub(crate) fn parse_from_str(s: &str, fmt: &str) -> (r: Option<Date>)
    ensures
        r == date_of_fields(parsed_ymd(s@, fmt@)),
        r matches Some(d) ==> d.wf(),
{
    NaiveDate::parse_from_str(s, fmt).ok().map(
        |d| Date { year: d.year(), month: d.month(), day: d.day() },
    )
}

} // verus!
