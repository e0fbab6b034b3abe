//! The last day of a year or of a month, the keys of the periods.

use crate::date::{days_in_month, from_ymd_opt, pred_opt, Date, MAX_YEAR, MIN_YEAR};
use vstd::prelude::*;

verus! {

/// The last day of a year: December 31.
pub open spec fn year_end(year: i32) -> Date {
    Date { year, month: 12, day: 31 }
}

/// The last day of a month of a year.
pub open spec fn month_end(year: i32, month: u32) -> Date {
    Date { year, month, day: days_in_month(year as int, month as int) as u32 }
}

/// The first day of the year after `year` is one that chrono holds.
pub open spec fn year_end_in_range(year: i32) -> bool {
    MIN_YEAR <= year < MAX_YEAR
}

/// The first day of the month after `month` is one that chrono holds.
pub open spec fn month_end_in_range(year: i32, month: u32) -> bool {
    &&& 1 <= month <= 12
    &&& MIN_YEAR <= year <= MAX_YEAR
    &&& month == 12 ==> year < MAX_YEAR
}

/// The last day of `year`, found as the day before January 1 of the next year.
pub fn last_day_of_year(year: i32) -> (r: Date)
    requires
        year_end_in_range(year),
    ensures
        r == year_end(year),
        r.wf(),
{
    let first = from_ymd_opt(year + 1, 1, 1).unwrap();
    pred_opt(first).unwrap()
}

/// The last day of `month` in `year`, found as the day before the first day of
/// the next month.
pub fn last_day_of_month(year: i32, month: u32) -> (r: Date)
    requires
        month_end_in_range(year, month),
    ensures
        r == month_end(year, month),
        r.wf(),
{
    let first = if month == 12 {
        from_ymd_opt(year + 1, 1, 1)
    } else {
        from_ymd_opt(year, month + 1, 1)
    };
    pred_opt(first.unwrap()).unwrap()
}

} // verus!
