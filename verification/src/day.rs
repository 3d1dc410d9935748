//! Calendar days, counted as in the proleptic Gregorian calendar from
//! 0001-01-01 (day 1). The calendar arithmetic itself is chrono's.

use chrono::Datelike;
use chrono::NaiveDate;
use vstd::prelude::*;

verus! {

/// Earliest year that a calendar day can carry.
pub const MIN_YEAR: i32 = -262143;

/// Latest year that a calendar day can carry.
pub const MAX_YEAR: i32 = 262142;

/// Day number of the earliest representable day, -262143-01-01.
pub const MIN_CE: i32 = -95746129;

/// Day number of the latest representable day, 262142-12-31.
pub const MAX_CE: i32 = 95745399;

/// A calendar day, held as its day number: 0001-01-01 is day 1, and the
/// number grows by one from each day to the next.
#[derive(Clone, Copy, Debug, PartialEq, Eq, Hash)]
pub struct Day {
    pub ce: i32,
}

pub open spec fn is_leap_year(y: int) -> bool {
    (y % 4 == 0 && y % 100 != 0) || y % 400 == 0
}

pub open spec fn days_in_month(y: int, m: int) -> int {
    if m == 2 {
        if is_leap_year(y) { 29 } else { 28 }
    } else if m == 4 || m == 6 || m == 9 || m == 11 {
        30
    } else {
        31
    }
}

/// Days of the year `y` that come before the first of month `m`.
pub open spec fn days_before_month(y: int, m: int) -> int {
    let common: int = if m <= 1 { 0 } else if m == 2 { 31 } else if m == 3 { 59 } else if m == 4 { 90 }
        else if m == 5 { 120 } else if m == 6 { 151 } else if m == 7 { 181 } else if m == 8 { 212 }
        else if m == 9 { 243 } else if m == 10 { 273 } else if m == 11 { 304 } else { 334 };
    if m > 2 && is_leap_year(y) { common + 1 } else { common }
}

/// Days from 0001-01-01 to the first of January of year `y`.
pub open spec fn days_before_year(y: int) -> int {
    let p = y - 1;
    365 * p + p / 4 - p / 100 + p / 400
}

/// Whether `y-m-d` names a day of the calendar that a `Day` can carry.
pub open spec fn civil_valid(y: int, m: int, d: int) -> bool {
    &&& MIN_YEAR <= y <= MAX_YEAR
    &&& 1 <= m <= 12
    &&& 1 <= d <= days_in_month(y, m)
}

/// The day number of `y-m-d`.
pub open spec fn civil_ce(y: int, m: int, d: int) -> int {
    days_before_year(y) + days_before_month(y, m) + d
}

impl Day {
    /// The day lies in the range of the calendar.
    pub open spec fn valid(self) -> bool {
        MIN_CE <= self.ce <= MAX_CE
    }

    /// The day `y-m-d`, or `None` where no such day exists.
    pub fn from_ymd(y: i32, m: u32, d: u32) -> (r: Option<Day>)
        ensures
            r is Some <==> civil_valid(y as int, m as int, d as int),
            r matches Some(day) ==> day.ce == civil_ce(y as int, m as int, d as int) && day.valid(),
    {
        chrono_from_ymd(y, m, d)
    }

    /// The day of the given day number, or `None` outside the calendar.
    pub fn from_ce(n: i32) -> (r: Option<Day>)
        ensures
            r == (if MIN_CE <= n <= MAX_CE { Some(Day { ce: n }) } else { None::<Day> }),
    {
        if MIN_CE <= n && n <= MAX_CE {
            Some(Day { ce: n })
        } else {
            None
        }
    }

    /// The next day, `None` on the last day of the calendar.
    pub fn succ_opt(self) -> (r: Option<Day>)
        requires
            self.valid(),
        ensures
            r == (if self.ce < MAX_CE { Some(Day { ce: (self.ce + 1) as i32 }) } else { None::<Day> }),
    {
        chrono_succ(self)
    }

    /// The previous day, `None` on the first day of the calendar.
    pub fn pred_opt(self) -> (r: Option<Day>)
        requires
            self.valid(),
        ensures
            r == (if self.ce > MIN_CE { Some(Day { ce: (self.ce - 1) as i32 }) } else { None::<Day> }),
    {
        chrono_pred(self)
    }
}

/// Whether two optional days are the same.
pub(crate) fn same_day_opt(x: Option<Day>, y: Option<Day>) -> (r: bool)
    ensures
        r == (x == y),
{
    match (x, y) {
        (None, None) => true,
        (Some(p), Some(q)) => p.ce == q.ce,
        _ => false,
    }
}

/// Calls chrono's `NaiveDate::from_ymd_opt` and reads back the day number with
/// `num_days_from_ce`. Claimed: chrono accepts exactly the proleptic Gregorian
/// dates of years `MIN_YEAR..=MAX_YEAR`, and numbers them from 0001-01-01 = 1.
#[verifier::external_body]
fn chrono_from_ymd(y: i32, m: u32, d: u32) -> (r: Option<Day>)
    ensures
        r is Some <==> civil_valid(y as int, m as int, d as int),
        r matches Some(day) ==> day.ce == civil_ce(y as int, m as int, d as int) && day.valid(),
{
    match NaiveDate::from_ymd_opt(y, m, d) {
        Some(date) => Some(Day { ce: date.num_days_from_ce() }),
        None => None,
    }
}

/// Calls chrono's `NaiveDate::succ_opt` on the day (built with
/// `from_num_days_from_ce_opt`). Claimed: the next day number, and `None` on
/// chrono's last day, `NaiveDate::MAX`.
#[verifier::external_body]
fn chrono_succ(d: Day) -> (r: Option<Day>)
    requires
        d.valid(),
    ensures
        r == (if d.ce < MAX_CE { Some(Day { ce: (d.ce + 1) as i32 }) } else { None::<Day> }),
{
    match NaiveDate::from_num_days_from_ce_opt(d.ce) {
        Some(date) => match date.succ_opt() {
            Some(next) => Some(Day { ce: next.num_days_from_ce() }),
            None => None,
        },
        None => None,
    }
}

/// Calls chrono's `NaiveDate::pred_opt` on the day (built with
/// `from_num_days_from_ce_opt`). Claimed: the previous day number, and `None` on
/// chrono's first day, `NaiveDate::MIN`.
#[verifier::external_body]
fn chrono_pred(d: Day) -> (r: Option<Day>)
    requires
        d.valid(),
    ensures
        r == (if d.ce > MIN_CE { Some(Day { ce: (d.ce - 1) as i32 }) } else { None::<Day> }),
{
    match NaiveDate::from_num_days_from_ce_opt(d.ce) {
        Some(date) => match date.pred_opt() {
            Some(prev) => Some(Day { ce: prev.num_days_from_ce() }),
            None => None,
        },
        None => None,
    }
}

} // verus!
