//! Calendar date of a Unix timestamp (UTC, proleptic Gregorian), used to
//! lay out the telemetry files by day.

use vstd::prelude::*;

verus! {

pub open spec fn is_leap(y: int) -> bool {
    (y % 4 == 0 && y % 100 != 0) || y % 400 == 0
}

pub open spec fn year_len(y: int) -> int {
    if is_leap(y) {
        366
    } else {
        365
    }
}

pub open spec fn month_len(m: int, leap: bool) -> int {
    if m == 1 {
        if leap {
            29
        } else {
            28
        }
    } else if m == 3 || m == 5 || m == 8 || m == 10 {
        30
    } else {
        31
    }
}

/// The year in which day `days` (counted from 1 January of `y`, from 0)
/// falls, and the day's index within that year.
pub open spec fn year_of(days: int, y: int) -> (int, int)
    decreases days,
{
    if days < year_len(y) {
        (y, days)
    } else {
        year_of(days - year_len(y), y + 1)
    }
}

/// The month (from 0) in which day `doy` of a year falls, counting from
/// month `m`, and the day's index within that month.
pub open spec fn month_of(doy: int, leap: bool, m: int) -> (int, int)
    decreases 12 - m,
{
    if m >= 11 || doy < month_len(m, leap) {
        (m, doy)
    } else {
        month_of(doy - month_len(m, leap), leap, m + 1)
    }
}

/// Year, month (1 to 12) and day (1 to 31) of the day that holds `t`.
pub open spec fn date_of(t: int) -> (int, int, int) {
    let (y, doy) = year_of(t / 86400, 1970);
    let (m, d) = month_of(doy, is_leap(y), 0);
    (y, m + 1, d + 1)
}

/// The largest timestamp whose year fits in an `i32`.
pub const MAX_TIMESTAMP: i64 = 60_000_000_000_000_000;

pub fn is_leap_year(year: i32) -> (r: bool)
    ensures
        r == is_leap(year as int),
{
    (year % 4 == 0 && year % 100 != 0) || (year % 400 == 0)
}

fn year_days(year: i32) -> (r: i64)
    ensures
        r == year_len(year as int),
{
    if is_leap_year(year) {
        366
    } else {
        365
    }
}

fn month_days(month: u32, leap: bool) -> (r: i64)
    ensures
        r == month_len(month as int, leap),
{
    if month == 1 {
        if leap {
            29
        } else {
            28
        }
    } else if month == 3 || month == 5 || month == 8 || month == 10 {
        30
    } else {
        31
    }
}

/// Year, month and day of a timestamp.
pub fn date_parts(timestamp: i64) -> (r: (i32, u32, u32))
    requires
        0 <= timestamp <= MAX_TIMESTAMP,
    ensures
        (r.0 as int, r.1 as int, r.2 as int) == date_of(timestamp as int),
        1 <= r.1 <= 12,
{
    let days_since_epoch = timestamp / 86400;
    let mut year: i32 = 1970;
    let mut remaining_days: i64 = days_since_epoch;
    while remaining_days >= year_days(year)
        invariant
            0 <= remaining_days <= days_since_epoch,
            days_since_epoch == timestamp / 86400,
            days_since_epoch <= MAX_TIMESTAMP / 86400,
            1970 <= year,
            (year - 1970) * 365 + remaining_days <= days_since_epoch,
            year_of(remaining_days as int, year as int) == year_of(days_since_epoch as int, 1970),
        decreases remaining_days,
    {
        remaining_days = remaining_days - year_days(year);
        year = year + 1;
    }
    let leap = is_leap_year(year);
    let ghost doy = remaining_days as int;
    let mut month: u32 = 0;
    let mut rest: i64 = remaining_days;
    while month < 11 && rest >= month_days(month, leap)
        invariant
            month <= 11,
            0 <= rest <= doy,
            leap == is_leap(year as int),
            month_of(rest as int, leap, month as int) == month_of(doy, leap, 0),
        decreases 11 - month,
    {
        rest = rest - month_days(month, leap);
        month = month + 1;
    }
    (year, month + 1, (rest + 1) as u32)
}

} // verus!
