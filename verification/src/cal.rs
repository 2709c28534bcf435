//! Calendar validation of the header's start date and time, through chrono.

use vstd::prelude::*;

verus! {

/// Proleptic Gregorian leap year.
pub open spec fn is_leap_year(y: int) -> bool {
    y % 4 == 0 && (y % 100 != 0 || y % 400 == 0)
}

/// Days in a month of the proleptic Gregorian calendar; 0 for an invalid
/// month number.
pub open spec fn days_in_month(y: int, m: int) -> int {
    if m == 1 || m == 3 || m == 5 || m == 7 || m == 8 || m == 10 || m == 12 {
        31
    } else if m == 4 || m == 6 || m == 9 || m == 11 {
        30
    } else if m == 2 {
        if is_leap_year(y) {
            29
        } else {
            28
        }
    } else {
        0
    }
}

/// The calendar dates that chrono's `NaiveDate` can hold: a proleptic
/// Gregorian date whose year lies within its supported range.
pub open spec fn valid_date(y: int, m: int, d: int) -> bool {
    -262143 <= y <= 262142 && 1 <= m <= 12 && 1 <= d <= days_in_month(y, m)
}

/// The times of day that chrono's `NaiveTime` can hold (no leap second).
pub open spec fn valid_time(h: int, m: int, s: int) -> bool {
    0 <= h <= 23 && 0 <= m <= 59 && 0 <= s <= 59
}

/// Relies on chrono::NaiveDate::from_ymd_opt: it returns Some exactly for a
/// valid proleptic Gregorian calendar date whose year is within chrono's
/// supported range.
#[verifier::external_body]
pub(crate) fn chrono_ymd_valid(y: i32, m: u32, d: u32) -> (r: bool)
    ensures
        r == valid_date(y as int, m as int, d as int),
{
    chrono::NaiveDate::from_ymd_opt(y, m, d).is_some()
}

/// Relies on chrono::NaiveTime::from_hms_opt: it returns Some exactly for
/// hours below 24 and minutes and seconds below 60.
#[verifier::external_body]
pub(crate) fn chrono_hms_valid(h: u32, m: u32, s: u32) -> (r: bool)
    ensures
        r == valid_time(h as int, m as int, s as int),
{
    chrono::NaiveTime::from_hms_opt(h, m, s).is_some()
}

} // verus!
