//! Calendar dates and the week cursor of the scheduling feed.
use chrono::Datelike;
use vstd::prelude::*;

use crate::anita::AnitaError;
use crate::text::{int_text, push_char, push_decimal, push_int, two_digit_text};

verus! {

/// The earliest year that chrono's `NaiveDate` can hold.
pub const MIN_YEAR: i32 = -262143;

/// The latest year that chrono's `NaiveDate` can hold.
pub const MAX_YEAR: i32 = 262142;

/// A calendar date in the proleptic Gregorian calendar.
#[derive(Debug, Clone, Copy, PartialEq, Eq, Structural)]
pub struct Date {
    pub year: i32,
    pub month: u32,
    pub day: u32,
}

/// A leap year of the proleptic Gregorian calendar.
pub open spec fn is_leap_year(y: int) -> bool {
    (y % 4 == 0 && y % 100 != 0) || y % 400 == 0
}

/// The number of days of month `m` (1 to 12) of year `y`.
pub open spec fn days_in_month(y: int, m: int) -> int {
    if m == 2 {
        if is_leap_year(y) { 29 } else { 28 }
    } else if m == 4 || m == 6 || m == 9 || m == 11 {
        30
    } else {
        31
    }
}

/// A day that exists in the calendar and lies in chrono's range of years.
pub open spec fn is_valid_date(y: int, m: int, d: int) -> bool {
    &&& MIN_YEAR <= y <= MAX_YEAR
    &&& 1 <= m <= 12
    &&& 1 <= d <= days_in_month(y, m)
}

/// The fields of a date, if there is one.
pub open spec fn date_fields(r: Option<Date>) -> Option<(int, int, int)> {
    match r {
        Some(d) => Some((d.year as int, d.month as int, d.day as int)),
        None => None,
    }
}

impl Date {
    /// Chronological order: by year, then month, then day.
    pub open spec fn spec_le(self, other: Date) -> bool {
        ||| self.year < other.year
        ||| (self.year == other.year && self.month < other.month)
        ||| (self.year == other.year && self.month == other.month && self.day <= other.day)
    }

    /// Whether `self` falls on or after `other`.
    pub fn is_on_or_after(&self, other: &Date) -> (r: bool)
        ensures
            r == other.spec_le(*self),
    {
        if self.year != other.year {
            self.year > other.year
        } else if self.month != other.month {
            self.month > other.month
        } else {
            self.day >= other.day
        }
    }
}

/// Relies on chrono's `NaiveDate::from_ymd_opt`: it gives a date exactly when
/// the day exists in the calendar and the year lies in chrono's range, and
/// that date has the year, month and day it was given.
#[verifier::external_body]
fn ymd_date(year: i32, month: u32, day: u32) -> (r: Option<Date>)
    ensures
        r is Some <==> is_valid_date(year as int, month as int, day as int),
        r matches Some(d) ==> d == (Date { year, month, day }),
{
    match chrono::NaiveDate::from_ymd_opt(year, month, day) {
        Some(d) => Some(Date { year: d.year(), month: d.month(), day: d.day() }),
        None => None,
    }
}

/// What chrono reads as a `YYYY-MM-DD` date from a text.
pub uninterp spec fn iso_date_of(s: Seq<char>) -> Option<(int, int, int)>;

/// Relies on chrono's `FromStr for NaiveDate` (`YYYY-MM-DD`): the outcome
/// depends on the text alone, and a date it gives exists in the calendar and
/// lies in chrono's range.
#[verifier::external_body]
pub(crate) fn parse_iso_date(s: &str) -> (r: Option<Date>)
    ensures
        iso_date_of(s@) == date_fields(r),
        r matches Some(d) ==> is_valid_date(d.year as int, d.month as int, d.day as int),
{
    match s.parse::<chrono::NaiveDate>() {
        Ok(d) => Some(Date { year: d.year(), month: d.month(), day: d.day() }),
        Err(_) => None,
    }
}

/// The feed's first week index of a month: four weeks per month, from zero.
pub open spec fn spec_start_week(month: int) -> int {
    month * 4 - 4
}

/// The week index at which the feed is first asked for `month` (1 to 12).
pub fn start_week(month: u32) -> (r: u32)
    requires
        1 <= month <= 12,
    ensures
        r as int == spec_start_week(month as int),
        r >= 0,
{
    month * 4 - 4
}

/// The year and month that follow `month` of `year`.
pub open spec fn next_month(year: int, month: int) -> (int, int) {
    if month == 12 {
        (year + 1, 1)
    } else {
        (year, month + 1)
    }
}

/// The first day of the month after `month` of `year`, as a date, if it
/// lies in chrono's range.
pub open spec fn spec_boundary(year: int, month: int) -> Option<Date> {
    let (y, m) = next_month(year, month);
    if MIN_YEAR <= y <= MAX_YEAR {
        Some(Date { year: y as i32, month: m as u32, day: 1 })
    } else {
        None
    }
}

/// The first day that no longer belongs to `month` of `year`: the first of
/// the next month, where December rolls over to January of the next year.
pub fn first_day_out_of_scope(year: i32, month: u32) -> (r: Result<Date, AnitaError>)
    ensures
        !(1 <= month <= 12) ==> r == Err::<Date, AnitaError>(AnitaError::InvalidMonth),
        1 <= month <= 12 ==> match spec_boundary(year as int, month as int) {
            Some(d) => r == Ok::<Date, AnitaError>(d),
            None => r == Err::<Date, AnitaError>(AnitaError::DateRange),
        },
{
    if month < 1 || month > 12 {
        return Err(AnitaError::InvalidMonth);
    }
    let (next_year, next_month) = if month == 12 {
        if year == i32::MAX {
            return Err(AnitaError::DateRange);
        }
        (year + 1, 1u32)
    } else {
        (year, month + 1)
    };
    match ymd_date(next_year, next_month, 1) {
        Some(d) => Ok(d),
        None => Err(AnitaError::DateRange),
    }
}

/// The `YYYY-MM` text that starts every date of `month` of `year`.
pub open spec fn month_prefix(year: int, month: nat) -> Seq<char> {
    int_text(year) + seq!['-'] + two_digit_text(month)
}

/// The `YYYY-MM` text that starts every date of `month` of `year`.
pub fn month_prefix_text(year: i32, month: u32) -> (r: String)
    ensures
        r@ == month_prefix(year as int, month as nat),
{
    let mut s = String::new();
    push_int(&mut s, year as i64);
    push_char(&mut s, '-');
    if month < 10 {
        push_char(&mut s, '0');
    }
    push_decimal(&mut s, month as u64);
    s
}

} // verus!
