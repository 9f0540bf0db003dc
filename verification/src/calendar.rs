//! Calendar dates of trading days.
//!
//! Whether a day exists in the calendar, and how a date is written out, is
//! decided by the `chrono` crate; this module states what it relies on.

use crate::text::{decimal_text, two_digit_text};
use vstd::prelude::*;

verus! {

/// The earliest year that a date can carry.
pub const MIN_YEAR: i32 = -262143;

/// The latest year that a date can carry.
pub const MAX_YEAR: i32 = 262142;

/// Whether `year` has a 29th of February in the proleptic Gregorian calendar.
pub open spec fn is_leap_year(year: int) -> bool {
    year % 4 == 0 && (year % 100 != 0 || year % 400 == 0)
}

/// The number of days of `month` in `year`; zero where there is no such month.
pub open spec fn days_in_month(year: int, month: int) -> int {
    if month == 2 {
        if is_leap_year(year) {
            29
        } else {
            28
        }
    } else if month == 4 || month == 6 || month == 9 || month == 11 {
        30
    } else if 1 <= month <= 12 {
        31
    } else {
        0
    }
}

/// Whether the calendar has the day `day` of month `month` of year `year`,
/// within the range of years that a date can carry.
pub open spec fn is_calendar_date(year: int, month: int, day: int) -> bool {
    &&& MIN_YEAR <= year <= MAX_YEAR
    &&& 1 <= month <= 12
    &&& 1 <= day <= days_in_month(year, month)
}

/// `digits` with zeros before it up to four digits.
pub open spec fn padded_to_four(digits: Seq<char>) -> Seq<char> {
    if digits.len() >= 4 {
        digits
    } else {
        Seq::new((4 - digits.len()) as nat, |i: int| '0') + digits
    }
}

/// The year as it is written: with four digits at least; with its sign
/// where it is negative, and with a plus sign where it has more than four
/// digits.
pub open spec fn year_text(year: int) -> Seq<char> {
    if 0 <= year <= 9999 {
        padded_to_four(decimal_text(year as nat))
    } else if year < 0 {
        seq!['-'] + padded_to_four(decimal_text((-year) as nat))
    } else {
        seq!['+'] + decimal_text(year as nat)
    }
}

/// The date as it is written: year, month and day, the month and the day
/// with two digits each, with a hyphen between them.
pub open spec fn iso_date_text(year: int, month: int, day: int) -> Seq<char> {
    year_text(year) + seq!['-'] + two_digit_text(month as nat) + seq!['-'] + two_digit_text(
        day as nat,
    )
}

/// What a date holds: its year, its month (1 to 12) and its day of the month.
pub struct DateView {
    pub year: int,
    pub month: int,
    pub day: int,
}

impl DateView {
    /// The date as the decimal number `YYYYMMDD`. Between calendar dates the
    /// earlier one has the smaller number.
    pub open spec fn number(self) -> int {
        self.year * 10000 + self.month * 100 + self.day
    }

    /// Whether the calendar has this date.
    pub open spec fn exists_in_calendar(self) -> bool {
        is_calendar_date(self.year, self.month, self.day)
    }

    /// The date written out.
    pub open spec fn text(self) -> Seq<char> {
        iso_date_text(self.year, self.month, self.day)
    }
}

/// A day of the calendar. Every value is a date that exists.
#[derive(Clone, Copy, Debug, PartialEq, Eq, Structural)]
pub struct TradingDate {
    year: i32,
    month: u32,
    day: u32,
}

impl View for TradingDate {
    type V = DateView;

    closed spec fn view(&self) -> DateView {
        DateView { year: self.year as int, month: self.month as int, day: self.day as int }
    }
}

/// Asks `chrono::NaiveDate::from_ymd_opt` whether the date exists. Trusted:
/// the answer is yes exactly for the days of the proleptic Gregorian calendar
/// in the years `MIN_YEAR` to `MAX_YEAR`.
#[verifier::external_body]
fn calendar_has(year: i32, month: u32, day: u32) -> (found: bool)
    ensures
        found == is_calendar_date(year as int, month as int, day as int),
{
    chrono::NaiveDate::from_ymd_opt(year, month, day).is_some()
}

/// Writes a date out through the `Display` of `chrono::NaiveDate`. Trusted:
/// the text is `YYYY-MM-DD` with leading zeros; a negative year carries
/// its sign, and a year of more than four digits a plus sign.
#[verifier::external_body]
fn calendar_text(year: i32, month: u32, day: u32) -> (text: String)
    requires
        is_calendar_date(year as int, month as int, day as int),
    ensures
        text@ == iso_date_text(year as int, month as int, day as int),
{
    chrono::NaiveDate::from_ymd_opt(year, month, day).unwrap().to_string()
}

impl TradingDate {
    #[verifier::type_invariant]
    spec fn in_calendar(self) -> bool {
        is_calendar_date(self.year as int, self.month as int, self.day as int)
    }

    /// The date `year`-`month`-`day`, where the calendar has it.
    pub fn from_ymd_opt(year: i32, month: u32, day: u32) -> (date: Option<TradingDate>)
        ensures
            date is Some <==> is_calendar_date(year as int, month as int, day as int),
            date matches Some(d) ==> d@ == (DateView {
                year: year as int,
                month: month as int,
                day: day as int,
            }),
    {
        if calendar_has(year, month, day) {
            Some(TradingDate { year, month, day })
        } else {
            None
        }
    }

    /// The year.
    pub fn year(&self) -> (year: i32)
        ensures
            year == self@.year,
    {
        self.year
    }

    /// The month, 1 to 12.
    pub fn month(&self) -> (month: u32)
        ensures
            month == self@.month,
            1 <= month <= 12,
    {
        proof {
            use_type_invariant(self);
        }
        self.month
    }

    /// The day of the month, 1 to 31.
    pub fn day(&self) -> (day: u32)
        ensures
            day == self@.day,
            1 <= day <= 31,
    {
        proof {
            use_type_invariant(self);
        }
        self.day
    }

    /// The date as the decimal number `YYYYMMDD`.
    pub fn number(&self) -> (number: i64)
        ensures
            number == self@.number(),
            self@.exists_in_calendar(),
    {
        proof {
            use_type_invariant(self);
        }
        (self.year as i64) * 10000 + (self.month as i64) * 100 + (self.day as i64)
    }

    /// The date written out.
    pub fn text(&self) -> (text: String)
        ensures
            text@ == self@.text(),
    {
        proof {
            use_type_invariant(self);
        }
        calendar_text(self.year, self.month, self.day)
    }

    /// Whether both are the same day.
    pub fn same_day(&self, other: &TradingDate) -> (same: bool)
        ensures
            same == (self@ == other@),
    {
        self.year == other.year && self.month == other.month && self.day == other.day
    }
}

/// Between calendar dates, the number `YYYYMMDD` orders by year, then month,
/// then day, and tells any two different dates apart.
pub proof fn lemma_number_orders_dates(a: DateView, b: DateView)
    requires
        a.exists_in_calendar(),
        b.exists_in_calendar(),
    ensures
        a.number() < b.number() <==> (a.year < b.year || (a.year == b.year && (a.month < b.month
            || (a.month == b.month && a.day < b.day)))),
        a.number() == b.number() <==> a == b,
{
}

} // verus!
