//! Validation of the metadata and the values that accompany a record.

use crate::calendar::{is_calendar_date, DateView, TradingDate};
use crate::error::DataError;
use crate::parsers::tdx_day::prices_valid;
use vstd::prelude::*;
use vstd::string::*;

verus! {

/// Whether `c` is one of the ten ASCII decimal digits.
pub open spec fn is_ascii_digit(c: char) -> bool {
    '0' <= c && c <= '9'
}

/// An instrument identifier: exactly six ASCII digits.
pub open spec fn is_symbol(s: Seq<char>) -> bool {
    s.len() == 6 && forall|i: int| 0 <= i < s.len() ==> is_ascii_digit(#[trigger] s[i])
}

/// Whether `s` spells the two-letter code whose upper-case letters are
/// `first` and `second`, in either case of each letter.
pub open spec fn spells_code(s: Seq<char>, first: char, second: char) -> bool {
    s.len() == 2 && same_letter(s[0], first) && same_letter(s[1], second)
}

/// Whether `c` is the upper-case ASCII letter `upper` or its lower-case form.
pub open spec fn same_letter(c: char, upper: char) -> bool {
    c == upper || (c as int) == (upper as int) + 32
}

/// A market code: `SH` or `SZ`, in any mixture of cases.
pub open spec fn is_market(s: Seq<char>) -> bool {
    spells_code(s, 'S', 'H') || spells_code(s, 'S', 'Z')
}

/// The greatest daily volume that is accepted, in shares.
pub const MAX_VOLUME: u64 = 1_000_000_000_000;

/// The greatest daily amount that is accepted, in hundredths.
pub const MAX_AMOUNT: i64 = 100_000_000_000_000_000;

/// The number that the digit `c` stands for.
pub open spec fn digit_value(c: char) -> int {
    c as int - '0' as int
}

/// The number that the digits of `s` from `from` up to `to` spell.
pub open spec fn digits_value(s: Seq<char>, from: int, to: int) -> int
    decreases to - from,
{
    if to <= from {
        0
    } else {
        digits_value(s, from, to - 1) * 10 + digit_value(s[to - 1])
    }
}

/// The date that the text `s` spells as `YYYYMMDD`: eight ASCII digits
/// that name a day of the calendar.
pub open spec fn date_of_text(s: Seq<char>) -> Option<DateView> {
    if s.len() == 8 && (forall|i: int| 0 <= i < 8 ==> is_ascii_digit(#[trigger] s[i]))
        && is_calendar_date(digits_value(s, 0, 4), digits_value(s, 4, 6), digits_value(s, 6, 8)) {
        Some(
            DateView {
                year: digits_value(s, 0, 4),
                month: digits_value(s, 4, 6),
                day: digits_value(s, 6, 8),
            },
        )
    } else {
        None
    }
}

/// Reads the number that the digits of `text` from `from` up to `to`
/// spell.
fn read_digits(text: &str, from: usize, to: usize) -> (value: u32)
    requires
        from <= to <= text@.len(),
        to - from <= 4,
        forall|i: int| from <= i < to ==> is_ascii_digit(#[trigger] text@[i]),
    ensures
        value == digits_value(text@, from as int, to as int),
        value <= 9999,
{
    let mut value: u32 = 0;
    let mut i: usize = from;
    while i < to
        invariant
            from <= i <= to <= text@.len(),
            to - from <= 4,
            forall|j: int| from <= j < to ==> is_ascii_digit(#[trigger] text@[j]),
            value == digits_value(text@, from as int, i as int),
            i - from == 0 ==> value == 0,
            i - from == 1 ==> value <= 9,
            i - from == 2 ==> value <= 99,
            i - from == 3 ==> value <= 999,
            i - from == 4 ==> value <= 9999,
        decreases to - i,
    {
        let c = text.get_char(i);
        value = value * 10 + (c as u32 - '0' as u32);
        i += 1;
    }
    value
}

/// Checks of single values, each without state.
pub struct ValidationUtils;

impl ValidationUtils {
    /// Accepts exactly the six-digit instrument identifiers.
    pub fn validate_symbol(symbol: &str) -> (r: Result<(), DataError>)
        ensures
            r is Ok <==> is_symbol(symbol@),
            r is Err ==> r == Err::<(), DataError>(DataError::InvalidSymbol),
    {
        let n = symbol.unicode_len();
        if n != 6 {
            return Err(DataError::InvalidSymbol);
        }
        let mut i: usize = 0;
        while i < n
            invariant
                n == symbol@.len(),
                i <= n,
                forall|j: int| 0 <= j < i ==> is_ascii_digit(#[trigger] symbol@[j]),
            decreases n - i,
        {
            let c = symbol.get_char(i);
            if !('0' <= c && c <= '9') {
                return Err(DataError::InvalidSymbol);
            }
            i += 1;
        }
        Ok(())
    }

    /// Accepts exactly the two market codes, in any mixture of cases.
    pub fn validate_market(market: &str) -> (r: Result<(), DataError>)
        ensures
            r is Ok <==> is_market(market@),
            r is Err ==> r == Err::<(), DataError>(DataError::UnknownMarket),
    {
        if market.unicode_len() != 2 {
            return Err(DataError::UnknownMarket);
        }
        let a = market.get_char(0);
        let b = market.get_char(1);
        if (a == 'S' || a == 's') && (b == 'H' || b == 'h' || b == 'Z' || b == 'z') {
            Ok(())
        } else {
            Err(DataError::UnknownMarket)
        }
    }

    /// Reads a date written as `YYYYMMDD`.
    pub fn validate_date(date_str: &str) -> (r: Result<TradingDate, DataError>)
        ensures
            match r {
                Ok(date) => date_of_text(date_str@) == Some(date@),
                Err(e) => e == DataError::InvalidDate && date_of_text(date_str@) is None,
            },
    {
        let n = date_str.unicode_len();
        if n != 8 {
            return Err(DataError::InvalidDate);
        }
        let mut i: usize = 0;
        while i < n
            invariant
                n == 8,
                n == date_str@.len(),
                i <= n,
                forall|j: int| 0 <= j < i ==> is_ascii_digit(#[trigger] date_str@[j]),
            decreases n - i,
        {
            let c = date_str.get_char(i);
            if !('0' <= c && c <= '9') {
                return Err(DataError::InvalidDate);
            }
            i += 1;
        }
        let year = read_digits(date_str, 0, 4);
        let month = read_digits(date_str, 4, 6);
        let day = read_digits(date_str, 6, 8);
        match TradingDate::from_ymd_opt(year as i32, month, day) {
            Some(date) => Ok(date),
            None => Err(DataError::InvalidDate),
        }
    }

    /// Accepts the four prices of a day, in hundredths, exactly when they
    /// obey the relations of a trading day.
    pub fn validate_price_data(open: i64, high: i64, low: i64, close: i64) -> (r: Result<
        (),
        DataError,
    >)
        ensures
            r is Ok <==> prices_valid(open as int, high as int, low as int, close as int),
            r is Err ==> r == Err::<(), DataError>(DataError::InvalidPrice),
    {
        if open <= 0 || high <= 0 || low <= 0 || close <= 0 {
            return Err(DataError::InvalidPrice);
        }
        if high < low {
            return Err(DataError::InvalidPrice);
        }
        if open > high || open < low || close > high || close < low {
            return Err(DataError::InvalidPrice);
        }
        if open < 1 || high > 1_000_000 || low < 1 || close > 1_000_000 {
            return Err(DataError::InvalidPrice);
        }
        Ok(())
    }

    /// Accepts a volume of at most `MAX_VOLUME` shares.
    pub fn validate_volume(volume: u64) -> (r: Result<(), DataError>)
        ensures
            r is Ok <==> volume <= MAX_VOLUME,
            r is Err ==> r == Err::<(), DataError>(DataError::InvalidVolume),
    {
        if volume > MAX_VOLUME {
            Err(DataError::InvalidVolume)
        } else {
            Ok(())
        }
    }

    /// Accepts an amount, in hundredths, from zero to `MAX_AMOUNT`.
    pub fn validate_amount(amount: i64) -> (r: Result<(), DataError>)
        ensures
            r is Ok <==> 0 <= amount <= MAX_AMOUNT,
            r is Err ==> r == Err::<(), DataError>(DataError::InvalidAmount),
    {
        if amount < 0 || amount > MAX_AMOUNT {
            Err(DataError::InvalidAmount)
        } else {
            Ok(())
        }
    }
}

} // verus!
