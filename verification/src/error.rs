//! The error conditions of the library.

use vstd::prelude::*;

verus! {

/// Why an input was rejected. Each condition is local and recoverable.
#[derive(Clone, Copy, Debug, PartialEq, Eq, Structural)]
pub enum DataError {
    /// A buffer whose length is not a multiple of the record size.
    InvalidLength,
    /// A date that is not eight decimal digits or names no calendar day.
    InvalidDate,
    /// A price that is not positive, lies outside the accepted band, or
    /// contradicts the high/low relation of its record.
    InvalidPrice,
    /// An instrument identifier that is not exactly six ASCII digits.
    InvalidSymbol,
    /// A market that is neither of the two known exchange codes.
    UnknownMarket,
    /// A field name other than open, high, low, close, volume, amount.
    UnknownField,
    /// A volume beyond what a day can trade.
    InvalidVolume,
    /// An amount that is negative or beyond what a day can trade.
    InvalidAmount,
    /// A transformation that is not known by its name.
    UnknownTransformation,
}

} // verus!
