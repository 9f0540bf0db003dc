//! Daily-bar market data: decoding of the fixed 32-byte record layout,
//! validation, cleaning, technical indicators and grouped aggregation.
//!
//! Every quantity is an integer. Prices and traded amounts are held in
//! hundredths of a currency unit, exactly as the on-disk layout stores
//! prices, so that no result depends on rounding of binary fractions.
//! Where a result is a quotient or a root, it is rounded down.

pub mod arrange;
pub mod calendar;
pub mod error;
pub mod numeric;
pub mod parsers;
pub mod processors;
pub mod text;

pub use parsers::tdx_day::{TDXDayParser, TDXDayRecord};

use vstd::prelude::*;

verus! {

/// The version of this library.
pub const VERSION: &'static str = "0.1.0";

} // verus!
