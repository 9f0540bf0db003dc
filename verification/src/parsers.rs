//! Decoding and validation of raw market data.

pub mod amount;
pub mod rollup;
pub mod tdx_day;
pub mod utils;

pub use rollup::TDXStatistics;
pub use tdx_day::{TDXDayParser, TDXDayRecord};
pub use utils::ValidationUtils;
