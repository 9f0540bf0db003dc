//! Technical indicators over the history of one instrument.
//!
//! Prices enter in hundredths and indicators leave in millionths: a moving
//! average in millionths of a currency unit, a percentage in millionths of
//! a percent. Volumes stay in shares. Every quotient and root is rounded
//! down.

use crate::numeric::{
    floor_div, integer_root, mean, mean_of, variance, variance_of,
};
use crate::arrange::{arrange, comes_before, key_values, lemma_stable_order, positions, stable_order};
use crate::calendar::TradingDate;
use crate::error::DataError;
use crate::parsers::tdx_day::{
    chronological, in_date_order, RecordView, TDXDayRecord, views,
};
use crate::processors::aggregator::{floor_root, lemma_one_root};
use crate::processors::groups::{
    distinct_symbols, lemma_texts_before_bound, lemma_texts_before_grows, of_symbol, rank_among,
    records_of, symbols_seen, text_views, texts_before,
};
use crate::text::lex_less;
use rayon::iter::{IntoParallelRefIterator, ParallelIterator};
use vstd::prelude::*;
use vstd::slice::{slice_subrange, slice_to_vec};

verus! {

/// The millionths in a hundredth.
pub const PRICE_SCALE: u64 = 10_000;

/// The greatest price of a record, in millionths.
pub const MAX_PRICE_MICROS: u64 = 42_949_672_950_000;

/// A hundred percent, in millionths of a percent.
pub const FULL_PERCENT: u64 = 100_000_000;

/// The three lines of the moving-average convergence/divergence.
#[derive(Clone, Copy, Debug, PartialEq, Eq, Structural)]
pub struct MACD {
    /// The fast average less the slow one.
    pub dif: i64,
    /// The average of the differences; zero where there are fewer than
    /// nine of them.
    pub signal: i64,
    /// The difference less the signal.
    pub histogram: i64,
}

/// A band of two standard deviations around a moving average.
#[derive(Clone, Copy, Debug, PartialEq, Eq, Structural)]
pub struct BollingerBands {
    /// The average and two deviations.
    pub upper: i64,
    /// The average.
    pub middle: i64,
    /// The average less two deviations.
    pub lower: i64,
    /// Four deviations.
    pub width: i64,
}

/// A kind of indicator with its parameters.
#[derive(Debug, PartialEq, Eq)]
pub enum TechnicalIndicator {
    /// Simple moving averages.
    MovingAverage { periods: Vec<usize> },
    /// Exponential moving averages.
    ExponentialMovingAverage { periods: Vec<usize> },
    /// Moving-average convergence/divergence.
    MACD,
    /// Relative strength.
    RSI { period: usize },
    /// Bands of `std_dev` thousandths of a standard deviation.
    BollingerBands { period: usize, std_dev: u32 },
    /// Stochastic oscillator.
    Stochastic { k_period: usize, d_period: usize },
    /// Moving averages of the volume.
    Volume { periods: Vec<usize> },
    /// Change from day to day.
    PriceChange,
    /// An indicator known by name, with named parameters in thousandths.
    Custom { name: String, parameters: Vec<(String, i64)> },
}

/// The indicators of one day. Each is absent where the history before the
/// day is too short for it.
#[derive(Debug, PartialEq, Eq)]
pub struct IndicatorValues {
    /// The mean close of the last 5 days.
    pub ma5: Option<u64>,
    /// The mean close of the last 10 days.
    pub ma10: Option<u64>,
    /// The mean close of the last 20 days.
    pub ma20: Option<u64>,
    /// The mean close of the last 60 days.
    pub ma60: Option<u64>,
    /// The mean volume of the last 5 days, in shares.
    pub volume_ma5: Option<u64>,
    /// The change of the close against the day before.
    pub change_percent: Option<i64>,
    /// The span from low to high against the close of the day before.
    pub amplitude: Option<i64>,
    /// The relative strength over the last 20 days.
    pub rsi: Option<u64>,
    /// The convergence/divergence over the last 26 days.
    pub macd: Option<MACD>,
    /// The bands over the last 20 days.
    pub bollinger: Option<BollingerBands>,
    /// Further indicators; none is computed.
    pub indicators: Vec<TechnicalIndicator>,
}

/// What the indicators of one day hold.
pub struct IndicatorSet {
    pub ma5: Option<int>,
    pub ma10: Option<int>,
    pub ma20: Option<int>,
    pub ma60: Option<int>,
    pub volume_ma5: Option<int>,
    pub change_percent: Option<int>,
    pub amplitude: Option<int>,
    pub rsi: Option<int>,
    pub macd: Option<(int, int, int)>,
    pub bollinger: Option<(int, int, int, int)>,
}

/// A number that may be absent, without its bound.
pub open spec fn unsigned_view(value: Option<u64>) -> Option<int> {
    match value {
        Some(v) => Some(v as int),
        None => None,
    }
}

/// A number that may be absent, without its bound.
pub open spec fn signed_view(value: Option<i64>) -> Option<int> {
    match value {
        Some(v) => Some(v as int),
        None => None,
    }
}

impl View for IndicatorValues {
    type V = IndicatorSet;

    open spec fn view(&self) -> IndicatorSet {
        IndicatorSet {
            ma5: unsigned_view(self.ma5),
            ma10: unsigned_view(self.ma10),
            ma20: unsigned_view(self.ma20),
            ma60: unsigned_view(self.ma60),
            volume_ma5: unsigned_view(self.volume_ma5),
            change_percent: signed_view(self.change_percent),
            amplitude: signed_view(self.amplitude),
            rsi: unsigned_view(self.rsi),
            macd: macd_view(self.macd),
            bollinger: bands_view(self.bollinger),
        }
    }
}

/// A window of prices in millionths that the machine's integers can take:
/// fewer than 2^32 prices, none above the greatest price of a record.
pub open spec fn is_window(values: Seq<u64>) -> bool {
    &&& values.len() <= u32::MAX
    &&& forall|i: int| 0 <= i < values.len() ==> #[trigger] values[i] <= MAX_PRICE_MICROS
}

/// The sum of the rises from one value to the next among the first
/// `upto + 1` values.
pub open spec fn rises(values: Seq<u64>, upto: int) -> int
    decreases upto,
{
    if upto <= 0 {
        0
    } else {
        rises(values, upto - 1) + if values[upto] > values[upto - 1] {
            values[upto] - values[upto - 1]
        } else {
            0
        }
    }
}

/// The sum of the falls from one value to the next among the first
/// `upto + 1` values.
pub open spec fn falls(values: Seq<u64>, upto: int) -> int
    decreases upto,
{
    if upto <= 0 {
        0
    } else {
        falls(values, upto - 1) + if values[upto] > values[upto - 1] {
            0
        } else {
            values[upto - 1] - values[upto]
        }
    }
}

/// The relative strength of `closes`, in millionths of a percent: the
/// share of the rises in the rises and falls together; a hundred percent
/// where nothing falls, fifty where there are fewer than two values.
pub open spec fn rsi_of(closes: Seq<u64>) -> int {
    if closes.len() < 2 {
        50_000_000
    } else {
        let gain = rises(closes, closes.len() - 1);
        let loss = falls(closes, closes.len() - 1);
        if loss == 0 {
            100_000_000
        } else {
            100_000_000 * gain / (gain + loss)
        }
    }
}

/// The exponential moving average of `values` over `period` values: the
/// first value, then for each further value two parts of it to
/// `period - 1` parts of the average so far. Zero where there is no value.
pub open spec fn ema_of(values: Seq<i64>, period: int) -> int
    decreases values.len(),
{
    if values.len() == 0 {
        0
    } else if values.len() == 1 {
        values[0] as int
    } else {
        (2 * values.last() + (period - 1) * ema_of(values.drop_last(), period)) / (period + 1)
    }
}

/// The values as numbers with a sign.
pub open spec fn signed(values: Seq<u64>) -> Seq<i64> {
    Seq::new(values.len(), |i: int| values[i] as i64)
}

/// The fast average less the slow one, over the values from `start` on.
pub open spec fn dif_at(closes: Seq<i64>, start: int) -> int {
    ema_of(closes.skip(start), 12) - ema_of(closes.skip(start), 26)
}

/// The differences over each run of at least 26 values that ends with the
/// last value, the longest run first.
pub open spec fn dif_series(closes: Seq<i64>) -> Seq<i64> {
    Seq::new((closes.len() - 25) as nat, |i: int| dif_at(closes, i) as i64)
}

/// The convergence/divergence of `closes`; none where there are fewer than
/// 26 values.
pub open spec fn macd_of(closes: Seq<u64>) -> Option<(int, int, int)> {
    if closes.len() < 26 {
        None
    } else {
        let dif = dif_at(signed(closes), 0);
        let signal = if closes.len() - 25 >= 9 {
            ema_of(dif_series(signed(closes)), 9)
        } else {
            0
        };
        Some((dif, signal, dif - signal))
    }
}

/// The bands of `closes`: upper, middle, lower, width; none where there
/// are fewer than 20 values.
pub open spec fn bollinger_of(closes: Seq<u64>) -> Option<(int, int, int, int)> {
    if closes.len() < 20 {
        None
    } else {
        let middle = mean_of(closes);
        let deviation = floor_root(variance_of(closes));
        Some((middle + 2 * deviation, middle, middle - 2 * deviation, 4 * deviation))
    }
}

/// The three lines as numbers without bound.
pub open spec fn macd_view(lines: Option<MACD>) -> Option<(int, int, int)> {
    match lines {
        Some(m) => Some((m.dif as int, m.signal as int, m.histogram as int)),
        None => None,
    }
}

/// The bands as numbers without bound.
pub open spec fn bands_view(bands: Option<BollingerBands>) -> Option<(int, int, int, int)> {
    match bands {
        Some(b) => Some((b.upper as int, b.middle as int, b.lower as int, b.width as int)),
        None => None,
    }
}

/// An average of values between two bounds lies between them.
proof fn lemma_ema_bounds(values: Seq<i64>, period: int, low: int, high: int)
    requires
        period >= 1,
        low <= high,
        forall|i: int| 0 <= i < values.len() ==> low <= #[trigger] values[i] <= high,
        values.len() > 0,
    ensures
        low <= ema_of(values, period) <= high,
    decreases values.len(),
{
    if values.len() > 1 {
        let shorter = values.drop_last();
        assert forall|i: int| 0 <= i < shorter.len() implies low <= #[trigger] shorter[i] <= high by {
            assert(shorter[i] == values[i]);
        }
        lemma_ema_bounds(shorter, period, low, high);
        let e = ema_of(shorter, period);
        let v = values.last() as int;
        lemma_mix_bounds(v, e, period, low, high);
    }
}

/// Two parts of `v` to `period - 1` parts of `e`, divided by `period + 1`,
/// lie between the bounds of `v` and `e`.
proof fn lemma_mix_bounds(v: int, e: int, period: int, low: int, high: int)
    requires
        period >= 1,
        low <= v <= high,
        low <= e <= high,
    ensures
        low <= (2 * v + (period - 1) * e) / (period + 1) <= high,
        (period + 1) * low <= 2 * v + (period - 1) * e <= (period + 1) * high,
{
    let d = period + 1;
    let num = 2 * v + (period - 1) * e;
    assert((period - 1) * low <= (period - 1) * e <= (period - 1) * high) by (nonlinear_arith)
        requires
            period >= 1,
            low <= e <= high,
    ;
    assert(d * low == 2 * low + (period - 1) * low) by (nonlinear_arith)
        requires
            d == period + 1,
    ;
    assert(d * high == 2 * high + (period - 1) * high) by (nonlinear_arith)
        requires
            d == period + 1,
    ;
    assert(low <= num / d <= high) by (nonlinear_arith)
        requires
            d > 0,
            d * low <= num <= d * high,
    ;
}

/// The rises and falls are not negative and together at most the greatest
/// value for each step.
proof fn lemma_rises_falls(values: Seq<u64>, upto: int, bound: int)
    requires
        0 <= upto < values.len(),
        forall|i: int| 0 <= i < values.len() ==> #[trigger] values[i] <= bound,
    ensures
        0 <= rises(values, upto),
        0 <= falls(values, upto),
        rises(values, upto) + falls(values, upto) <= upto * bound,
    decreases upto,
{
    if upto > 0 {
        lemma_rises_falls(values, upto - 1, bound);
        assert(upto * bound == (upto - 1) * bound + bound) by (nonlinear_arith);
        assert(values[upto] <= bound);
        assert(values[upto - 1] <= bound);
    }
}

/// A set of window sizes for which moving averages are reported. Only the
/// sizes 5, 10, 20 and 60 have a place in the report.
#[derive(Debug)]
pub struct IndicatorCalculator {
    /// The window sizes.
    pub window_sizes: Vec<usize>,
}

impl IndicatorCalculator {
    /// A calculator with the window sizes 5, 10, 20 and 60.
    pub fn new() -> (calculator: Self)
        ensures
            calculator.window_sizes@ == seq![5usize, 10usize, 20usize, 60usize],
    {
        let mut window_sizes: Vec<usize> = Vec::new();
        window_sizes.push(5);
        window_sizes.push(10);
        window_sizes.push(20);
        window_sizes.push(60);
        assert(window_sizes@ =~= seq![5usize, 10usize, 20usize, 60usize]);
        IndicatorCalculator { window_sizes }
    }

    /// The calculator with other window sizes.
    pub fn with_window_sizes(self, window_sizes: Vec<usize>) -> (calculator: Self)
        ensures
            calculator.window_sizes@ == window_sizes@,
    {
        IndicatorCalculator { window_sizes }
    }

    /// Whether averages over `size` values are reported.
    fn has_window(&self, size: usize) -> (found: bool)
        ensures
            found == self.window_sizes@.contains(size),
    {
        let mut k: usize = 0;
        while k < self.window_sizes.len()
            invariant
                k <= self.window_sizes.len(),
                forall|l: int| 0 <= l < k ==> self.window_sizes@[l] != size,
            decreases self.window_sizes.len() - k,
        {
            if self.window_sizes[k] == size {
                return true;
            }
            k += 1;
        }
        false
    }

    /// The mean of `prices`, rounded down; zero where there is none.
    pub fn calculate_ma(&self, prices: &[u64]) -> (average: u64)
        ensures
            average == mean_of(prices@),
    {
        let values = slice_to_vec(prices);
        mean(&values)
    }

    /// The relative strength of `closes`, in millionths of a percent.
    pub fn calculate_rsi(&self, closes: &[u64]) -> (strength: u64)
        requires
            is_window(closes@),
        ensures
            strength == rsi_of(closes@),
            strength <= FULL_PERCENT,
    {
        let n = closes.len();
        if n < 2 {
            return 50_000_000;
        }
        let mut gain: u128 = 0;
        let mut loss: u128 = 0;
        let mut i: usize = 1;
        while i < n
            invariant
                n == closes.len(),
                1 <= i <= n,
                is_window(closes@),
                gain == rises(closes@, i - 1),
                loss == falls(closes@, i - 1),
                gain + loss <= (i - 1) * MAX_PRICE_MICROS,
            decreases n - i,
        {
            proof {
                assert(i * MAX_PRICE_MICROS == (i - 1) * MAX_PRICE_MICROS + MAX_PRICE_MICROS)
                    by (nonlinear_arith);
                assert((i - 1) * MAX_PRICE_MICROS <= 0xFFFF_FFFF * MAX_PRICE_MICROS)
                    by (nonlinear_arith)
                    requires
                        0 <= i - 1 <= 0xFFFF_FFFF,
                ;
            }
            if closes[i] > closes[i - 1] {
                gain = gain + (closes[i] - closes[i - 1]) as u128;
            } else {
                loss = loss + (closes[i - 1] - closes[i]) as u128;
            }
            i += 1;
        }
        if loss == 0 {
            return 100_000_000;
        }
        proof {
            assert((n - 1) * MAX_PRICE_MICROS <= 0xFFFF_FFFF * MAX_PRICE_MICROS) by (nonlinear_arith)
                requires
                    0 <= n - 1 <= 0xFFFF_FFFF,
            ;
            assert(100_000_000 * gain / ((gain + loss) as int) <= 100_000_000) by (nonlinear_arith)
                requires
                    0 <= gain,
                    loss > 0,
            ;
        }
        (100_000_000 * gain / (gain + loss)) as u64
    }

    /// The exponential moving average of `values` over `period` values.
    pub fn calculate_ema(&self, values: &[i64], period: u32) -> (average: i64)
        requires
            period >= 1,
        ensures
            average == ema_of(values@, period as int),
    {
        let n = values.len();
        if n == 0 {
            return 0;
        }
        let mut ema: i64 = values[0];
        let mut i: usize = 1;
        assert(values@.take(1).drop_last() =~= values@.take(0));
        while i < n
            invariant
                n == values.len(),
                1 <= i <= n,
                period >= 1,
                ema == ema_of(values@.take(i as int), period as int),
            decreases n - i,
        {
            proof {
                assert(values@.take(i + 1).drop_last() == values@.take(i as int));
                lemma_mix_bounds(
                    values@[i as int] as int,
                    ema as int,
                    period as int,
                    i64::MIN as int,
                    i64::MAX as int,
                );
                assert((period + 1) * i64::MIN >= -0x1_0000_0000 * 0x8000_0000_0000_0000)
                    by (nonlinear_arith)
                    requires
                        1 <= period + 1 <= 0x1_0000_0000,
                ;
                assert((period + 1) * i64::MAX <= 0x1_0000_0000 * 0x8000_0000_0000_0000)
                    by (nonlinear_arith)
                    requires
                        1 <= period + 1 <= 0x1_0000_0000,
                ;
                assert(-0x8000_0000 * 0x1_0000_0000_0000_0000 <= (period - 1) * ema <= 0x8000_0000
                    * 0x1_0000_0000_0000_0000) by (nonlinear_arith)
                    requires
                        0 <= period - 1 <= 0xFFFF_FFFF,
                        -0x8000_0000_0000_0000 <= ema <= 0x7FFF_FFFF_FFFF_FFFF,
                ;
            }
            let mixed: i128 = 2 * (values[i] as i128) + ((period as i128) - 1) * (ema as i128);
            ema = floor_div(mixed, (period as i128) + 1) as i64;
            i += 1;
        }
        proof {
            assert(values@.take(n as int) == values@);
        }
        ema
    }

    /// The convergence/divergence of `closes`; none where there are fewer
    /// than 26 values.
    pub fn calculate_macd(&self, closes: &[u64]) -> (lines: Option<MACD>)
        requires
            is_window(closes@),
        ensures
            macd_view(lines) == macd_of(closes@),
    {
        let n = closes.len();
        if n < 26 {
            return None;
        }
        let mut series: Vec<i64> = Vec::new();
        let mut i: usize = 0;
        while i < n
            invariant
                n == closes.len(),
                i <= n,
                series.len() == i,
                is_window(closes@),
                forall|j: int| 0 <= j < i ==> #[trigger] series@[j] == closes@[j],
            decreases n - i,
        {
            series.push(closes[i] as i64);
            i += 1;
        }
        assert(series@ =~= signed(closes@));
        let dif = self.dif_from(&series, 0);
        let mut dif_values: Vec<i64> = Vec::new();
        let mut start: usize = 0;
        while start < n - 25
            invariant
                n == series.len(),
                n >= 26,
                start <= n - 25,
                dif_values.len() == start,
                forall|j: int| 0 <= j < series.len() ==> 0 <= #[trigger] series@[j] <= MAX_PRICE_MICROS,
                forall|j: int|
                    0 <= j < start ==> #[trigger] dif_values@[j] == dif_at(series@, j)
                        && -MAX_PRICE_MICROS <= dif_values@[j] <= MAX_PRICE_MICROS,
            decreases n - start,
        {
            dif_values.push(self.dif_from(&series, start));
            start += 1;
        }
        assert(dif_values@ =~= dif_series(series@));
        let signal: i64 = if dif_values.len() >= 9 {
            proof {
                lemma_ema_bounds(
                    dif_values@,
                    9,
                    -(MAX_PRICE_MICROS as int),
                    MAX_PRICE_MICROS as int,
                );
            }
            self.calculate_ema(dif_values.as_slice(), 9)
        } else {
            0
        };
        Some(MACD { dif, signal, histogram: dif - signal })
    }

    /// The fast average less the slow one, over the values from `start` on.
    fn dif_from(&self, series: &Vec<i64>, start: usize) -> (dif: i64)
        requires
            start < series.len(),
            forall|j: int| 0 <= j < series.len() ==> 0 <= #[trigger] series@[j] <= MAX_PRICE_MICROS,
        ensures
            dif == dif_at(series@, start as int),
            -MAX_PRICE_MICROS <= dif <= MAX_PRICE_MICROS,
    {
        let rest = slice_subrange(series.as_slice(), start, series.len());
        proof {
            assert(rest@ =~= series@.skip(start as int));
            assert forall|j: int| 0 <= j < rest@.len() implies 0 <= #[trigger] rest@[j]
                <= MAX_PRICE_MICROS by {
                assert(rest@[j] == series@[start + j]);
            }
            lemma_ema_bounds(rest@, 12, 0, MAX_PRICE_MICROS as int);
            lemma_ema_bounds(rest@, 26, 0, MAX_PRICE_MICROS as int);
        }
        let fast = self.calculate_ema(rest, 12);
        let slow = self.calculate_ema(rest, 26);
        fast - slow
    }

    /// The bands of `closes`; none where there are fewer than 20 values.
    pub fn calculate_bollinger_bands(&self, closes: &[u64]) -> (bands: Option<BollingerBands>)
        requires
            is_window(closes@),
        ensures
            bands_view(bands) == bollinger_of(closes@),
    {
        if closes.len() < 20 {
            return None;
        }
        let values = slice_to_vec(closes);
        let middle = mean(&values);
        let spread = variance(&values);
        let deviation = integer_root(spread);
        proof {
            crate::numeric::lemma_mean_bound(values@, MAX_PRICE_MICROS as int);
            lemma_one_root(variance_of(values@), deviation as int, floor_root(variance_of(values@)));
            lemma_spread_bound(values@, middle as int, MAX_PRICE_MICROS as int);
            let ghost top = MAX_PRICE_MICROS as int;
            if deviation > top {
                assert(deviation * deviation > top * top) by (nonlinear_arith)
                    requires
                        deviation > top,
                        top >= 0,
                ;
            }
        }
        let m = middle as i64;
        let d = deviation as i64;
        Some(BollingerBands { upper: m + 2 * d, middle: m, lower: m - 2 * d, width: 4 * d })
    }
}

/// The mean squared distance of values between zero and `bound` from a
/// center between zero and `bound` is at most the square of `bound`.
proof fn lemma_spread_bound(values: Seq<u64>, center: int, bound: int)
    requires
        values.len() > 0,
        0 <= center <= bound,
        forall|i: int| 0 <= i < values.len() ==> #[trigger] values[i] <= bound,
    ensures
        crate::numeric::squared_spread(values, center) / (values.len() as int) <= bound * bound,
{
    lemma_spread_total(values, center, bound);
    let n = values.len() as int;
    let t = crate::numeric::squared_spread(values, center);
    let b = bound * bound;
    assert(t / n <= b) by (nonlinear_arith)
        requires
            0 <= t <= n * b,
            n > 0,
    ;
}

proof fn lemma_spread_total(values: Seq<u64>, center: int, bound: int)
    requires
        0 <= center <= bound,
        forall|i: int| 0 <= i < values.len() ==> #[trigger] values[i] <= bound,
    ensures
        0 <= crate::numeric::squared_spread(values, center) <= values.len() * (bound * bound),
    decreases values.len(),
{
    if values.len() > 0 {
        let shorter = values.drop_last();
        assert forall|i: int| 0 <= i < shorter.len() implies #[trigger] shorter[i] <= bound by {
            assert(shorter[i] == values[i]);
        }
        lemma_spread_total(shorter, center, bound);
        let d = values.last() - center;
        assert(values[values.len() - 1] <= bound);
        assert(0 <= d * d <= bound * bound) by (nonlinear_arith)
            requires
                -bound <= d <= bound,
        ;
        assert(values.len() * (bound * bound) == shorter.len() * (bound * bound) + bound * bound)
            by (nonlinear_arith)
            requires
                values.len() == shorter.len() + 1,
        ;
    }
}

/// The closes of `series` in millionths.
pub open spec fn close_micros(series: Seq<RecordView>) -> Seq<u64> {
    Seq::new(series.len(), |i: int| (series[i].close * 10_000) as u64)
}

/// The volumes of `series`.
pub open spec fn volumes_of(series: Seq<RecordView>) -> Seq<u64> {
    Seq::new(series.len(), |i: int| series[i].volume as u64)
}

/// The `size` values that end with value `i`.
pub open spec fn trailing(values: Seq<u64>, i: int, size: int) -> Seq<u64> {
    values.subrange(i + 1 - size, i + 1)
}

/// The mean of the `size` values that end with value `i`, where averages
/// over `size` values are reported and there are that many values.
pub open spec fn moving_average(values: Seq<u64>, sizes: Seq<usize>, i: int, size: int) -> Option<
    int,
> {
    if sizes.contains(size as usize) && i + 1 >= size {
        Some(mean_of(trailing(values, i, size)))
    } else {
        None
    }
}

/// The change of the close of day `i` against the day before, in
/// millionths of a percent; none on the first day and where the close of
/// the day before is zero.
pub open spec fn change_of(series: Seq<RecordView>, i: int) -> Option<int> {
    if i >= 1 && series[i - 1].close > 0 {
        Some((series[i].close - series[i - 1].close) * 100_000_000 / series[i - 1].close)
    } else {
        None
    }
}

/// The span from low to high of day `i` against the close of the day
/// before, in millionths of a percent; none on the first day and where the
/// close of the day before is zero.
pub open spec fn amplitude_of(series: Seq<RecordView>, i: int) -> Option<int> {
    if i >= 1 && series[i - 1].close > 0 {
        Some((series[i].high - series[i].low) * 100_000_000 / series[i - 1].close)
    } else {
        None
    }
}

/// The indicators of day `i` of the chronological series `series` of one
/// instrument. Each reads the days up to day `i` and none behind it.
pub open spec fn indicators_at(series: Seq<RecordView>, sizes: Seq<usize>, i: int) -> IndicatorSet {
    let closes = close_micros(series);
    IndicatorSet {
        ma5: moving_average(closes, sizes, i, 5),
        ma10: moving_average(closes, sizes, i, 10),
        ma20: moving_average(closes, sizes, i, 20),
        ma60: moving_average(closes, sizes, i, 60),
        volume_ma5: moving_average(volumes_of(series), sizes, i, 5),
        change_percent: change_of(series, i),
        amplitude: amplitude_of(series, i),
        rsi: if i >= 19 {
            Some(rsi_of(trailing(closes, i, 20)))
        } else {
            None
        },
        macd: if i >= 25 {
            macd_of(trailing(closes, i, 26))
        } else {
            None
        },
        bollinger: if i >= 19 {
            bollinger_of(trailing(closes, i, 20))
        } else {
            None
        },
    }
}

/// Each indicator is there from the first day on that has enough history,
/// and on no day before: a moving average over `k` days from day `k - 1`
/// on where averages over `k` days are reported, change and amplitude from
/// day 1 on where the close before is not zero, relative strength and
/// bands from day 19 on, convergence/divergence from day 25 on.
pub proof fn lemma_availability(series: Seq<RecordView>, sizes: Seq<usize>, i: int)
    requires
        0 <= i < series.len(),
    ensures
        indicators_at(series, sizes, i).ma5 is Some <==> sizes.contains(5) && i >= 4,
        indicators_at(series, sizes, i).ma10 is Some <==> sizes.contains(10) && i >= 9,
        indicators_at(series, sizes, i).ma20 is Some <==> sizes.contains(20) && i >= 19,
        indicators_at(series, sizes, i).ma60 is Some <==> sizes.contains(60) && i >= 59,
        indicators_at(series, sizes, i).volume_ma5 is Some <==> sizes.contains(5) && i >= 4,
        indicators_at(series, sizes, i).change_percent is Some <==> i >= 1 && series[i - 1].close
            > 0,
        indicators_at(series, sizes, i).amplitude is Some <==> i >= 1 && series[i - 1].close > 0,
        indicators_at(series, sizes, i).rsi is Some <==> i >= 19,
        indicators_at(series, sizes, i).macd is Some <==> i >= 25,
        indicators_at(series, sizes, i).bollinger is Some <==> i >= 19,
{
}

/// A record with the indicators of its day.
#[derive(Debug, PartialEq, Eq)]
pub struct EnhancedDayRecord {
    /// The record.
    pub base_record: TDXDayRecord,
    /// The indicators of its day.
    pub indicators: IndicatorValues,
}

/// What the records with their indicators hold.
pub open spec fn enhanced_views(records: Seq<EnhancedDayRecord>) -> Seq<(RecordView, IndicatorSet)> {
    Seq::new(records.len(), |i: int| (records[i].base_record@, records[i].indicators@))
}

/// Each record of the chronological series `series` of one instrument
/// with the indicators of its day.
pub open spec fn enhanced_series(series: Seq<RecordView>, sizes: Seq<usize>) -> Seq<
    (RecordView, IndicatorSet),
> {
    Seq::new(series.len(), |i: int| (series[i], indicators_at(series, sizes, i)))
}

/// The records of each instrument of `symbols` with their indicators,
/// instrument after instrument, each instrument's records in
/// chronological order.
pub open spec fn enhanced_by_symbol(
    records: Seq<RecordView>,
    symbols: Seq<Seq<char>>,
    sizes: Seq<usize>,
) -> Seq<(RecordView, IndicatorSet)>
    decreases symbols.len(),
{
    if symbols.len() == 0 {
        Seq::empty()
    } else {
        enhanced_by_symbol(records, symbols.drop_last(), sizes) + enhanced_series(
            chronological(of_symbol(records, symbols.last())),
            sizes,
        )
    }
}

impl EnhancedDayRecord {
    /// A copy of `record` with the indicators `indicators`.
    pub fn from_record(record: &TDXDayRecord, indicators: IndicatorValues) -> (enhanced: Self)
        ensures
            enhanced.base_record@ == record@,
            enhanced.indicators == indicators,
    {
        EnhancedDayRecord { base_record: record.clone(), indicators }
    }

    /// The trading day.
    pub fn date(&self) -> (date: TradingDate)
        ensures
            date == self.base_record.date,
    {
        self.base_record.date
    }

    /// The instrument identifier.
    pub fn symbol(&self) -> (symbol: &str)
        ensures
            symbol@ == self.base_record.symbol@,
    {
        self.base_record.symbol.as_str()
    }

    /// The opening price, in hundredths.
    pub fn open(&self) -> (open: u32)
        ensures
            open == self.base_record.open,
    {
        self.base_record.open
    }

    /// The highest price, in hundredths.
    pub fn high(&self) -> (high: u32)
        ensures
            high == self.base_record.high,
    {
        self.base_record.high
    }

    /// The lowest price, in hundredths.
    pub fn low(&self) -> (low: u32)
        ensures
            low == self.base_record.low,
    {
        self.base_record.low
    }

    /// The closing price, in hundredths.
    pub fn close(&self) -> (close: u32)
        ensures
            close == self.base_record.close,
    {
        self.base_record.close
    }

    /// The number of shares traded.
    pub fn volume(&self) -> (volume: u64)
        ensures
            volume == self.base_record.volume,
    {
        self.base_record.volume
    }

    /// The value traded, in hundredths.
    pub fn amount(&self) -> (amount: u64)
        ensures
            amount == self.base_record.amount,
    {
        self.base_record.amount
    }

    /// The market code.
    pub fn market(&self) -> (market: &str)
        ensures
            market@ == self.base_record.market@,
    {
        self.base_record.market.as_str()
    }
}

/// `part` of `whole`, in millionths of a percent, rounded down.
fn percent_of(part: i64, whole: u32) -> (percent: i64)
    requires
        whole > 0,
        -0xFFFF_FFFF <= part <= 0xFFFF_FFFF,
    ensures
        percent == part * 100_000_000 / (whole as int),
{
    let scaled: i128 = (part as i128) * 100_000_000;
    let quotient = floor_div(scaled, whole as i128);
    proof {
        let ghost top = scaled as int;
        let ghost below = whole as int;
        assert(-0xFFFF_FFFF * 100_000_000 <= top / below <= 0xFFFF_FFFF * 100_000_000)
            by (nonlinear_arith)
            requires
                -0xFFFF_FFFF * 100_000_000 <= top <= 0xFFFF_FFFF * 100_000_000,
                below >= 1,
        ;
    }
    quotient as i64
}

impl IndicatorCalculator {
    /// The mean of the `size` values that end with value `i`, where
    /// averages over `size` values are reported and there are that many
    /// values.
    fn average_at(&self, values: &Vec<u64>, reported: bool, i: usize, size: usize) -> (average: Option<
        u64,
    >)
        requires
            i < values.len(),
            size >= 1,
            reported == self.window_sizes@.contains(size),
        ensures
            unsigned_view(average) == moving_average(values@, self.window_sizes@, i as int, size as int),
    {
        if reported && i + 1 >= size {
            Some(self.calculate_ma(slice_subrange(values.as_slice(), i + 1 - size, i + 1)))
        } else {
            None
        }
    }

    /// The indicators of each day of the chronological series of one
    /// instrument.
    pub fn calculate_symbol_indicators(&self, time_series: &Vec<TDXDayRecord>) -> (indicators: Vec<
        IndicatorValues,
    >)
        ensures
            indicators.len() == time_series.len(),
            forall|i: int|
                0 <= i < time_series.len() ==> (#[trigger] indicators@[i])@ == indicators_at(
                    views(time_series@),
                    self.window_sizes@,
                    i,
                ) && indicators@[i].indicators@.len() == 0,
    {
        let n = time_series.len();
        let ghost series = views(time_series@);
        let mut closes: Vec<u64> = Vec::new();
        let mut volumes: Vec<u64> = Vec::new();
        let mut k: usize = 0;
        while k < n
            invariant
                n == time_series.len(),
                k <= n,
                closes.len() == k,
                volumes.len() == k,
                forall|j: int|
                    0 <= j < k ==> #[trigger] closes@[j] == time_series@[j]@.close * 10_000
                        && closes@[j] <= MAX_PRICE_MICROS,
                forall|j: int| 0 <= j < k ==> #[trigger] volumes@[j] == time_series@[j]@.volume,
            decreases n - k,
        {
            closes.push((time_series[k].close as u64) * PRICE_SCALE);
            volumes.push(time_series[k].volume);
            k += 1;
        }
        assert(closes@ =~= close_micros(series));
        assert(volumes@ =~= volumes_of(series));
        let has5 = self.has_window(5);
        let has10 = self.has_window(10);
        let has20 = self.has_window(20);
        let has60 = self.has_window(60);
        let mut indicators: Vec<IndicatorValues> = Vec::new();
        let mut i: usize = 0;
        while i < n
            invariant
                n == time_series.len(),
                series == views(time_series@),
                i <= n,
                indicators.len() == i,
                closes@ == close_micros(series),
                volumes@ == volumes_of(series),
                forall|j: int| 0 <= j < n ==> #[trigger] closes@[j] <= MAX_PRICE_MICROS,
                has5 == self.window_sizes@.contains(5),
                has10 == self.window_sizes@.contains(10),
                has20 == self.window_sizes@.contains(20),
                has60 == self.window_sizes@.contains(60),
                forall|j: int|
                    0 <= j < i ==> (#[trigger] indicators@[j])@ == indicators_at(
                        series,
                        self.window_sizes@,
                        j,
                    ) && indicators@[j].indicators@.len() == 0,
            decreases n - i,
        {
            let ma5 = self.average_at(&closes, has5, i, 5);
            let ma10 = self.average_at(&closes, has10, i, 10);
            let ma20 = self.average_at(&closes, has20, i, 20);
            let ma60 = self.average_at(&closes, has60, i, 60);
            let volume_ma5 = self.average_at(&volumes, has5, i, 5);
            let mut change_percent: Option<i64> = None;
            let mut amplitude: Option<i64> = None;
            if i >= 1 {
                let before = time_series[i - 1].close;
                proof {
                    assert(series[i - 1] == time_series@[i - 1]@);
                    assert(series[i as int] == time_series@[i as int]@);
                }
                if before > 0 {
                    let day = &time_series[i];
                    change_percent = Some(percent_of((day.close as i64) - (before as i64), before));
                    amplitude = Some(percent_of((day.high as i64) - (day.low as i64), before));
                }
            }
            let mut rsi: Option<u64> = None;
            let mut bollinger: Option<BollingerBands> = None;
            if i >= 19 {
                let window = slice_subrange(closes.as_slice(), i - 19, i + 1);
                proof {
                    assert(window@ == trailing(closes@, i as int, 20));
                    assert forall|j: int| 0 <= j < window@.len() implies #[trigger] window@[j]
                        <= MAX_PRICE_MICROS by {
                        assert(window@[j] == closes@[i - 19 + j]);
                    }
                }
                rsi = Some(self.calculate_rsi(window));
                bollinger = self.calculate_bollinger_bands(window);
            }
            let mut macd: Option<MACD> = None;
            if i >= 25 {
                let window = slice_subrange(closes.as_slice(), i - 25, i + 1);
                proof {
                    assert(window@ == trailing(closes@, i as int, 26));
                    assert forall|j: int| 0 <= j < window@.len() implies #[trigger] window@[j]
                        <= MAX_PRICE_MICROS by {
                        assert(window@[j] == closes@[i - 25 + j]);
                    }
                }
                macd = self.calculate_macd(window);
            }
            let values = IndicatorValues {
                ma5,
                ma10,
                ma20,
                ma60,
                volume_ma5,
                change_percent,
                amplitude,
                rsi,
                macd,
                bollinger,
                indicators: Vec::new(),
            };
            proof {
                assert(values@ == indicators_at(series, self.window_sizes@, i as int));
            }
            indicators.push(values);
            i += 1;
        }
        indicators
    }

    /// The records of one instrument in chronological order, each with the
    /// indicators of its day.
    pub fn enhance_series(&self, records: &Vec<TDXDayRecord>) -> (enhanced: Vec<EnhancedDayRecord>)
        ensures
            enhanced_views(enhanced@) == enhanced_series(
                chronological(views(records@)),
                self.window_sizes@,
            ),
            enhanced.len() == records.len(),
    {
        let series = in_date_order(records);
        let mut indicators = self.calculate_symbol_indicators(&series);
        let ghost computed = indicators@;
        let n = series.len();
        let mut backwards: Vec<EnhancedDayRecord> = Vec::new();
        while indicators.len() > 0
            invariant
                n == series.len(),
                computed.len() == n,
                indicators.len() + backwards.len() == n,
                forall|i: int| 0 <= i < indicators.len() ==> #[trigger] indicators@[i] == computed[i],
                forall|j: int|
                    0 <= j < backwards.len() ==> (#[trigger] backwards@[j]).base_record@ == series@[n
                        - 1 - j]@ && backwards@[j].indicators == computed[n - 1 - j],
            decreases indicators.len(),
        {
            let i = indicators.len() - 1;
            match indicators.pop() {
                Some(values) => {
                    backwards.push(EnhancedDayRecord::from_record(&series[i], values));
                },
                None => {},
            }
        }
        let mut enhanced: Vec<EnhancedDayRecord> = Vec::new();
        while backwards.len() > 0
            invariant
                n == series.len(),
                computed.len() == n,
                enhanced.len() + backwards.len() == n,
                forall|j: int|
                    0 <= j < backwards.len() ==> (#[trigger] backwards@[j]).base_record@ == series@[n
                        - 1 - j]@ && backwards@[j].indicators == computed[n - 1 - j],
                forall|i: int|
                    0 <= i < enhanced.len() ==> (#[trigger] enhanced@[i]).base_record@ == series@[i]@
                        && enhanced@[i].indicators == computed[i],
            decreases backwards.len(),
        {
            match backwards.pop() {
                Some(record) => {
                    enhanced.push(record);
                },
                None => {},
            }
        }
        proof {
            assert(enhanced_views(enhanced@) =~= enhanced_series(
                views(series@),
                self.window_sizes@,
            ));
        }
        enhanced
    }

    /// The records of each instrument with their indicators, instrument
    /// after instrument in the order in which the instruments first
    /// appear, each instrument's records in chronological order.
    pub fn calculate_all_indicators(&self, data: &Vec<TDXDayRecord>) -> (r: Result<
        Vec<EnhancedDayRecord>,
        DataError,
    >)
        ensures
            r matches Ok(enhanced) && enhanced_views(enhanced@) == enhanced_by_symbol(
                views(data@),
                symbols_seen(views(data@)),
                self.window_sizes@,
            ),
    {
        let symbols = distinct_symbols(data);
        let ghost names = text_views(symbols@);
        let mut enhanced: Vec<EnhancedDayRecord> = Vec::new();
        let mut k: usize = 0;
        assert(enhanced_views(enhanced@) =~= enhanced_by_symbol(
            views(data@),
            names.take(0),
            self.window_sizes@,
        ));
        while k < symbols.len()
            invariant
                k <= symbols.len(),
                names == text_views(symbols@),
                names == symbols_seen(views(data@)),
                enhanced_views(enhanced@) == enhanced_by_symbol(
                    views(data@),
                    names.take(k as int),
                    self.window_sizes@,
                ),
            decreases symbols.len() - k,
        {
            let ghost before = enhanced_views(enhanced@);
            proof {
                assert(names.take(k + 1).drop_last() == names.take(k as int));
                assert(names.take(k + 1).last() == symbols@[k as int]@);
            }
            let group = records_of(data, &symbols[k]);
            let mut series = self.enhance_series(&group);
            let ghost added = enhanced_views(series@);
            enhanced.append(&mut series);
            proof {
                assert(enhanced_views(enhanced@) =~= before + added);
            }
            k += 1;
        }
        proof {
            assert(names.take(symbols.len() as int) == names);
        }
        Ok(enhanced)
    }
}

/// The keys by which records are merged: the day first, then the place of
/// the instrument among `symbols` in the order of the dictionary.
pub open spec fn merge_keys(enhanced: Seq<(RecordView, IndicatorSet)>, symbols: Seq<Seq<char>>) -> Seq<
    int,
> {
    Seq::new(
        enhanced.len(),
        |i: int|
            enhanced[i].0.date.number() * 0x1_0000_0000_0000_0000 + texts_before(
                symbols,
                enhanced[i].0.symbol,
            ),
    )
}

/// `enhanced` in ascending order of day, the records of one day in the
/// order of the dictionary of their instruments, and the records of one
/// day and instrument in the order in which they stand in `enhanced`.
pub open spec fn by_date_and_symbol(
    enhanced: Seq<(RecordView, IndicatorSet)>,
    symbols: Seq<Seq<char>>,
) -> Seq<(RecordView, IndicatorSet)> {
    let order = stable_order(merge_keys(enhanced, symbols));
    Seq::new(enhanced.len(), |p: int| enhanced[order[p]])
}

/// Whether the days of `enhanced` never descend and, within one day, the
/// instruments never go back in the order of the dictionary.
pub open spec fn ordered_by_date_and_symbol(enhanced: Seq<(RecordView, IndicatorSet)>) -> bool {
    forall|p: int, q: int|
        0 <= p < q < enhanced.len() ==> (#[trigger] enhanced[p]).0.date.number() < (
        #[trigger] enhanced[q]).0.date.number() || (enhanced[p].0.date.number()
            == enhanced[q].0.date.number() && !lex_less(enhanced[q].0.symbol, enhanced[p].0.symbol))
}

/// Merged records come day after day and, within one day, instrument
/// after instrument in the order of the dictionary, whatever the order in
/// which they were handed in.
pub proof fn lemma_merged_order(enhanced: Seq<(RecordView, IndicatorSet)>, symbols: Seq<Seq<char>>)
    requires
        symbols.len() < 0x1_0000_0000_0000_0000,
        forall|i: int| 0 <= i < enhanced.len() ==> symbols.contains((#[trigger] enhanced[i]).0.symbol),
    ensures
        by_date_and_symbol(enhanced, symbols).len() == enhanced.len(),
        ordered_by_date_and_symbol(by_date_and_symbol(enhanced, symbols)),
        forall|i: int|
            0 <= i < enhanced.len() ==> by_date_and_symbol(enhanced, symbols).contains(
                #[trigger] enhanced[i],
            ),
{
    let keys = merge_keys(enhanced, symbols);
    let order = stable_order(keys);
    let merged = by_date_and_symbol(enhanced, symbols);
    lemma_stable_order(keys);
    assert forall|p: int, q: int| 0 <= p < q < merged.len() implies (#[trigger] merged[p]).0.date.number()
        < (#[trigger] merged[q]).0.date.number() || (merged[p].0.date.number()
        == merged[q].0.date.number() && !lex_less(merged[q].0.symbol, merged[p].0.symbol)) by {
        let i = order[p];
        let j = order[q];
        assert(comes_before(keys, i, j));
        let a = enhanced[i].0;
        let b = enhanced[j].0;
        lemma_texts_before_bound(symbols, a.symbol);
        lemma_texts_before_bound(symbols, b.symbol);
        if lex_less(b.symbol, a.symbol) {
            assert(symbols.contains(enhanced[j].0.symbol));
            lemma_texts_before_grows(symbols, b.symbol, a.symbol);
        }
    }
    assert forall|i: int| 0 <= i < enhanced.len() implies merged.contains(#[trigger] enhanced[i]) by {
        assert(order.contains(i));
        let p = choose|p: int| 0 <= p < order.len() && order[p] == i;
        assert(merged[p] == enhanced[i]);
    }
}

/// Every record that has its indicators is a record of one of the
/// instruments.
proof fn lemma_enhanced_symbols(records: Seq<RecordView>, symbols: Seq<Seq<char>>, sizes: Seq<usize>)
    ensures
        forall|i: int|
            0 <= i < enhanced_by_symbol(records, symbols, sizes).len() ==> symbols.contains(
                (#[trigger] enhanced_by_symbol(records, symbols, sizes)[i]).0.symbol,
            ),
    decreases symbols.len(),
{
    if symbols.len() > 0 {
        let shorter = symbols.drop_last();
        lemma_enhanced_symbols(records, shorter, sizes);
        let head = enhanced_by_symbol(records, shorter, sizes);
        let group = of_symbol(records, symbols.last());
        let series = chronological(group);
        let tail = enhanced_series(series, sizes);
        let all = enhanced_by_symbol(records, symbols, sizes);
        crate::parsers::tdx_day::lemma_chronological(group);
        lemma_of_symbol(records, symbols.last());
        assert forall|i: int| 0 <= i < all.len() implies symbols.contains((#[trigger] all[i]).0.symbol) by {
            if i < head.len() {
                assert(all[i] == head[i]);
                assert(shorter.contains(head[i].0.symbol));
                let k = choose|k: int| 0 <= k < shorter.len() && shorter[k] == head[i].0.symbol;
                assert(symbols[k] == head[i].0.symbol);
            } else {
                let j = i - head.len();
                assert(all[i] == tail[j]);
                assert(group.contains(series[j]));
                assert(symbols[symbols.len() - 1] == series[j].symbol);
            }
        }
    }
}

/// The records of an instrument carry its symbol.
proof fn lemma_of_symbol(records: Seq<RecordView>, symbol: Seq<char>)
    ensures
        forall|r: RecordView| #[trigger] of_symbol(records, symbol).contains(r) ==> r.symbol == symbol,
    decreases records.len(),
{
    if records.len() > 0 {
        let shorter = records.drop_last();
        lemma_of_symbol(shorter, symbol);
        let group = of_symbol(records, symbol);
        let before = of_symbol(shorter, symbol);
        assert forall|r: RecordView| #[trigger] group.contains(r) implies r.symbol == symbol by {
            let k = choose|k: int| 0 <= k < group.len() && group[k] == r;
            if k < before.len() {
                assert(before[k] == r);
                assert(before.contains(r));
            }
        }
    }
}

/// Puts `records` in the order `order`, which names each position once.
fn reordered(records: Vec<EnhancedDayRecord>, order: &Vec<usize>) -> (out: Vec<EnhancedDayRecord>)
    requires
        order.len() == records.len(),
        forall|p: int| 0 <= p < order.len() ==> (#[trigger] order@[p]) < records.len(),
        forall|p: int, q: int| 0 <= p < q < order.len() ==> order@[p] != order@[q],
    ensures
        out.len() == records.len(),
        forall|p: int| 0 <= p < out.len() ==> #[trigger] out@[p] == records@[order@[p] as int],
{
    let ghost given = records@;
    let n = records.len();
    let mut records = records;
    let mut slots: Vec<Option<EnhancedDayRecord>> = Vec::new();
    while records.len() > 0
        invariant
            records.len() + slots.len() == n,
            n == given.len(),
            forall|i: int| 0 <= i < records.len() ==> #[trigger] records@[i] == given[i],
            forall|j: int| 0 <= j < slots.len() ==> #[trigger] slots@[j] == Some(given[n - 1 - j]),
        decreases records.len(),
    {
        let last = records.pop();
        slots.push(last);
    }
    let mut out: Vec<EnhancedDayRecord> = Vec::new();
    let mut p: usize = 0;
    while p < n
        invariant
            n == given.len(),
            n == order.len(),
            slots.len() == n,
            p <= n,
            out.len() == p,
            forall|q: int| 0 <= q < order.len() ==> (#[trigger] order@[q]) < n,
            forall|a: int, b: int| 0 <= a < b < order.len() ==> order@[a] != order@[b],
            forall|q: int| 0 <= q < p ==> #[trigger] out@[q] == given[order@[q] as int],
            forall|j: int|
                0 <= j < n ==> #[trigger] slots@[j] == if exists|q: int|
                    0 <= q < p && order@[q] == n - 1 - j {
                    None::<EnhancedDayRecord>
                } else {
                    Some(given[n - 1 - j])
                },
        decreases n - p,
    {
        let at = n - 1 - order[p];
        let ghost before = slots@;
        slots.push(None);
        let taken = slots.swap_remove(at);
        proof {
            assert(!(exists|q: int| 0 <= q < p && order@[q] == n - 1 - at)) by {
                if exists|q: int| 0 <= q < p && order@[q] == n - 1 - at {
                    let q = choose|q: int| 0 <= q < p && order@[q] == n - 1 - at;
                    assert(order@[q] != order@[p as int]);
                }
            }
            assert(before[at as int] == Some(given[order@[p as int] as int]));
            assert forall|j: int| 0 <= j < n implies #[trigger] slots@[j] == if exists|q: int|
                0 <= q < p + 1 && order@[q] == n - 1 - j {
                None::<EnhancedDayRecord>
            } else {
                Some(given[n - 1 - j])
            } by {
                if j == at {
                    assert(order@[p as int] == n - 1 - j);
                } else {
                    assert(slots@[j] == before[j]);
                    if exists|q: int| 0 <= q < p && order@[q] == n - 1 - j {
                        let q = choose|q: int| 0 <= q < p && order@[q] == n - 1 - j;
                        assert(0 <= q < p + 1 && order@[q] == n - 1 - j);
                    }
                    if exists|q: int| 0 <= q < p + 1 && order@[q] == n - 1 - j {
                        let q = choose|q: int| 0 <= q < p + 1 && order@[q] == n - 1 - j;
                        assert(q != p);
                        assert(0 <= q < p && order@[q] == n - 1 - j);
                    }
                }
            }
        }
        match taken {
            Some(record) => {
                out.push(record);
            },
            None => {},
        }
        p += 1;
    }
    out
}

impl IndicatorCalculator {
    /// Hands the records of each instrument to `enhance_series` on the
    /// worker threads of `rayon`, through its parallel `map` and
    /// `collect`. Trusted: one result comes back for each instrument, in
    /// the order of the instruments, and it is what `enhance_series`
    /// returns for that instrument.
    #[verifier::external_body]
    fn fan_out(&self, groups: &Vec<Vec<TDXDayRecord>>) -> (results: Vec<Vec<EnhancedDayRecord>>)
        ensures
            results.len() == groups.len(),
            forall|k: int|
                0 <= k < groups.len() ==> enhanced_views((#[trigger] results@[k])@) == enhanced_series(
                    chronological(views(groups@[k]@)),
                    self.window_sizes@,
                ),
    {
        groups.par_iter().map(|records| self.enhance_series(records)).collect()
    }

    /// The records of all instruments with their indicators, the
    /// instruments computed side by side, merged day after day and,
    /// within one day, instrument after instrument in the order of the
    /// dictionary. The result does not depend on which instrument is
    /// computed first.
    pub fn calculate_parallel(&self, data: &Vec<TDXDayRecord>) -> (r: Result<
        Vec<EnhancedDayRecord>,
        DataError,
    >)
        ensures
            r matches Ok(merged) && enhanced_views(merged@) == by_date_and_symbol(
                enhanced_by_symbol(views(data@), symbols_seen(views(data@)), self.window_sizes@),
                symbols_seen(views(data@)),
            ) && merged.len() == data.len() && ordered_by_date_and_symbol(enhanced_views(merged@)),
    {
        let symbols = distinct_symbols(data);
        let ghost names = text_views(symbols@);
        let ghost sizes = self.window_sizes@;
        let mut groups: Vec<Vec<TDXDayRecord>> = Vec::new();
        let mut k: usize = 0;
        while k < symbols.len()
            invariant
                k <= symbols.len(),
                groups.len() == k,
                names == text_views(symbols@),
                forall|j: int|
                    0 <= j < k ==> views((#[trigger] groups@[j])@) == of_symbol(
                        views(data@),
                        names[j],
                    ),
            decreases symbols.len() - k,
        {
            groups.push(records_of(data, &symbols[k]));
            k += 1;
        }
        let mut results = self.fan_out(&groups);
        let ghost computed = results@;
        let mut backwards: Vec<Vec<EnhancedDayRecord>> = Vec::new();
        while results.len() > 0
            invariant
                results.len() + backwards.len() == computed.len(),
                forall|i: int| 0 <= i < results.len() ==> #[trigger] results@[i] == computed[i],
                forall|j: int|
                    0 <= j < backwards.len() ==> #[trigger] backwards@[j] == computed[computed.len()
                        - 1 - j],
            decreases results.len(),
        {
            match results.pop() {
                Some(series) => {
                    backwards.push(series);
                },
                None => {},
            }
        }
        let mut enhanced: Vec<EnhancedDayRecord> = Vec::new();
        let mut keys: Vec<i128> = Vec::new();
        let mut g: usize = 0;
        let m = symbols.len();
        assert(enhanced_views(enhanced@) =~= enhanced_by_symbol(views(data@), names.take(0), sizes));
        while g < m
            invariant
                m == symbols.len(),
                m == computed.len(),
                m == groups.len(),
                g <= m,
                backwards.len() == m - g,
                names == text_views(symbols@),
                names == symbols_seen(views(data@)),
                sizes == self.window_sizes@,
                forall|j: int|
                    0 <= j < m ==> views((#[trigger] groups@[j])@) == of_symbol(
                        views(data@),
                        names[j],
                    ),
                forall|j: int|
                    0 <= j < m ==> enhanced_views((#[trigger] computed[j])@) == enhanced_series(
                        chronological(views(groups@[j]@)),
                        sizes,
                    ),
                forall|j: int|
                    0 <= j < backwards.len() ==> #[trigger] backwards@[j] == computed[m - 1 - j],
                enhanced_views(enhanced@) == enhanced_by_symbol(
                    views(data@),
                    names.take(g as int),
                    sizes,
                ),
                keys.len() == enhanced.len(),
                forall|i: int|
                    0 <= i < keys.len() ==> #[trigger] keys@[i] == merge_keys(
                        enhanced_views(enhanced@),
                        names,
                    )[i],
            decreases m - g,
        {
            let ghost before = enhanced_views(enhanced@);
            proof {
                assert(names.take(g + 1).drop_last() == names.take(g as int));
                assert(names.take(g + 1).last() == symbols@[g as int]@);
            }
            let rank = rank_among(&symbols, symbols[g].as_str());
            let mut series = match backwards.pop() {
                Some(series) => series,
                None => Vec::new(),
            };
            proof {
                assert(series == computed[g as int]);
                assert(enhanced_views(series@) == enhanced_series(
                    chronological(of_symbol(views(data@), names[g as int])),
                    sizes,
                ));
                crate::parsers::tdx_day::lemma_chronological(
                    of_symbol(views(data@), names[g as int]),
                );
                lemma_of_symbol(views(data@), names[g as int]);
            }
            let ghost added = enhanced_views(series@);
            let ghost group = of_symbol(views(data@), names[g as int]);
            let mut i: usize = 0;
            let count = series.len();
            while i < count
                invariant
                    i <= count,
                    count == series.len(),
                    rank == texts_before(names, names[g as int]),
                    rank <= symbols.len(),
                    names == text_views(symbols@),
                    added == enhanced_views(series@),
                    g < m,
                    m == symbols.len(),
                    forall|j: int|
                        0 <= j < added.len() ==> (#[trigger] added[j]).0.symbol == names[g as int],
                    keys.len() == before.len() + i,
                    forall|j: int|
                        0 <= j < before.len() ==> #[trigger] keys@[j] == merge_keys(before, names)[j],
                    forall|j: int|
                        0 <= j < i ==> #[trigger] keys@[before.len() + j] == merge_keys(
                            added,
                            names,
                        )[j],
                decreases count - i,
            {
                let number = series[i].base_record.date.number();
                proof {
                    assert(added[i as int].0 == series@[i as int].base_record@);
                }
                keys.push((number as i128) * 0x1_0000_0000_0000_0000 + (rank as i128));
                i += 1;
            }
            enhanced.append(&mut series);
            proof {
                assert(enhanced_views(enhanced@) =~= before + added);
                assert forall|i: int| 0 <= i < keys.len() implies #[trigger] keys@[i] == merge_keys(
                    enhanced_views(enhanced@),
                    names,
                )[i] by {
                    if i < before.len() {
                        assert(keys@[i] == merge_keys(before, names)[i]);
                    } else {
                        assert(keys@[before.len() + (i - before.len())] == merge_keys(
                            added,
                            names,
                        )[i - before.len()]);
                    }
                }
            }
            g += 1;
        }
        proof {
            assert(names.take(m as int) == names);
            assert(key_values(keys@) =~= merge_keys(enhanced_views(enhanced@), names));
        }
        let order = arrange(&keys);
        let ghost all = enhanced_views(enhanced@);
        proof {
            let ghost ord = positions(order@);
            assert forall|p: int| 0 <= p < order.len() implies (#[trigger] order@[p])
                < enhanced.len() by {
                assert(ord[p] == order@[p]);
            }
            assert forall|p: int, q: int| 0 <= p < q < order.len() implies order@[p]
                != order@[q] by {
                assert(comes_before(key_values(keys@), ord[p], ord[q]));
            }
            lemma_enhanced_symbols(views(data@), names, sizes);
            lemma_merged_order(all, names);
            lemma_enhanced_len(views(data@), names, sizes);
        }
        let merged = reordered(enhanced, &order);
        proof {
            assert(enhanced_views(merged@) =~= by_date_and_symbol(all, names)) by {
                let ghost ord = positions(order@);
                assert forall|p: int| 0 <= p < merged.len() implies enhanced_views(merged@)[p]
                    == by_date_and_symbol(all, names)[p] by {
                    assert(ord[p] == order@[p]);
                }
            }
        }
        Ok(merged)
    }
}

/// As many records have their indicators as there are records.
proof fn lemma_enhanced_len(records: Seq<RecordView>, symbols: Seq<Seq<char>>, sizes: Seq<usize>)
    requires
        symbols == symbols_seen(records),
    ensures
        enhanced_by_symbol(records, symbols, sizes).len() == records.len(),
{
    lemma_group_sizes(records, symbols, sizes, symbols.len() as int);
    assert(symbols.take(symbols.len() as int) == symbols);
    lemma_seen_covers(records);
}

/// The records of the first `k` instruments with their indicators are as
/// many as the records of these instruments.
proof fn lemma_group_sizes(records: Seq<RecordView>, symbols: Seq<Seq<char>>, sizes: Seq<usize>, k: int)
    requires
        0 <= k <= symbols.len(),
    ensures
        enhanced_by_symbol(records, symbols.take(k), sizes).len() == group_total(
            records,
            symbols.take(k),
        ),
    decreases k,
{
    if k > 0 {
        lemma_group_sizes(records, symbols, sizes, k - 1);
        assert(symbols.take(k).drop_last() == symbols.take(k - 1));
        crate::parsers::tdx_day::lemma_chronological(of_symbol(records, symbols.take(k).last()));
    }
}

/// The number of records of `records` that carry one of `symbols`, each
/// symbol counted for itself.
pub open spec fn group_total(records: Seq<RecordView>, symbols: Seq<Seq<char>>) -> int
    decreases symbols.len(),
{
    if symbols.len() == 0 {
        0
    } else {
        group_total(records, symbols.drop_last()) + of_symbol(records, symbols.last()).len()
    }
}

/// The instruments that were seen share all records among them.
proof fn lemma_seen_covers(records: Seq<RecordView>)
    ensures
        group_total(records, symbols_seen(records)) == records.len(),
    decreases records.len(),
{
    if records.len() > 0 {
        let shorter = records.drop_last();
        let last = records.last();
        let before = symbols_seen(shorter);
        lemma_seen_covers(shorter);
        crate::processors::groups::lemma_symbols_seen(shorter);
        assert(records =~= shorter.push(last));
        if before.contains(last.symbol) {
            let k = choose|k: int| 0 <= k < before.len() && before[k] == last.symbol;
            lemma_one_more(shorter, last, before, k);
        } else {
            let seen = symbols_seen(records);
            lemma_none_more(shorter, last, before);
            assert(seen.drop_last() =~= before);
            assert(seen.last() == last.symbol);
            lemma_unseen_empty(shorter, last.symbol);
            assert(of_symbol(records, last.symbol).len() == 1);
        }
    }
}

/// A record of an instrument that was not seen adds nothing to the
/// records of the instruments that were.
proof fn lemma_none_more(records: Seq<RecordView>, last: RecordView, symbols: Seq<Seq<char>>)
    requires
        !symbols.contains(last.symbol),
    ensures
        group_total(records.push(last), symbols) == group_total(records, symbols),
    decreases symbols.len(),
{
    if symbols.len() > 0 {
        let shorter = symbols.drop_last();
        assert forall|j: int| 0 <= j < shorter.len() implies shorter[j] != last.symbol by {
            assert(symbols[j] == shorter[j]);
            assert(symbols.contains(symbols[j]));
        }
        lemma_none_more(records, last, shorter);
        assert(symbols[symbols.len() - 1] != last.symbol) by {
            assert(symbols.contains(symbols[symbols.len() - 1]));
        }
        assert(records.push(last).drop_last() == records);
    }
}

/// A record of the instrument at place `k` of instruments that are all
/// different adds one to the records of these instruments.
proof fn lemma_one_more(records: Seq<RecordView>, last: RecordView, symbols: Seq<Seq<char>>, k: int)
    requires
        0 <= k < symbols.len(),
        symbols[k] == last.symbol,
        symbols.no_duplicates(),
    ensures
        group_total(records.push(last), symbols) == group_total(records, symbols) + 1,
    decreases symbols.len(),
{
    let shorter = symbols.drop_last();
    assert(records.push(last).drop_last() == records);
    if k == symbols.len() - 1 {
        assert(!shorter.contains(last.symbol)) by {
            if shorter.contains(last.symbol) {
                let j = choose|j: int| 0 <= j < shorter.len() && shorter[j] == last.symbol;
                assert(symbols[j] == symbols[k]);
            }
        }
        lemma_none_more(records, last, shorter);
    } else {
        assert(shorter[k] == last.symbol);
        assert(shorter.no_duplicates()) by {
            assert forall|i: int, j: int| 0 <= i < j < shorter.len() implies shorter[i]
                != shorter[j] by {
                assert(symbols[i] == shorter[i] && symbols[j] == shorter[j]);
            }
        }
        lemma_one_more(records, last, shorter, k);
        assert(symbols[symbols.len() - 1] != symbols[k]);
    }
}

/// An instrument that was not seen has no records.
proof fn lemma_unseen_empty(records: Seq<RecordView>, symbol: Seq<char>)
    requires
        !symbols_seen(records).contains(symbol),
    ensures
        of_symbol(records, symbol).len() == 0,
    decreases records.len(),
{
    if records.len() > 0 {
        let shorter = records.drop_last();
        let before = symbols_seen(shorter);
        let seen = symbols_seen(records);
        if before.contains(symbol) {
            let k = choose|k: int| 0 <= k < before.len() && before[k] == symbol;
            assert(seen[k] == symbol);
        }
        if records.last().symbol == symbol {
            if before.contains(symbol) {
            } else {
                assert(seen[before.len() as int] == symbol);
            }
        }
        lemma_unseen_empty(shorter, symbol);
    }
}

impl Default for IndicatorValues {
    /// No indicator.
    fn default() -> (values: Self)
        ensures
            values.ma5 is None,
            values.ma10 is None,
            values.ma20 is None,
            values.ma60 is None,
            values.volume_ma5 is None,
            values.change_percent is None,
            values.amplitude is None,
            values.rsi is None,
            values.macd is None,
            values.bollinger is None,
            values.indicators@.len() == 0,
    {
        IndicatorValues {
            ma5: None,
            ma10: None,
            ma20: None,
            ma60: None,
            volume_ma5: None,
            change_percent: None,
            amplitude: None,
            rsi: None,
            macd: None,
            bollinger: None,
            indicators: Vec::new(),
        }
    }
}

/// Whether `closes` is a window of prices that the machine's integers can
/// take.
pub fn fits_window(closes: &[u64]) -> (fits: bool)
    ensures
        fits == is_window(closes@),
{
    let n = closes.len();
    if n > u32::MAX as usize {
        return false;
    }
    let mut i: usize = 0;
    while i < n
        invariant
            n == closes.len(),
            i <= n,
            forall|j: int| 0 <= j < i ==> #[trigger] closes@[j] <= MAX_PRICE_MICROS,
        decreases n - i,
    {
        if closes[i] > MAX_PRICE_MICROS {
            return false;
        }
        i += 1;
    }
    true
}

/// The indicators of a day read the days up to that day and none behind
/// it: two series that agree up to day `i` have the same indicators on day
/// `i`.
pub proof fn lemma_no_look_ahead(a: Seq<RecordView>, b: Seq<RecordView>, sizes: Seq<usize>, i: int)
    requires
        0 <= i < a.len(),
        i < b.len(),
        forall|j: int| 0 <= j <= i ==> a[j] == b[j],
    ensures
        indicators_at(a, sizes, i) == indicators_at(b, sizes, i),
{
    assert forall|size: int| 1 <= size <= i + 1 implies trailing(close_micros(a), i, size) == trailing(
        close_micros(b),
        i,
        size,
    ) && trailing(volumes_of(a), i, size) == trailing(volumes_of(b), i, size) by {
        assert(trailing(close_micros(a), i, size) =~= trailing(close_micros(b), i, size));
        assert(trailing(volumes_of(a), i, size) =~= trailing(volumes_of(b), i, size));
    }
    if i >= 1 {
        assert(a[i - 1] == b[i - 1]);
    }
    assert(a[i] == b[i]);
}

} // verus!
