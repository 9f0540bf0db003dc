//! Resampling of records into coarser bars, and the bookkeeping of
//! transformations applied to a sequence of records.

use crate::error::DataError;
use crate::numeric::{
    greatest, least, lemma_extremes_bound, lemma_total_below, lemma_total_run, maximum, minimum,
    sum, total,
};
use crate::parsers::tdx_day::{RecordView, TDXDayRecord, views};
use crate::processors::aggregator::{batch_at, batch_count, column_between, lemma_batch_count};
use crate::processors::fields::{column, field_by_name, field_named, field_value, Field};
use crate::processors::{chunk_bounds, chunk_count};
use crate::text::same_text;
use vstd::prelude::*;
use vstd::string::*;

verus! {

/// How the records of one chunk become one record.
#[derive(Clone, Copy, Debug, PartialEq, Eq, Structural)]
pub enum ResampleMethod {
    /// First open, greatest high, least low, last close.
    Ohlc,
    /// The mean of all four prices of all records in place of each price.
    Mean,
    /// As `Ohlc`.
    Sum,
}

/// How values are brought to one scale.
#[derive(Clone, Copy, Debug, PartialEq, Eq, Structural)]
pub enum NormalizationMethod {
    /// Between the least and the greatest value.
    MinMax,
    /// By mean and standard deviation.
    ZScore,
    /// By median and quartiles.
    Robust,
}

/// A transformation of a series.
#[derive(Clone, Copy, Debug, PartialEq, Eq, Structural)]
pub enum TransformType {
    /// The difference over `periods` steps.
    Difference { periods: usize },
    /// The logarithm.
    Log,
}

/// What one transformation did.
#[derive(Debug, PartialEq, Eq)]
pub struct TransformationStatistics {
    /// The kind of transformation.
    pub transform_type: String,
    /// The time it took, in milliseconds. It is not measured.
    pub processing_time_ms: u64,
    /// The memory it used, in bytes. It is not measured.
    pub memory_usage_bytes: usize,
    /// The size of the records that went in, in bytes.
    pub input_size_bytes: usize,
    /// The size of the records that came out, in bytes.
    pub output_size_bytes: usize,
}

/// The size of `count` records in memory, in bytes; the largest number
/// where that is more.
pub open spec fn records_size(count: int) -> int {
    let bytes = count * vstd::layout::size_of::<TDXDayRecord>();
    if bytes > usize::MAX {
        usize::MAX as int
    } else {
        bytes
    }
}

/// The number of records that make one bar of the time frame `name`: 60
/// for an hour, 1440 for a day, else one.
pub open spec fn group_size_of(name: Seq<char>) -> int {
    if name == "1h"@ {
        60
    } else if name == "1d"@ {
        1440
    } else {
        1
    }
}

/// The one record that the records `chunk`, of which there is at least
/// one, become: date, instrument and market of the first record, the sums
/// of volume and amount, and prices by `method`.
pub open spec fn chunk_summary(chunk: Seq<RecordView>, method: ResampleMethod) -> RecordView {
    let first = chunk[0];
    let volume = total(column(chunk, Field::Volume));
    let amount = total(column(chunk, Field::Amount));
    match method {
        ResampleMethod::Mean => {
            let price = (total(column(chunk, Field::Open)) + total(column(chunk, Field::High))
                + total(column(chunk, Field::Low)) + total(column(chunk, Field::Close))) / (4
                * (chunk.len() as int));
            RecordView { open: price, high: price, low: price, close: price, volume, amount, ..first }
        },
        _ => RecordView {
            high: greatest(column(chunk, Field::High)),
            low: least(column(chunk, Field::Low)),
            close: chunk[chunk.len() - 1].close,
            volume,
            amount,
            ..first
        },
    }
}

/// The first `count` chunks of `size` records of `records`, each as one
/// record.
pub open spec fn resampled(records: Seq<RecordView>, size: int, method: ResampleMethod, count: int) -> Seq<
    RecordView,
>
    decreases count,
{
    if count <= 0 {
        Seq::empty()
    } else {
        resampled(records, size, method, count - 1).push(
            chunk_summary(batch_at(records, size, count - 1), method),
        )
    }
}

/// What resampling to the time frame `name` makes of `records`.
pub open spec fn resampled_to(records: Seq<RecordView>, name: Seq<char>, method: ResampleMethod) -> Seq<
    RecordView,
> {
    if group_size_of(name) == 1 {
        records
    } else {
        resampled(
            records,
            group_size_of(name),
            method,
            batch_count(records.len() as int, group_size_of(name)),
        )
    }
}

/// Whether the volumes and the amounts of `records` can each be added up
/// in 64 bits.
pub open spec fn sums_fit(records: Seq<RecordView>) -> bool {
    total(column(records, Field::Volume)) <= u64::MAX && total(column(records, Field::Amount))
        <= u64::MAX
}

/// The kind under which the transformation named `name` is reported.
pub open spec fn transformation_kind(name: Seq<char>) -> Option<Seq<char>> {
    if name == "normalize"@ {
        Some("Normalize"@)
    } else if name == "indicators"@ {
        Some("Indicators"@)
    } else if name == "features"@ {
        Some("Features"@)
    } else {
        None
    }
}

/// Whether each of `names` is a known transformation.
pub open spec fn all_known(names: Seq<&str>) -> bool {
    forall|k: int| 0 <= k < names.len() ==> transformation_kind((#[trigger] names[k])@) is Some
}

/// Asks `std::mem::size_of` for the size of a record in memory.
fn record_size() -> (size: usize)
    ensures
        size == vstd::layout::size_of::<TDXDayRecord>(),
{
    core::mem::size_of::<TDXDayRecord>()
}

/// The size of `count` records in memory, in bytes.
fn size_of_records(count: usize) -> (bytes: usize)
    ensures
        bytes == records_size(count as int),
{
    let size = record_size();
    proof {
        assert(0 <= count * size <= usize::MAX * usize::MAX) by (nonlinear_arith)
            requires
                0 <= count <= usize::MAX,
                0 <= size <= usize::MAX,
        ;
    }
    let bytes: u128 = (count as u128) * (size as u128);
    if bytes > usize::MAX as u128 {
        usize::MAX
    } else {
        bytes as usize
    }
}

/// A report on a transformation of `input` records into `output` records.
fn statistics(kind: String, input: usize, output: usize) -> (stats: TransformationStatistics)
    ensures
        stats.transform_type@ == kind@,
        stats.processing_time_ms == 0,
        stats.memory_usage_bytes == 0,
        stats.input_size_bytes == records_size(input as int),
        stats.output_size_bytes == records_size(output as int),
{
    TransformationStatistics {
        transform_type: kind,
        processing_time_ms: 0,
        memory_usage_bytes: 0,
        input_size_bytes: size_of_records(input),
        output_size_bytes: size_of_records(output),
    }
}

/// A copy of `data`.
fn copy_of(data: &Vec<TDXDayRecord>) -> (copy: Vec<TDXDayRecord>)
    ensures
        views(copy@) == views(data@),
        copy.len() == data.len(),
{
    let copy = crate::processors::aggregator::records_between(data, 0, data.len());
    assert(views(data@).subrange(0, data.len() as int) =~= views(data@));
    copy
}

/// Whether the records are transformed in batches side by side, and in
/// batches of what size.
#[derive(Clone, Copy, Debug, PartialEq, Eq, Structural)]
pub struct DataTransformer {
    /// Whether batches are transformed side by side.
    pub parallel: bool,
    /// The number of records in a batch.
    pub batch_size: usize,
}

impl DataTransformer {
    /// A transformer that works side by side on batches of 10000 records.
    pub fn new() -> (transformer: Self)
        ensures
            transformer.parallel,
            transformer.batch_size == 10000,
    {
        DataTransformer { parallel: true, batch_size: 10000 }
    }

    /// The transformer with side-by-side work switched on or off.
    pub fn with_parallel(self, parallel: bool) -> (transformer: Self)
        ensures
            transformer.parallel == parallel,
            transformer.batch_size == self.batch_size,
    {
        DataTransformer { parallel, batch_size: self.batch_size }
    }

    /// The transformer with another batch size.
    pub fn with_batch_size(self, batch_size: usize) -> (transformer: Self)
        ensures
            transformer.parallel == self.parallel,
            transformer.batch_size == batch_size,
    {
        DataTransformer { parallel: self.parallel, batch_size }
    }

    /// The field named `field` of the record; zero where there is no such
    /// field.
    pub fn get_field_value(&self, record: &TDXDayRecord, field: &str) -> (value: u64)
        ensures
            value == match field_named(field@) {
                Some(f) => record@.value_of(f),
                None => 0,
            },
    {
        match field_by_name(field) {
            Some(f) => field_value(record, f),
            None => 0,
        }
    }

    /// The batches in which `length` records are transformed: all at once
    /// where the work is not done side by side or the records do not fill
    /// one batch, else batch after batch of `batch_size` records.
    pub fn batch_plan(&self, length: usize) -> (plan: Vec<(usize, usize)>)
        requires
            self.batch_size >= 1,
        ensures
            !self.parallel || length < self.batch_size ==> plan@ == seq![(0usize, length)],
            self.parallel && length >= self.batch_size ==> plan.len() == chunk_count(
                length as int,
                self.batch_size as int,
            ) && forall|k: int|
                0 <= k < plan.len() ==> (#[trigger] plan@[k]).0 == chunk_bounds(
                    length as int,
                    self.batch_size as int,
                    k,
                ).0 && plan@[k].1 == chunk_bounds(length as int, self.batch_size as int, k).1,
    {
        let mut plan: Vec<(usize, usize)> = Vec::new();
        if !self.parallel || length < self.batch_size {
            plan.push((0, length));
            assert(plan@ =~= seq![(0usize, length)]);
            return plan;
        }
        let size = self.batch_size;
        let count: usize = (length - 1) / size + 1;
        proof {
            lemma_batch_count(length as int, size as int);
            crate::processors::lemma_ceiling(length as int, size as int);
        }
        let mut k: usize = 0;
        while k < count
            invariant
                size == self.batch_size,
                size >= 1,
                length >= size,
                count == chunk_count(length as int, size as int),
                (count - 1) * size < length,
                count * size >= length,
                k <= count,
                plan.len() == k,
                forall|j: int|
                    0 <= j < k ==> (#[trigger] plan@[j]).0 == chunk_bounds(
                        length as int,
                        size as int,
                        j,
                    ).0 && plan@[j].1 == chunk_bounds(length as int, size as int, j).1,
            decreases count - k,
        {
            proof {
                assert(k * size <= (count - 1) * size) by (nonlinear_arith)
                    requires
                        0 <= k <= count - 1,
                        size >= 1,
                ;
                assert((k + 1) * size == k * size + size) by (nonlinear_arith);
            }
            let from = k * size;
            let to: usize = if length - from <= size {
                length
            } else {
                from + size
            };
            plan.push((from, to));
            k += 1;
        }
        plan
    }

    /// Makes one record of the records `from..to`, of which there is at
    /// least one; none of no records.
    pub fn aggregate_chunk(&self, data: &Vec<TDXDayRecord>, from: usize, to: usize, method: ResampleMethod) -> (r:
        Option<TDXDayRecord>)
        requires
            from <= to <= data.len(),
            sums_fit(views(data@)),
        ensures
            from == to ==> r is None,
            from < to ==> (r matches Some(record) && record@ == chunk_summary(
                views(data@).subrange(from as int, to as int),
                method,
            )),
    {
        if from == to {
            return None;
        }
        let ghost chunk = views(data@).subrange(from as int, to as int);
        let volumes = column_between(data, from, to, Field::Volume);
        let amounts = column_between(data, from, to, Field::Amount);
        proof {
            assert(column(views(data@), Field::Volume).subrange(from as int, to as int) =~= column(
                chunk,
                Field::Volume,
            ));
            assert(column(views(data@), Field::Amount).subrange(from as int, to as int) =~= column(
                chunk,
                Field::Amount,
            ));
            lemma_total_run(column(views(data@), Field::Volume), from as int, to as int);
            lemma_total_run(column(views(data@), Field::Amount), from as int, to as int);
            assert(chunk[0] == data@[from as int]@);
            assert(chunk[chunk.len() - 1] == data@[to - 1]@);
        }
        let volume = sum(&volumes) as u64;
        let amount = sum(&amounts) as u64;
        let first = &data[from];
        let highs = column_between(data, from, to, Field::High);
        let lows = column_between(data, from, to, Field::Low);
        proof {
            lemma_extremes_bound(highs@, u32::MAX as int);
            lemma_extremes_bound(lows@, u32::MAX as int);
        }
        let record = match method {
            ResampleMethod::Mean => {
                let opens = column_between(data, from, to, Field::Open);
                let closes = column_between(data, from, to, Field::Close);
                proof {
                    lemma_total_below(opens@, u32::MAX as int);
                    lemma_total_below(highs@, u32::MAX as int);
                    lemma_total_below(lows@, u32::MAX as int);
                    lemma_total_below(closes@, u32::MAX as int);
                }
                let count = (to - from) as u128;
                let all = sum(&opens) + sum(&highs) + sum(&lows) + sum(&closes);
                proof {
                    let ghost bound = u32::MAX as int;
                    let ghost above = all as int;
                    let ghost below = 4 * (count as int);
                    assert(above / below <= bound) by (nonlinear_arith)
                        requires
                            0 <= above <= below * bound,
                            below >= 4,
                            bound >= 0,
                    ;
                }
                let price = (all / (4 * count)) as u32;
                TDXDayRecord {
                    date: first.date,
                    symbol: first.symbol.clone(),
                    open: price,
                    high: price,
                    low: price,
                    close: price,
                    volume,
                    amount,
                    market: first.market.clone(),
                }
            },
            _ => TDXDayRecord {
                date: first.date,
                symbol: first.symbol.clone(),
                open: first.open,
                high: maximum(&highs) as u32,
                low: minimum(&lows) as u32,
                close: data[to - 1].close,
                volume,
                amount,
                market: first.market.clone(),
            },
        };
        Some(record)
    }

    /// Makes coarser bars of the records: one of each 60 records for the
    /// time frame `1h`, of each 1440 for `1d`, the last bar of what is
    /// left; any other time frame leaves the records as they are. Reports
    /// the bars, the number of fields added (none), and the sizes.
    pub fn resample_data(&self, data: &Vec<TDXDayRecord>, target_timeframe: &str, method: ResampleMethod) -> (r:
        Result<(Vec<TDXDayRecord>, usize, TransformationStatistics), DataError>)
        requires
            sums_fit(views(data@)),
        ensures
            r matches Ok((bars, added, stats)) && views(bars@) == resampled_to(
                views(data@),
                target_timeframe@,
                method,
            ) && added == 0 && stats.transform_type@ == "Resample_"@ + target_timeframe@
                && stats.input_size_bytes == records_size(data.len() as int)
                && stats.output_size_bytes == records_size(bars.len() as int),
    {
        let mut kind = String::from_str("Resample_");
        kind.append(target_timeframe);
        let group_size: usize = if same_text(target_timeframe, "1h") {
            60
        } else if same_text(target_timeframe, "1d") {
            1440
        } else {
            1
        };
        let n = data.len();
        if group_size == 1 {
            let copy = copy_of(data);
            return Ok((copy, 0, statistics(kind, n, n)));
        }
        let ghost all = views(data@);
        let count: usize = if n == 0 {
            0
        } else {
            (n - 1) / group_size + 1
        };
        proof {
            lemma_batch_count(n as int, group_size as int);
            crate::processors::lemma_ceiling(n as int, group_size as int);
        }
        let mut bars: Vec<TDXDayRecord> = Vec::new();
        let mut k: usize = 0;
        assert(views(bars@) =~= resampled(all, group_size as int, method, 0));
        while k < count
            invariant
                n == data.len(),
                all == views(data@),
                sums_fit(all),
                group_size == 60 || group_size == 1440,
                count == batch_count(n as int, group_size as int),
                n == 0 ==> count == 0,
                n > 0 ==> (count - 1) * group_size < n,
                count * group_size >= n,
                k <= count,
                bars.len() == k,
                views(bars@) == resampled(all, group_size as int, method, k as int),
            decreases count - k,
        {
            let ghost before = views(bars@);
            proof {
                assert(k * group_size <= (count - 1) * group_size) by (nonlinear_arith)
                    requires
                        0 <= k <= count - 1,
                        group_size >= 1,
                ;
                assert((k + 1) * group_size == k * group_size + group_size) by (nonlinear_arith);
            }
            let from = k * group_size;
            let to: usize = if n - from <= group_size {
                n
            } else {
                from + group_size
            };
            proof {
                assert(batch_at(all, group_size as int, k as int) == all.subrange(
                    from as int,
                    to as int,
                ));
            }
            match self.aggregate_chunk(data, from, to, method) {
                Some(bar) => {
                    bars.push(bar);
                    proof {
                        assert(views(bars@) =~= before.push(bar@));
                    }
                },
                None => {},
            }
            k += 1;
        }
        let made = bars.len();
        Ok((bars, 0, statistics(kind, n, made)))
    }

    /// Leaves the records as they are and reports the number of fields
    /// that were named, and the sizes. No records yield no records, no
    /// fields and sizes of nothing.
    pub fn normalize_data(&self, data: &Vec<TDXDayRecord>, method: &NormalizationMethod, fields: &Vec<String>) -> (r:
        (Vec<TDXDayRecord>, usize, TransformationStatistics))
        ensures
            views(r.0@) == views(data@),
            r.1 == if data.len() == 0 {
                0
            } else {
                fields.len()
            },
            r.2.transform_type@ == "Normalize"@,
            r.2.input_size_bytes == records_size(data.len() as int),
            r.2.output_size_bytes == records_size(data.len() as int),
    {
        let n = data.len();
        let named = if n == 0 {
            0
        } else {
            fields.len()
        };
        (copy_of(data), named, statistics(String::from_str("Normalize"), n, n))
    }

    /// Applies the transformations named in `transformations` one after
    /// the other and reports on each. Each of them leaves the records as
    /// they are; a name that is not known fails the whole.
    pub fn transform_data(&self, data: &Vec<TDXDayRecord>, transformations: Vec<&str>) -> (r: Result<
        (Vec<TDXDayRecord>, Vec<TransformationStatistics>),
        DataError,
    >)
        ensures
            match r {
                Ok((records, reports)) => all_known(transformations@) && views(records@) == views(
                    data@,
                ) && reports.len() == transformations.len() && forall|k: int|
                    0 <= k < reports.len() ==> Some((#[trigger] reports@[k]).transform_type@)
                        == transformation_kind(transformations@[k]@) && reports@[k].input_size_bytes
                        == records_size(data.len() as int) && reports@[k].output_size_bytes
                        == records_size(data.len() as int),
                Err(e) => e == DataError::UnknownTransformation && !all_known(transformations@),
            },
    {
        let n = data.len();
        let mut current_data = copy_of(data);
        let mut reports: Vec<TransformationStatistics> = Vec::new();
        let mut k: usize = 0;
        while k < transformations.len()
            invariant
                k <= transformations.len(),
                n == data.len(),
                current_data.len() == n,
                views(current_data@) == views(data@),
                reports.len() == k,
                forall|j: int|
                    0 <= j < k ==> Some((#[trigger] reports@[j]).transform_type@)
                        == transformation_kind(transformations@[j]@) && reports@[j].input_size_bytes
                        == records_size(n as int) && reports@[j].output_size_bytes == records_size(
                        n as int,
                    ),
            decreases transformations.len() - k,
        {
            let name = transformations[k];
            if same_text(name, "normalize") {
                let mut fields: Vec<String> = Vec::new();
                fields.push(String::from_str("open"));
                fields.push(String::from_str("high"));
                fields.push(String::from_str("low"));
                fields.push(String::from_str("close"));
                let (normalized, _, stats) = self.normalize_data(
                    &current_data,
                    &NormalizationMethod::MinMax,
                    &fields,
                );
                current_data = normalized;
                assert(views(current_data@) =~= views(data@));
                assert(current_data.len() == views(current_data@).len());
                reports.push(stats);
            } else if same_text(name, "indicators") {
                reports.push(statistics(String::from_str("Indicators"), n, n));
            } else if same_text(name, "features") {
                reports.push(statistics(String::from_str("Features"), n, n));
            } else {
                assert(transformation_kind(transformations@[k as int]@) is None);
                return Err(DataError::UnknownTransformation);
            }
            k += 1;
        }
        proof {
            assert forall|j: int| 0 <= j < transformations.len() implies transformation_kind(
                (#[trigger] transformations@[j])@,
            ) is Some by {
                assert(Some(reports@[j].transform_type@) == transformation_kind(
                    transformations@[j]@,
                ));
            }
        }
        Ok((current_data, reports))
    }
}

impl Default for DataTransformer {
    /// A transformer that works side by side on batches of 10000 records.
    fn default() -> (transformer: Self)
        ensures
            transformer.parallel,
            transformer.batch_size == 10000,
    {
        DataTransformer::new()
    }
}

/// Whether the volumes and the amounts of `data` can each be added up in
/// 64 bits, as resampling asks.
pub fn can_resample(data: &Vec<TDXDayRecord>) -> (fits: bool)
    ensures
        fits == sums_fit(views(data@)),
{
    let volumes = crate::processors::fields::column_of(data, Field::Volume);
    let amounts = crate::processors::fields::column_of(data, Field::Amount);
    sum(&volumes) <= u64::MAX as u128 && sum(&amounts) <= u64::MAX as u128
}

} // verus!
