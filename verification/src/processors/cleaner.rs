//! Rule-driven cleaning of records.
//!
//! A cleaner holds an ordered list of rules and, where days are to be
//! checked against it, a calendar of trading days. Each rule works on what
//! the rules before it left over.

use crate::calendar::{DateView, TradingDate};
use crate::error::DataError;
use crate::numeric::{
    ascending, integer_root, mean, mean_distance, mean_distance_of, mean_of,
    sort_ascending, variance, variance_of,
};
use crate::arrange::{lemma_stable_order, positions, stable_order};
use crate::parsers::tdx_day::{date_keys, date_order, RecordView, TDXDayRecord, views};
use crate::processors::aggregator::{floor_root, lemma_one_root};
use crate::processors::fields::{column, column_of, field_named, field_value, known_field, Field};
use crate::processors::groups::text_views;
use crate::processors::retain::{lemma_retained_len, retain, retained};
use crate::text::same_text;
use vstd::prelude::*;
use vstd::string::*;

verus! {

/// How outliers are told from the other values. Multipliers and thresholds
/// are in thousandths.
#[derive(Clone, Copy, Debug, PartialEq, Eq, Structural)]
pub enum OutlierMethod {
    /// Fences at `multiplier` interquartile ranges below the first and
    /// above the third quartile.
    IQR { multiplier: u32 },
    /// Fences at `threshold` standard deviations on both sides of the mean.
    ZScore { threshold: u32 },
    /// Fences at `threshold` mean deviations on both sides of the median.
    MedianDeviation { threshold: u32 },
}

/// How a missing value is replaced.
#[derive(Clone, Copy, Debug, PartialEq, Eq, Structural)]
pub enum FillMethod {
    /// By the value of the nearest earlier day of the same instrument.
    ForwardFill,
    /// By zero.
    BackwardFill,
    /// By the mean of the values of the same instrument.
    Mean,
    /// By zero.
    Median,
    /// By zero.
    Zero,
    /// Not at all: the records pass as they are.
    Drop,
}

/// One step of cleaning.
#[allow(inconsistent_fields)]
#[derive(Debug, PartialEq, Eq)]
pub enum CleaningRule {
    /// Drops the records whose field lies beyond the fences of `method`.
    /// The threshold of the rule itself is kept and not read.
    RemoveOutliers { field: String, method: OutlierMethod, threshold: u32 },
    /// Replaces the missing values of a field.
    FillMissing { field: String, method: FillMethod },
    /// Drops every record whose instrument and day were seen before. A key
    /// other than symbol and date leaves the records as they are.
    RemoveDuplicates { keys: Vec<String> },
    /// Puts high and low in order and open and close between them.
    ValidatePriceConsistency,
    /// Drops the records whose field lies below `min` or above `max`.
    ValidateRange { field: String, min: Option<u64>, max: Option<u64> },
    /// Drops the records of days that the calendar does not have. Without
    /// a calendar nothing is dropped.
    RemoveNonTradingDays,
}

/// How many records each kind of rule touched.
#[derive(Clone, Copy, Debug, PartialEq, Eq, Structural)]
pub struct CleaningStatistics {
    /// Records dropped as outliers.
    pub outliers_removed: u128,
    /// Records in which a missing value was replaced.
    pub missing_values_filled: u128,
    /// Records dropped as duplicates.
    pub duplicates_removed: u128,
    /// Records whose prices were put in order.
    pub price_inconsistencies: u128,
    /// Records dropped as out of range.
    pub range_violations: u128,
}

/// The report of one run of cleaning.
#[derive(Debug, PartialEq, Eq)]
pub struct CleaningResult {
    /// The number of records that went in.
    pub original_count: usize,
    /// The number of records that are left.
    pub cleaned_count: usize,
    /// The number of records that were dropped.
    pub removed_count: usize,
    /// The rules that were applied, in their order.
    pub applied_rules: Vec<String>,
    /// How many records each kind of rule touched.
    pub statistics: CleaningStatistics,
    /// Whether days were to be checked against a calendar that is empty,
    /// so that no day was checked.
    pub calendar_missing: bool,
}

/// The fences of `method` around `values`, in thousandths; none where the
/// values do not spread.
pub open spec fn fences(values: Seq<u64>, method: OutlierMethod) -> Option<(int, int)> {
    match method {
        OutlierMethod::IQR { multiplier } => if values.len() == 0 {
            None
        } else {
            let sorted = ascending(values);
            let q1 = sorted[values.len() as int / 4] as int;
            let q3 = sorted[3 * values.len() as int / 4] as int;
            Some((q1 * 1000 - multiplier * (q3 - q1), q3 * 1000 + multiplier * (q3 - q1)))
        },
        OutlierMethod::ZScore { threshold } => {
            let center = mean_of(values);
            let spread = floor_root(variance_of(values));
            if spread > 0 {
                Some((center * 1000 - threshold * spread, center * 1000 + threshold * spread))
            } else {
                None
            }
        },
        OutlierMethod::MedianDeviation { threshold } => if values.len() == 0 {
            None
        } else {
            let center = ascending(values)[values.len() as int / 2] as int;
            let spread = mean_distance_of(values, center);
            if spread > 0 {
                Some((center * 1000 - threshold * spread, center * 1000 + threshold * spread))
            } else {
                None
            }
        },
    }
}

/// Whether `value` lies beyond the fences `fence`.
pub open spec fn beyond(value: int, fence: Option<(int, int)>) -> bool {
    fence matches Some((low, high)) && (value * 1000 < low || value * 1000 > high)
}

/// For each value, whether it lies within the fences of `method`.
pub open spec fn inlier_marks(values: Seq<u64>, method: OutlierMethod) -> Seq<bool> {
    Seq::new(values.len(), |i: int| !beyond(values[i] as int, fences(values, method)))
}

/// Whether `value` is neither below `min` nor above `max`.
pub open spec fn in_range(value: int, min: Option<u64>, max: Option<u64>) -> bool {
    &&& min matches Some(low) ==> low <= value
    &&& max matches Some(high) ==> value <= high
}

/// For each value, whether it is in range.
pub open spec fn range_marks(values: Seq<u64>, min: Option<u64>, max: Option<u64>) -> Seq<bool> {
    Seq::new(values.len(), |i: int| in_range(values[i] as int, min, max))
}

/// Whether two records are of the same instrument and day.
pub open spec fn same_key(a: RecordView, b: RecordView) -> bool {
    a.symbol == b.symbol && a.date == b.date
}

/// Whether an earlier record has the instrument and day of record `i`.
pub open spec fn repeats(records: Seq<RecordView>, i: int) -> bool {
    exists|j: int| 0 <= j < i && same_key(#[trigger] records[j], records[i])
}

/// For each record, whether it is the first of its instrument and day.
pub open spec fn first_marks(records: Seq<RecordView>) -> Seq<bool> {
    Seq::new(records.len(), |i: int| !repeats(records, i))
}

/// The records that are left when those beyond the fences of `method` in
/// the field named `field` are dropped.
pub open spec fn outliers_dropped(records: Seq<RecordView>, field: Seq<char>, method: OutlierMethod) -> Seq<
    RecordView,
> {
    match field_named(field) {
        Some(f) => retained(records, inlier_marks(column(records, f), method)),
        None => records,
    }
}

/// The records whose field named `field` is in range.
pub open spec fn range_kept(
    records: Seq<RecordView>,
    field: Seq<char>,
    min: Option<u64>,
    max: Option<u64>,
) -> Seq<RecordView> {
    match field_named(field) {
        Some(f) => retained(records, range_marks(column(records, f), min, max)),
        None => records,
    }
}

/// The records that are left when duplicates under the key `keys` are
/// dropped.
pub open spec fn duplicates_dropped(records: Seq<RecordView>, keys: Seq<String>) -> Seq<RecordView> {
    if is_default_key(keys) {
        retained(records, first_marks(records))
    } else {
        records
    }
}

/// What each date of `days` holds.
pub open spec fn day_views(days: Seq<TradingDate>) -> Seq<DateView> {
    Seq::new(days.len(), |i: int| days[i]@)
}

/// For each record, whether its day is kept under the calendar `calendar`:
/// every day under an empty calendar, else the days of the calendar.
pub open spec fn trading_marks(records: Seq<RecordView>, calendar: Seq<DateView>) -> Seq<bool> {
    Seq::new(records.len(), |i: int| calendar.len() == 0 || calendar.contains(records[i].date))
}

/// `value`, moved to the nearer bound where it is not between `low` and
/// `high`.
pub open spec fn clamped(value: int, low: int, high: int) -> int {
    if value > high {
        high
    } else if value < low {
        low
    } else {
        value
    }
}

/// The record with its prices put in order: high and low exchanged where
/// the high is below the low, then open and close moved between them.
pub open spec fn repaired(record: RecordView) -> RecordView {
    let high = if record.high < record.low {
        record.low
    } else {
        record.high
    };
    let low = if record.high < record.low {
        record.high
    } else {
        record.low
    };
    RecordView {
        open: clamped(record.open, low, high),
        high,
        low,
        close: clamped(record.close, low, high),
        ..record
    }
}

/// Each record with its prices put in order.
pub open spec fn all_repaired(records: Seq<RecordView>) -> Seq<RecordView> {
    Seq::new(records.len(), |i: int| repaired(records[i]))
}

/// The number of records whose prices are not in order.
pub open spec fn disorder_count(records: Seq<RecordView>) -> int
    decreases records.len(),
{
    if records.len() == 0 {
        0
    } else {
        disorder_count(records.drop_last()) + if repaired(records.last()) != records.last() {
            1int
        } else {
            0int
        }
    }
}

/// Putting the prices in order a second time changes nothing.
pub proof fn lemma_repair_once(record: RecordView)
    ensures
        repaired(repaired(record)) == repaired(record),
{
}

/// Putting the prices of each record in order a second time changes
/// nothing and finds nothing out of order.
pub proof fn lemma_repair_idempotent(records: Seq<RecordView>)
    ensures
        all_repaired(all_repaired(records)) == all_repaired(records),
        disorder_count(all_repaired(records)) == 0,
    decreases records.len(),
{
    assert forall|i: int| 0 <= i < records.len() implies all_repaired(all_repaired(records))[i]
        == all_repaired(records)[i] by {
        lemma_repair_once(records[i]);
    }
    assert(all_repaired(all_repaired(records)) =~= all_repaired(records));
    if records.len() > 0 {
        lemma_repair_idempotent(records.drop_last());
        assert(all_repaired(records).drop_last() =~= all_repaired(records.drop_last()));
        lemma_repair_once(records.last());
    }
}

/// Whether `record` is a record of `records` that no earlier record shares
/// its instrument and day with.
pub open spec fn stands_first(records: Seq<RecordView>, record: RecordView) -> bool {
    exists|i: int| 0 <= i < records.len() && !repeats(records, i) && #[trigger] records[i] == record
}

/// Among the records that are left when duplicates are dropped, no two are
/// of the same instrument and day; each of them is the first of its
/// instrument and day in the input; and the first record of each
/// instrument and day is left.
pub proof fn lemma_first_occurrences(records: Seq<RecordView>)
    ensures
        forall|p: int, q: int|
            0 <= p < q < retained(records, first_marks(records)).len() ==> !same_key(
                #[trigger] retained(records, first_marks(records))[p],
                #[trigger] retained(records, first_marks(records))[q],
            ),
        forall|p: int|
            0 <= p < retained(records, first_marks(records)).len() ==> stands_first(
                records,
                #[trigger] retained(records, first_marks(records))[p],
            ),
        forall|i: int|
            0 <= i < records.len() && !repeats(records, i) ==> retained(
                records,
                first_marks(records),
            ).contains(#[trigger] records[i]),
{
    let keep = first_marks(records);
    let out = retained(records, keep);
    lemma_retained_len(records, keep);
    assert forall|p: int, q: int| 0 <= p < q < out.len() implies !same_key(
        #[trigger] out[p],
        #[trigger] out[q],
    ) by {
        crate::processors::retain::lemma_retained_origin(records, keep, p);
        crate::processors::retain::lemma_retained_origin(records, keep, q);
        crate::processors::retain::lemma_retained_order(keep, p, q);
        let i = crate::processors::retain::origin(keep, p);
        let j = crate::processors::retain::origin(keep, q);
        assert(keep[j]);
        assert(!repeats(records, j));
        if same_key(records[i], records[j]) {
            assert(repeats(records, j));
        }
    }
    assert forall|p: int| 0 <= p < out.len() implies stands_first(records, #[trigger] out[p]) by {
        crate::processors::retain::lemma_retained_origin(records, keep, p);
        let i = crate::processors::retain::origin(keep, p);
        assert(keep[i]);
        assert(records[i] == out[p]);
    }
    assert forall|i: int| 0 <= i < records.len() && !repeats(records, i) implies out.contains(
        #[trigger] records[i],
    ) by {
        assert(keep[i]);
        crate::processors::retain::lemma_retained_holds(records, keep, i);
    }
}

/// What a pair of fences holds.
pub open spec fn fence_view(fence: Option<(i128, i128)>) -> Option<(int, int)> {
    match fence {
        Some((low, high)) => Some((low as int, high as int)),
        None => None,
    }
}

/// Whether `keys` names the key of instrument and day: no key at all, or
/// the two names `symbol` and `date`.
pub open spec fn is_default_key(keys: Seq<String>) -> bool {
    keys.len() == 0 || (keys.len() == 2 && keys[0]@ == "symbol"@ && keys[1]@ == "date"@)
}

/// Fences at `factor` thousandths of `spread` on both sides of `center`.
fn fences_around(low_center: u64, high_center: u64, factor: u32, spread: u64) -> (fence: (i128, i128))
    ensures
        fence.0 == low_center * 1000 - factor * spread,
        fence.1 == high_center * 1000 + factor * spread,
{
    proof {
        assert(0 <= factor * spread <= 0xFFFF_FFFF * 0xFFFF_FFFF_FFFF_FFFF) by (nonlinear_arith)
            requires
                0 <= factor <= 0xFFFF_FFFF,
                0 <= spread <= 0xFFFF_FFFF_FFFF_FFFF,
        ;
    }
    let reach: i128 = (factor as i128) * (spread as i128);
    ((low_center as i128) * 1000 - reach, (high_center as i128) * 1000 + reach)
}

/// Whether `value` lies beyond the fences.
fn is_beyond(value: u64, fence: &Option<(i128, i128)>) -> (out: bool)
    ensures
        out == beyond(value as int, fence_view(*fence)),
{
    match fence {
        Some((low, high)) => {
            let scaled: i128 = (value as i128) * 1000;
            scaled < *low || scaled > *high
        },
        None => false,
    }
}

/// A calendar-checked, rule-driven cleaner of records.
#[derive(Debug)]
pub struct DataCleaner {
    /// The rules, in the order in which they are applied.
    pub rules: Vec<CleaningRule>,
    /// The trading days; empty where there is no calendar.
    pub trading_days: Vec<TradingDate>,
}

impl DataCleaner {
    /// A cleaner without rules and without a calendar.
    pub fn new() -> (cleaner: Self)
        ensures
            cleaner.rules@.len() == 0,
            cleaner.trading_days@.len() == 0,
    {
        DataCleaner { rules: Vec::new(), trading_days: Vec::new() }
    }

    /// Adds one rule behind the others.
    pub fn add_rule(&mut self, rule: CleaningRule)
        ensures
            final(self).rules@ == old(self).rules@.push(rule),
            final(self).trading_days@ == old(self).trading_days@,
    {
        self.rules.push(rule);
    }

    /// Adds rules behind the others, in their order.
    pub fn add_rules(&mut self, rules: Vec<CleaningRule>)
        ensures
            final(self).rules@ == old(self).rules@ + rules@,
            final(self).trading_days@ == old(self).trading_days@,
    {
        let mut rules = rules;
        self.rules.append(&mut rules);
    }

    /// Replaces the calendar of trading days.
    pub fn set_trading_days(&mut self, trading_days: Vec<TradingDate>)
        ensures
            final(self).trading_days@ == trading_days@,
            final(self).rules@ == old(self).rules@,
    {
        self.trading_days = trading_days;
    }

    /// Reads the field named `field` of `record`.
    pub fn extract_field_value(&self, record: &TDXDayRecord, field: &str) -> (r: Result<
        u64,
        DataError,
    >)
        ensures
            match r {
                Ok(value) => field_named(field@) matches Some(f) && value == record@.value_of(f),
                Err(e) => e == DataError::UnknownField && field_named(field@) is None,
            },
    {
        match known_field(field) {
            Ok(f) => Ok(field_value(record, f)),
            Err(e) => Err(e),
        }
    }

    /// Finds the fences of `method` around `values` and the positions of
    /// the values beyond them, in ascending order. The threshold of the
    /// rule is not read: each method carries its own.
    pub fn detect_outliers(&self, values: &Vec<u64>, method: &OutlierMethod, threshold: u32) -> (found:
        (Vec<usize>, Option<(i128, i128)>))
        ensures
            fence_view(found.1) == fences(values@, *method),
            forall|k: int|
                0 <= k < found.0.len() ==> (#[trigger] found.0@[k]) < values.len() && beyond(
                    values@[found.0@[k] as int] as int,
                    fences(values@, *method),
                ),
            forall|k: int, l: int|
                0 <= k < l < found.0.len() ==> (#[trigger] found.0@[k]) < (#[trigger] found.0@[l]),
            forall|i: int|
                0 <= i < values.len() && beyond(
                    (#[trigger] values@[i]) as int,
                    fences(values@, *method),
                ) ==> found.0@.contains(i as usize),
    {
        let n = values.len();
        let fence: Option<(i128, i128)> = match method {
            OutlierMethod::IQR { multiplier } => {
                if n == 0 {
                    None
                } else {
                    let sorted = sort_ascending(values);
                    let q1 = sorted[n / 4];
                    let q3 = sorted[((3 * (n as u128)) / 4) as usize];
                    proof {
                        crate::numeric::lemma_ascending(values@);
                        assert(q1 <= q3);
                    }
                    Some(fences_around(q1, q3, *multiplier, q3 - q1))
                }
            },
            OutlierMethod::ZScore { threshold } => {
                let center = mean(values);
                let spread = integer_root(variance(values));
                proof {
                    lemma_one_root(
                        variance_of(values@),
                        spread as int,
                        floor_root(variance_of(values@)),
                    );
                }
                if spread > 0 {
                    Some(fences_around(center, center, *threshold, spread))
                } else {
                    None
                }
            },
            OutlierMethod::MedianDeviation { threshold } => {
                if n == 0 {
                    None
                } else {
                    let sorted = sort_ascending(values);
                    let center = sorted[n / 2];
                    let spread = mean_distance(values, center);
                    if spread > 0 {
                        Some(fences_around(center, center, *threshold, spread))
                    } else {
                        None
                    }
                }
            },
        };
        let mut found: Vec<usize> = Vec::new();
        let mut i: usize = 0;
        while i < n
            invariant
                n == values.len(),
                i <= n,
                fence_view(fence) == fences(values@, *method),
                forall|k: int|
                    0 <= k < found.len() ==> (#[trigger] found@[k]) < i && beyond(
                        values@[found@[k] as int] as int,
                        fences(values@, *method),
                    ),
                forall|k: int, l: int|
                    0 <= k < l < found.len() ==> (#[trigger] found@[k]) < (#[trigger] found@[l]),
                forall|j: int|
                    0 <= j < i && beyond((#[trigger] values@[j]) as int, fences(values@, *method))
                        ==> found@.contains(j as usize),
            decreases n - i,
        {
            let ghost before = found@;
            if is_beyond(values[i], &fence) {
                found.push(i);
                proof {
                    assert(found@[found.len() - 1] == i);
                    assert forall|j: int|
                        0 <= j < i + 1 && beyond(
                            (#[trigger] values@[j]) as int,
                            fences(values@, *method),
                        ) implies found@.contains(j as usize) by {
                        if j < i {
                            assert(before.contains(j as usize));
                            let k = choose|k: int| 0 <= k < before.len() && before[k] == j as usize;
                            assert(found@[k] == j as usize);
                        }
                    }
                }
            }
            i += 1;
        }
        (found, fence)
    }

    /// Drops the records whose field `field` lies beyond the fences of
    /// `method`, and counts them.
    pub fn remove_outliers(
        &self,
        data: Vec<TDXDayRecord>,
        field: &str,
        method: OutlierMethod,
        threshold: u32,
    ) -> (r: Result<(Vec<TDXDayRecord>, usize), DataError>)
        ensures
            match r {
                Ok((kept, dropped)) => (data.len() == 0 || field_named(field@) is Some) && views(
                    kept@,
                ) == outliers_dropped(views(data@), field@, method) && dropped == data.len()
                    - kept.len() && kept.len() <= data.len(),
                Err(e) => e == DataError::UnknownField && data.len() > 0 && field_named(field@)
                    is None,
            },
    {
        let n = data.len();
        if n == 0 {
            assert(views(data@) =~= outliers_dropped(views(data@), field@, method));
            return Ok((data, 0));
        }
        let f = match known_field(field) {
            Ok(f) => f,
            Err(e) => {
                return Err(e);
            },
        };
        let values = column_of(&data, f);
        let (found, _) = self.detect_outliers(&values, &method, threshold);
        let mut keep: Vec<bool> = Vec::new();
        let mut i: usize = 0;
        while i < n
            invariant
                i <= n,
                keep.len() == i,
                forall|j: int| 0 <= j < i ==> #[trigger] keep@[j],
            decreases n - i,
        {
            keep.push(true);
            i += 1;
        }
        let mut k: usize = 0;
        while k < found.len()
            invariant
                k <= found.len(),
                keep.len() == n,
                n == values.len(),
                forall|l: int| 0 <= l < found.len() ==> (#[trigger] found@[l]) < n,
                forall|j: int|
                    0 <= j < n ==> (#[trigger] keep@[j]) == !found@.take(k as int).contains(
                        j as usize,
                    ),
            decreases found.len() - k,
        {
            let ghost before = keep@;
            keep.set(found[k], false);
            proof {
                assert forall|j: int| 0 <= j < n implies (#[trigger] keep@[j]) == !found@.take(
                    k + 1,
                ).contains(j as usize) by {
                    let shorter = found@.take(k as int);
                    let longer = found@.take(k + 1);
                    if longer.contains(j as usize) {
                        let l = choose|l: int| 0 <= l < longer.len() && longer[l] == j as usize;
                        if l < k {
                            assert(shorter[l] == j as usize);
                        }
                    }
                    if shorter.contains(j as usize) {
                        let l = choose|l: int| 0 <= l < shorter.len() && shorter[l] == j as usize;
                        assert(longer[l] == j as usize);
                    }
                    if j == found@[k as int] {
                        assert(longer[k as int] == j as usize);
                    }
                }
            }
            k += 1;
        }
        proof {
            assert(found@.take(found.len() as int) == found@);
            assert forall|j: int| 0 <= j < n implies keep@[j] == inlier_marks(values@, method)[j] by {
                if found@.contains(j as usize) {
                    let l = choose|l: int| 0 <= l < found.len() && found@[l] == j as usize;
                    assert(beyond(values@[found@[l] as int] as int, fences(values@, method)));
                }
            }
            assert(keep@ =~= inlier_marks(values@, method));
        }
        let kept = retain(&data, &keep);
        let dropped = n - kept.len();
        Ok((kept, dropped))
    }

    /// Drops every record whose instrument and day were seen before, and
    /// counts them. A key other than that of instrument and day leaves the
    /// records as they are.
    pub fn remove_duplicates(&self, data: Vec<TDXDayRecord>, keys: &Vec<String>) -> (r: (
        Vec<TDXDayRecord>,
        usize,
    ))
        ensures
            views(r.0@) == duplicates_dropped(views(data@), keys@),
            r.1 == data.len() - r.0.len(),
            r.0.len() <= data.len(),
    {
        let by_default = keys.len() == 0 || (keys.len() == 2 && same_text(
            keys[0].as_str(),
            "symbol",
        ) && same_text(keys[1].as_str(), "date"));
        if !by_default {
            return (data, 0);
        }
        let n = data.len();
        let mut keep: Vec<bool> = Vec::new();
        let mut i: usize = 0;
        while i < n
            invariant
                n == data.len(),
                i <= n,
                keep.len() == i,
                forall|j: int| 0 <= j < i ==> #[trigger] keep@[j] == !repeats(views(data@), j),
            decreases n - i,
        {
            let mut seen = false;
            let mut j: usize = 0;
            while j < i && !seen
                invariant
                    n == data.len(),
                    i < n,
                    j <= i,
                    seen ==> repeats(views(data@), i as int),
                    !seen ==> forall|l: int|
                        0 <= l < j ==> !same_key(#[trigger] views(data@)[l], views(data@)[i as int]),
                decreases i - j + if seen { 0int } else { 1int },
            {
                if data[j].date.same_day(&data[i].date) && data[j].symbol == data[i].symbol {
                    assert(same_key(views(data@)[j as int], views(data@)[i as int]));
                    seen = true;
                } else {
                    j += 1;
                }
            }
            keep.push(!seen);
            i += 1;
        }
        assert(keep@ =~= first_marks(views(data@)));
        let kept = retain(&data, &keep);
        let dropped = n - kept.len();
        (kept, dropped)
    }

    /// Puts the prices of each record in order, and counts the records
    /// whose prices were not.
    pub fn validate_price_consistency(&self, data: Vec<TDXDayRecord>) -> (r: (
        Vec<TDXDayRecord>,
        usize,
    ))
        ensures
            views(r.0@) == all_repaired(views(data@)),
            r.1 == disorder_count(views(data@)),
            r.0.len() == data.len(),
    {
        let n = data.len();
        let mut fixed_data: Vec<TDXDayRecord> = Vec::new();
        let mut fixed_count: usize = 0;
        let mut i: usize = 0;
        while i < n
            invariant
                n == data.len(),
                i <= n,
                fixed_data.len() == i,
                fixed_count <= i,
                fixed_count == disorder_count(views(data@).take(i as int)),
                forall|j: int| 0 <= j < i ==> (#[trigger] fixed_data@[j])@ == repaired(data@[j]@),
            decreases n - i,
        {
            proof {
                assert(views(data@).take(i + 1).drop_last() == views(data@).take(i as int));
                assert(views(data@).take(i + 1).last() == data@[i as int]@);
            }
            let mut fixed = data[i].clone();
            let mut needs_fix = false;
            if fixed.high < fixed.low {
                let high = fixed.high;
                fixed.high = fixed.low;
                fixed.low = high;
                needs_fix = true;
            }
            if fixed.open > fixed.high {
                fixed.open = fixed.high;
                needs_fix = true;
            }
            if fixed.open < fixed.low {
                fixed.open = fixed.low;
                needs_fix = true;
            }
            if fixed.close > fixed.high {
                fixed.close = fixed.high;
                needs_fix = true;
            }
            if fixed.close < fixed.low {
                fixed.close = fixed.low;
                needs_fix = true;
            }
            assert(fixed@ == repaired(data@[i as int]@));
            assert(needs_fix == (repaired(data@[i as int]@) != data@[i as int]@));
            if needs_fix {
                fixed_count += 1;
            }
            fixed_data.push(fixed);
            i += 1;
        }
        proof {
            assert(views(data@).take(n as int) == views(data@));
            assert(views(fixed_data@) =~= all_repaired(views(data@)));
        }
        (fixed_data, fixed_count)
    }

    /// Drops the records whose field `field` lies below `min` or above
    /// `max`, and counts them.
    pub fn validate_range(
        &self,
        data: Vec<TDXDayRecord>,
        field: &str,
        min: Option<u64>,
        max: Option<u64>,
    ) -> (r: Result<(Vec<TDXDayRecord>, usize), DataError>)
        ensures
            match r {
                Ok((kept, dropped)) => (data.len() == 0 || field_named(field@) is Some) && views(
                    kept@,
                ) == range_kept(views(data@), field@, min, max) && dropped == data.len()
                    - kept.len() && kept.len() <= data.len(),
                Err(e) => e == DataError::UnknownField && data.len() > 0 && field_named(field@)
                    is None,
            },
    {
        let n = data.len();
        if n == 0 {
            assert(views(data@) =~= range_kept(views(data@), field@, min, max));
            return Ok((data, 0));
        }
        let f = match known_field(field) {
            Ok(f) => f,
            Err(e) => {
                return Err(e);
            },
        };
        let mut keep: Vec<bool> = Vec::new();
        let mut i: usize = 0;
        while i < n
            invariant
                n == data.len(),
                i <= n,
                keep.len() == i,
                forall|j: int|
                    0 <= j < i ==> #[trigger] keep@[j] == in_range(
                        data@[j]@.value_of(f),
                        min,
                        max,
                    ),
            decreases n - i,
        {
            let value = field_value(&data[i], f);
            let mut is_valid = true;
            match min {
                Some(low) => {
                    if value < low {
                        is_valid = false;
                    }
                },
                None => {},
            }
            match max {
                Some(high) => {
                    if value > high {
                        is_valid = false;
                    }
                },
                None => {},
            }
            keep.push(is_valid);
            i += 1;
        }
        assert(keep@ =~= range_marks(column(views(data@), f), min, max));
        let kept = retain(&data, &keep);
        let dropped = n - kept.len();
        Ok((kept, dropped))
    }

    /// Whether the calendar has the day `day`.
    fn is_trading_day(&self, day: &TradingDate) -> (found: bool)
        ensures
            found == day_views(self.trading_days@).contains(day@),
    {
        let mut k: usize = 0;
        while k < self.trading_days.len()
            invariant
                k <= self.trading_days.len(),
                forall|l: int| 0 <= l < k ==> day_views(self.trading_days@)[l] != day@,
            decreases self.trading_days.len() - k,
        {
            if self.trading_days[k].same_day(day) {
                assert(day_views(self.trading_days@)[k as int] == day@);
                return true;
            }
            k += 1;
        }
        false
    }

    /// Drops the records of days that the calendar does not have, and
    /// counts them. Without a calendar nothing is dropped.
    pub fn remove_non_trading_days(&self, data: Vec<TDXDayRecord>) -> (r: (Vec<TDXDayRecord>, usize))
        ensures
            views(r.0@) == retained(
                views(data@),
                trading_marks(views(data@), day_views(self.trading_days@)),
            ),
            r.1 == data.len() - r.0.len(),
            r.0.len() <= data.len(),
    {
        let n = data.len();
        let open_calendar = self.trading_days.len() == 0;
        let mut keep: Vec<bool> = Vec::new();
        let mut i: usize = 0;
        while i < n
            invariant
                n == data.len(),
                i <= n,
                keep.len() == i,
                open_calendar == (self.trading_days.len() == 0),
                forall|j: int|
                    0 <= j < i ==> #[trigger] keep@[j] == (self.trading_days.len() == 0
                        || day_views(self.trading_days@).contains(data@[j]@.date)),
            decreases n - i,
        {
            let kept = open_calendar || self.is_trading_day(&data[i].date);
            keep.push(kept);
            i += 1;
        }
        assert(keep@ =~= trading_marks(views(data@), day_views(self.trading_days@)));
        let kept = retain(&data, &keep);
        let dropped = n - kept.len();
        (kept, dropped)
    }
}

/// The last volume before record `i` that is not zero.
pub open spec fn last_volume(records: Seq<RecordView>, i: int) -> Option<int>
    decreases i,
{
    if i <= 0 {
        None
    } else if records[i - 1].volume != 0 {
        Some(records[i - 1].volume)
    } else {
        last_volume(records, i - 1)
    }
}

/// The last amount before record `i` that is not zero.
pub open spec fn last_amount(records: Seq<RecordView>, i: int) -> Option<int>
    decreases i,
{
    if i <= 0 {
        None
    } else if records[i - 1].amount != 0 {
        Some(records[i - 1].amount)
    } else {
        last_amount(records, i - 1)
    }
}

/// The record with a volume of zero replaced by `volume` and an amount of
/// zero by `amount`, where there is one.
pub open spec fn carried(record: RecordView, volume: Option<int>, amount: Option<int>) -> RecordView {
    RecordView {
        volume: match volume {
            Some(v) if record.volume == 0 => v,
            _ => record.volume,
        },
        amount: match amount {
            Some(a) if record.amount == 0 => a,
            _ => record.amount,
        },
        ..record
    }
}

/// Each record with a volume or an amount of zero replaced by the last one
/// before it that is not zero, whatever the instrument.
pub open spec fn volumes_carried(records: Seq<RecordView>) -> Seq<RecordView> {
    Seq::new(
        records.len(),
        |i: int| carried(records[i], last_volume(records, i), last_amount(records, i)),
    )
}

/// The number of the first `count` records in which a volume or an amount
/// is replaced.
pub open spec fn carried_count(records: Seq<RecordView>, count: int) -> int
    decreases count,
{
    if count <= 0 {
        0
    } else {
        carried_count(records, count - 1) + if carried(
            records[count - 1],
            last_volume(records, count - 1),
            last_amount(records, count - 1),
        ) != records[count - 1] {
            1int
        } else {
            0int
        }
    }
}

/// Whether the field `field` of the record is missing: not positive.
pub open spec fn is_missing(record: RecordView, field: Field) -> bool {
    record.value_of(field) <= 0
}

/// The record with the field `field` set to `value`.
pub open spec fn with_field(record: RecordView, field: Field, value: int) -> RecordView {
    match field {
        Field::Open => RecordView { open: value, ..record },
        Field::High => RecordView { high: value, ..record },
        Field::Low => RecordView { low: value, ..record },
        Field::Close => RecordView { close: value, ..record },
        Field::Volume => RecordView { volume: value, ..record },
        Field::Amount => RecordView { amount: value, ..record },
    }
}

/// The field `field` of the nearest record before position `scan` of the
/// order `order` that has the instrument `symbol` and the field there;
/// zero where there is none.
pub open spec fn earlier_value(
    current: Seq<RecordView>,
    order: Seq<int>,
    symbol: Seq<char>,
    scan: int,
    field: Field,
) -> int
    decreases scan,
{
    if scan <= 0 {
        0
    } else {
        let j = order[scan - 1];
        if current[j].symbol == symbol && !is_missing(current[j], field) {
            current[j].value_of(field)
        } else {
            earlier_value(current, order, symbol, scan - 1, field)
        }
    }
}

/// The field `field` of the records of `records` that have the instrument
/// `symbol` and the field there, in their order.
pub open spec fn sound_values(records: Seq<RecordView>, symbol: Seq<char>, field: Field) -> Seq<u64>
    decreases records.len(),
{
    if records.len() == 0 {
        Seq::empty()
    } else {
        let before = sound_values(records.drop_last(), symbol, field);
        if records.last().symbol == symbol && !is_missing(records.last(), field) {
            before.push(records.last().value_of(field) as u64)
        } else {
            before
        }
    }
}

/// The value that replaces the price `field` of the record at position
/// `step` of the chronological order `order`, as the records stand in
/// `current`: under `ForwardFill` the price of the nearest earlier day of
/// the same instrument on which it is there, under `Mean` the mean of the
/// price over the records of the same instrument in which it is there,
/// under any other method zero; zero too where there is no such record.
pub open spec fn fill_value(
    current: Seq<RecordView>,
    order: Seq<int>,
    step: int,
    field: Field,
    method: FillMethod,
) -> int {
    let symbol = current[order[step]].symbol;
    match method {
        FillMethod::ForwardFill => earlier_value(current, order, symbol, step, field),
        FillMethod::Mean => mean_of(sound_values(current, symbol, field)),
        _ => 0,
    }
}

/// The records after the first `steps` of them, in the chronological order
/// `order`, had the price `field` replaced where it was missing. A price
/// that is there after that counts for the records that follow.
pub open spec fn prices_filled(
    records: Seq<RecordView>,
    order: Seq<int>,
    field: Field,
    method: FillMethod,
    steps: int,
) -> Seq<RecordView>
    decreases steps,
{
    if steps <= 0 {
        records
    } else {
        let current = prices_filled(records, order, field, method, steps - 1);
        let i = order[steps - 1];
        if is_missing(current[i], field) {
            current.update(
                i,
                with_field(current[i], field, fill_value(current, order, steps - 1, field, method)),
            )
        } else {
            current
        }
    }
}

/// The number of the first `steps` records, in the chronological order
/// `order`, in which a price was replaced.
pub open spec fn fill_count(
    records: Seq<RecordView>,
    order: Seq<int>,
    field: Field,
    method: FillMethod,
    steps: int,
) -> int
    decreases steps,
{
    if steps <= 0 {
        0
    } else {
        fill_count(records, order, field, method, steps - 1) + if is_missing(
            prices_filled(records, order, field, method, steps - 1)[order[steps - 1]],
            field,
        ) {
            1int
        } else {
            0int
        }
    }
}

/// The records with the missing values of the field named `field`
/// replaced, and the number of records in which one was replaced; or
/// `UnknownField` where there are records and no field of that name.
/// Volume and amount are carried forward whatever the method; a price is
/// replaced by the method, and left as it is by `Drop`.
pub open spec fn missing_filled(records: Seq<RecordView>, field: Seq<char>, method: FillMethod) -> Result<
    (Seq<RecordView>, int),
    DataError,
> {
    if records.len() == 0 {
        Ok((records, 0))
    } else {
        match field_named(field) {
            None => Err(DataError::UnknownField),
            Some(f) => if f == Field::Volume || f == Field::Amount {
                Ok((volumes_carried(records), carried_count(records, records.len() as int)))
            } else if method == FillMethod::Drop {
                Ok((records, 0))
            } else {
                let order = stable_order(date_keys(records));
                Ok(
                    (
                        prices_filled(records, order, f, method, records.len() as int),
                        fill_count(records, order, f, method, records.len() as int),
                    ),
                )
            },
        }
    }
}

/// Filling keeps the number of records, their instruments and their days.
proof fn lemma_prices_filled_shape(
    records: Seq<RecordView>,
    order: Seq<int>,
    field: Field,
    method: FillMethod,
    steps: int,
)
    requires
        0 <= steps <= order.len(),
        forall|p: int| 0 <= p < order.len() ==> 0 <= #[trigger] order[p] < records.len(),
    ensures
        prices_filled(records, order, field, method, steps).len() == records.len(),
        0 <= fill_count(records, order, field, method, steps) <= steps,
    decreases steps,
{
    if steps > 0 {
        lemma_prices_filled_shape(records, order, field, method, steps - 1);
    }
}

impl DataCleaner {
    /// Whether the field `field` of the record is missing.
    pub fn needs_filling(&self, record: &TDXDayRecord, field: Field) -> (missing: bool)
        ensures
            missing == is_missing(record@, field),
    {
        field_value(record, field) == 0
    }

    /// Sets the field `field` of the record to `value`.
    pub fn set_field_value(&self, record: &mut TDXDayRecord, field: Field, value: u64)
        requires
            field.is_price() ==> value <= u32::MAX,
        ensures
            final(record)@ == with_field(old(record)@, field, value as int),
    {
        match field {
            Field::Open => {
                record.open = value as u32;
            },
            Field::High => {
                record.high = value as u32;
            },
            Field::Low => {
                record.low = value as u32;
            },
            Field::Close => {
                record.close = value as u32;
            },
            Field::Volume => {
                record.volume = value;
            },
            Field::Amount => {
                record.amount = value;
            },
        }
    }

    /// The price `field` of the nearest record before position `step` of
    /// the order `order` that has the instrument `symbol` and the price
    /// there; zero where there is none.
    pub fn get_previous_value(
        &self,
        data: &Vec<TDXDayRecord>,
        order: &Vec<usize>,
        step: usize,
        symbol: &String,
        field: Field,
    ) -> (value: u64)
        requires
            step <= order.len(),
            forall|p: int| 0 <= p < order.len() ==> (#[trigger] order@[p]) < data.len(),
            field.is_price(),
        ensures
            value == earlier_value(views(data@), positions(order@), symbol@, step as int, field),
            value <= u32::MAX,
    {
        let mut scan: usize = step;
        while scan > 0
            invariant
                scan <= step <= order.len(),
                forall|p: int| 0 <= p < order.len() ==> (#[trigger] order@[p]) < data.len(),
                field.is_price(),
                earlier_value(views(data@), positions(order@), symbol@, step as int, field)
                    == earlier_value(views(data@), positions(order@), symbol@, scan as int, field),
            decreases scan,
        {
            let j = order[scan - 1];
            proof {
                assert(positions(order@)[scan - 1] == j);
                assert(views(data@)[j as int] == data@[j as int]@);
            }
            if data[j].symbol == *symbol && !self.needs_filling(&data[j], field) {
                return field_value(&data[j], field);
            }
            scan -= 1;
        }
        0
    }

    /// The mean of the price `field` over the records that have the
    /// instrument `symbol` and the price there; zero where there is none.
    pub fn calculate_mean_value(&self, data: &Vec<TDXDayRecord>, symbol: &String, field: Field) -> (value:
        u64)
        requires
            field.is_price(),
        ensures
            value == mean_of(sound_values(views(data@), symbol@, field)),
            value <= u32::MAX,
    {
        let n = data.len();
        let mut values: Vec<u64> = Vec::new();
        let mut i: usize = 0;
        assert(values@ =~= sound_values(views(data@).take(0), symbol@, field));
        while i < n
            invariant
                n == data.len(),
                i <= n,
                field.is_price(),
                values@ == sound_values(views(data@).take(i as int), symbol@, field),
                forall|k: int| 0 <= k < values.len() ==> #[trigger] values@[k] <= u32::MAX,
            decreases n - i,
        {
            let ghost before = values@;
            proof {
                assert(views(data@).take(i + 1).drop_last() == views(data@).take(i as int));
                assert(views(data@).take(i + 1).last() == data@[i as int]@);
            }
            if data[i].symbol == *symbol && !self.needs_filling(&data[i], field) {
                values.push(field_value(&data[i], field));
                assert(values@ =~= before.push(data@[i as int]@.value_of(field) as u64));
            }
            i += 1;
        }
        proof {
            assert(views(data@).take(n as int) == views(data@));
            crate::numeric::lemma_mean_bound(values@, u32::MAX as int);
        }
        mean(&values)
    }

    /// Replaces the price `field` of each record in which it is missing,
    /// day after day, and counts these records.
    pub fn fill_price_values(&self, data: Vec<TDXDayRecord>, field: Field, method: FillMethod) -> (r: (
        Vec<TDXDayRecord>,
        usize,
    ))
        requires
            field.is_price(),
        ensures
            r.0.len() == data.len(),
            views(r.0@) == prices_filled(
                views(data@),
                stable_order(date_keys(views(data@))),
                field,
                method,
                data.len() as int,
            ),
            r.1 == fill_count(
                views(data@),
                stable_order(date_keys(views(data@))),
                field,
                method,
                data.len() as int,
            ),
    {
        let n = data.len();
        let order = date_order(&data);
        let ghost start = views(data@);
        let ghost ord = positions(order@);
        proof {
            assert forall|p: int| 0 <= p < order.len() implies (#[trigger] order@[p]) < n by {
                assert(ord[p] == order@[p]);
            }
        }
        let mut filled = data;
        let mut count: usize = 0;
        let mut step: usize = 0;
        while step < n
            invariant
                step <= n,
                n == order.len(),
                n == start.len(),
                filled.len() == n,
                count <= step,
                field.is_price(),
                ord == positions(order@),
                ord == stable_order(date_keys(start)),
                forall|p: int| 0 <= p < order.len() ==> (#[trigger] order@[p]) < n,
                forall|p: int| 0 <= p < ord.len() ==> 0 <= (#[trigger] ord[p]) < n,
                views(filled@) == prices_filled(start, ord, field, method, step as int),
                count == fill_count(start, ord, field, method, step as int),
            decreases n - step,
        {
            let i = order[step];
            let ghost current = views(filled@);
            proof {
                assert(ord[step as int] == i);
                assert(current[i as int] == filled@[i as int]@);
            }
            if self.needs_filling(&filled[i], field) {
                let value = match method {
                    FillMethod::ForwardFill => self.get_previous_value(
                        &filled,
                        &order,
                        step,
                        &filled[i].symbol,
                        field,
                    ),
                    FillMethod::Mean => self.calculate_mean_value(&filled, &filled[i].symbol, field),
                    _ => 0,
                };
                let mut record = filled[i].clone();
                self.set_field_value(&mut record, field, value);
                filled.set(i, record);
                proof {
                    assert(views(filled@) =~= current.update(
                        i as int,
                        with_field(current[i as int], field, value as int),
                    ));
                }
                count += 1;
            }
            step += 1;
        }
        (filled, count)
    }

    /// Replaces the missing values of the field named `field`, and counts
    /// the records in which one was replaced. For a price, see
    /// `fill_price_values`; for volume and amount, both are carried
    /// forward from the last record before in which they are not zero,
    /// whatever the method and the instrument.
    pub fn fill_missing_values(&self, data: Vec<TDXDayRecord>, field: &str, method: FillMethod) -> (r:
        Result<(Vec<TDXDayRecord>, usize), DataError>)
        ensures
            match r {
                Ok((filled, count)) => missing_filled(views(data@), field@, method) == Ok::<
                    (Seq<RecordView>, int),
                    DataError,
                >((views(filled@), count as int)) && filled.len() == data.len(),
                Err(e) => missing_filled(views(data@), field@, method) == Err::<
                    (Seq<RecordView>, int),
                    DataError,
                >(e),
            },
    {
        let n = data.len();
        if n == 0 {
            return Ok((data, 0));
        }
        let f = match known_field(field) {
            Ok(f) => f,
            Err(e) => {
                return Err(e);
            },
        };
        match f {
            Field::Volume | Field::Amount => {
                let mut filled_data: Vec<TDXDayRecord> = Vec::new();
                let mut count: usize = 0;
                let mut last_valid_volume: Option<u64> = None;
                let mut last_valid_amount: Option<u64> = None;
                let mut i: usize = 0;
                while i < n
                    invariant
                        n == data.len(),
                        i <= n,
                        filled_data.len() == i,
                        count <= i,
                        count == carried_count(views(data@), i as int),
                        match last_valid_volume {
                            Some(v) => last_volume(views(data@), i as int) == Some(v as int),
                            None => last_volume(views(data@), i as int) is None,
                        },
                        match last_valid_amount {
                            Some(a) => last_amount(views(data@), i as int) == Some(a as int),
                            None => last_amount(views(data@), i as int) is None,
                        },
                        forall|j: int|
                            0 <= j < i ==> (#[trigger] filled_data@[j])@ == volumes_carried(
                                views(data@),
                            )[j],
                    decreases n - i,
                {
                    let mut filled_record = data[i].clone();
                    let mut touched = false;
                    if data[i].volume == 0 {
                        match last_valid_volume {
                            Some(volume) => {
                                filled_record.volume = volume;
                                touched = true;
                            },
                            None => {},
                        }
                    } else {
                        last_valid_volume = Some(data[i].volume);
                    }
                    if data[i].amount == 0 {
                        match last_valid_amount {
                            Some(amount) => {
                                filled_record.amount = amount;
                                touched = true;
                            },
                            None => {},
                        }
                    } else {
                        last_valid_amount = Some(data[i].amount);
                    }
                    proof {
                        lemma_last_not_zero(views(data@), i as int);
                        assert(views(data@)[i as int] == data@[i as int]@);
                        assert(filled_record@ == volumes_carried(views(data@))[i as int]);
                        assert(touched == (filled_record@ != data@[i as int]@));
                    }
                    if touched {
                        count += 1;
                    }
                    filled_data.push(filled_record);
                    i += 1;
                }
                assert(views(filled_data@) =~= volumes_carried(views(data@)));
                Ok((filled_data, count))
            },
            _ => {
                if method == FillMethod::Drop {
                    return Ok((data, 0));
                }
                Ok(self.fill_price_values(data, f, method))
            },
        }
    }
}

/// What was carried to record `i` is not zero.
proof fn lemma_last_not_zero(records: Seq<RecordView>, i: int)
    ensures
        last_volume(records, i) matches Some(v) ==> v != 0,
        last_amount(records, i) matches Some(a) ==> a != 0,
    decreases i,
{
    if i > 0 {
        lemma_last_not_zero(records, i - 1);
    }
}

/// What a run of cleaning has come to: the records that are left and the
/// report so far.
pub struct CleaningView {
    pub records: Seq<RecordView>,
    pub applied: Seq<Seq<char>>,
    pub outliers: int,
    pub filled: int,
    pub duplicates: int,
    pub inconsistencies: int,
    pub violations: int,
    pub calendar_missing: bool,
}

/// A run of cleaning before its first rule.
pub open spec fn untouched(records: Seq<RecordView>) -> CleaningView {
    CleaningView {
        records,
        applied: Seq::empty(),
        outliers: 0,
        filled: 0,
        duplicates: 0,
        inconsistencies: 0,
        violations: 0,
        calendar_missing: false,
    }
}

/// The name under which `rule` is reported.
pub open spec fn rule_label(rule: CleaningRule) -> Seq<char> {
    match rule {
        CleaningRule::RemoveOutliers { field, .. } => "RemoveOutliers("@ + field@ + ")"@,
        CleaningRule::FillMissing { field, .. } => "FillMissing("@ + field@ + ")"@,
        CleaningRule::RemoveDuplicates { .. } => "RemoveDuplicates"@,
        CleaningRule::ValidatePriceConsistency => "ValidatePriceConsistency"@,
        CleaningRule::ValidateRange { field, .. } => "ValidateRange("@ + field@ + ")"@,
        CleaningRule::RemoveNonTradingDays => "RemoveNonTradingDays"@,
    }
}

/// Whether `rule` names a field that does not exist.
pub open spec fn names_unknown_field(rule: CleaningRule) -> bool {
    match rule {
        CleaningRule::RemoveOutliers { field, .. } => field_named(field@) is None,
        CleaningRule::FillMissing { field, .. } => field_named(field@) is None,
        CleaningRule::ValidateRange { field, .. } => field_named(field@) is None,
        _ => false,
    }
}

/// The run `state` after `rule` was applied to the records that were left,
/// under the calendar `calendar`. A rule that names a field that does not
/// exist fails with `UnknownField` where there are records left, and
/// changes nothing where there are none.
pub open spec fn after_rule(state: CleaningView, rule: CleaningRule, calendar: Seq<DateView>) -> Result<
    CleaningView,
    DataError,
> {
    let records = state.records;
    let applied = state.applied.push(rule_label(rule));
    if records.len() > 0 && names_unknown_field(rule) {
        Err(DataError::UnknownField)
    } else {
        match rule {
            CleaningRule::RemoveOutliers { field, method, threshold } => {
                let kept = outliers_dropped(records, field@, method);
                Ok(
                    CleaningView {
                        records: kept,
                        applied,
                        outliers: state.outliers + records.len() - kept.len(),
                        ..state
                    },
                )
            },
            CleaningRule::FillMissing { field, method } => match missing_filled(
                records,
                field@,
                method,
            ) {
                Ok((filled, count)) => Ok(
                    CleaningView { records: filled, applied, filled: state.filled + count, ..state },
                ),
                Err(e) => Err(e),
            },
            CleaningRule::RemoveDuplicates { keys } => {
                let kept = duplicates_dropped(records, keys@);
                Ok(
                    CleaningView {
                        records: kept,
                        applied,
                        duplicates: state.duplicates + records.len() - kept.len(),
                        ..state
                    },
                )
            },
            CleaningRule::ValidatePriceConsistency => Ok(
                CleaningView {
                    records: all_repaired(records),
                    applied,
                    inconsistencies: state.inconsistencies + disorder_count(records),
                    ..state
                },
            ),
            CleaningRule::ValidateRange { field, min, max } => {
                let kept = range_kept(records, field@, min, max);
                Ok(
                    CleaningView {
                        records: kept,
                        applied,
                        violations: state.violations + records.len() - kept.len(),
                        ..state
                    },
                )
            },
            CleaningRule::RemoveNonTradingDays => Ok(
                CleaningView {
                    records: retained(records, trading_marks(records, calendar)),
                    applied,
                    calendar_missing: state.calendar_missing || calendar.len() == 0,
                    ..state
                },
            ),
        }
    }
}

/// The run `state` after the rules `rules` were applied one after the
/// other, each to what the rules before it left; the first rule that fails
/// fails the run.
pub open spec fn after_rules(state: CleaningView, rules: Seq<CleaningRule>, calendar: Seq<DateView>) -> Result<
    CleaningView,
    DataError,
>
    decreases rules.len(),
{
    if rules.len() == 0 {
        Ok(state)
    } else {
        match after_rules(state, rules.drop_last(), calendar) {
            Err(e) => Err(e),
            Ok(midway) => after_rule(midway, rules.last(), calendar),
        }
    }
}

/// Whether the report `report` and the records `records` are what the run
/// `state` came to from `given` records.
pub open spec fn reports(
    report: CleaningResult,
    records: Seq<TDXDayRecord>,
    state: CleaningView,
    given: int,
) -> bool {
    &&& views(records) == state.records
    &&& report.original_count == given
    &&& report.cleaned_count == state.records.len()
    &&& report.removed_count == given - state.records.len()
    &&& text_views(report.applied_rules@) == state.applied
    &&& report.statistics.outliers_removed == state.outliers
    &&& report.statistics.missing_values_filled == state.filled
    &&& report.statistics.duplicates_removed == state.duplicates
    &&& report.statistics.price_inconsistencies == state.inconsistencies
    &&& report.statistics.range_violations == state.violations
    &&& report.calendar_missing == state.calendar_missing
}

proof fn lemma_after_rules_fail(
    state: CleaningView,
    rules: Seq<CleaningRule>,
    k: int,
    calendar: Seq<DateView>,
)
    requires
        0 <= k <= rules.len(),
        after_rules(state, rules.take(k), calendar) is Err,
    ensures
        after_rules(state, rules, calendar) == after_rules(state, rules.take(k), calendar),
    decreases rules.len() - k,
{
    if k < rules.len() {
        assert(rules.take(k + 1).drop_last() == rules.take(k));
        lemma_after_rules_fail(state, rules, k + 1, calendar);
    } else {
        assert(rules.take(k) == rules);
    }
}

/// The text `head`, the text `name` and a closing bracket.
fn bracketed(head: &str, name: &str) -> (text: String)
    ensures
        text@ == head@ + name@ + ")"@,
{
    let mut text = String::from_str(head);
    text.append(name);
    text.append(")");
    text
}

/// `total` and `added`, where `total` counts at most `limit` records for
/// each of `rounds` rounds and `added` counts records of one round more.
fn counted(total: u128, added: usize, Ghost(limit): Ghost<int>, Ghost(rounds): Ghost<int>) -> (sum:
    u128)
    requires
        0 <= limit <= usize::MAX,
        0 <= rounds < usize::MAX,
        total <= limit * rounds,
        added <= limit,
    ensures
        sum == total + added,
        sum <= limit * (rounds + 1),
{
    proof {
        assert(limit * (rounds + 1) == limit * rounds + limit) by (nonlinear_arith);
        assert(limit * (rounds + 1) <= 0xFFFF_FFFF_FFFF_FFFF * 0xFFFF_FFFF_FFFF_FFFF)
            by (nonlinear_arith)
            requires
                0 <= limit <= 0xFFFF_FFFF_FFFF_FFFF,
                0 <= rounds + 1 <= 0xFFFF_FFFF_FFFF_FFFF,
        ;
    }
    total + added as u128
}

impl DataCleaner {
    /// A cleaner with the usual rules: prices in order, one record for
    /// each instrument and day, open and close between 0.01 and 10000.00.
    pub fn with_default_rules() -> (cleaner: Self)
        ensures
            cleaner.rules@.len() == 4,
            cleaner.trading_days@.len() == 0,
            cleaner.rules@[0] is ValidatePriceConsistency,
            cleaner.rules@[1] matches CleaningRule::RemoveDuplicates { keys } && is_default_key(
                keys@,
            ),
            cleaner.rules@[2] matches CleaningRule::ValidateRange { field, min, max } && field@
                == "open"@ && min == Some(1u64) && max == Some(1_000_000u64),
            cleaner.rules@[3] matches CleaningRule::ValidateRange { field, min, max } && field@
                == "close"@ && min == Some(1u64) && max == Some(1_000_000u64),
    {
        let mut cleaner = DataCleaner::new();
        cleaner.add_rule(CleaningRule::ValidatePriceConsistency);
        let mut keys: Vec<String> = Vec::new();
        keys.push(String::from_str("symbol"));
        keys.push(String::from_str("date"));
        cleaner.add_rule(CleaningRule::RemoveDuplicates { keys });
        cleaner.add_rule(
            CleaningRule::ValidateRange {
                field: String::from_str("open"),
                min: Some(1),
                max: Some(1_000_000),
            },
        );
        cleaner.add_rule(
            CleaningRule::ValidateRange {
                field: String::from_str("close"),
                min: Some(1),
                max: Some(1_000_000),
            },
        );
        cleaner
    }

    /// Applies the rules one after the other, each to what the rules
    /// before it left, and reports what was done. The first rule that
    /// fails fails the run.
    pub fn clean(&self, data: Vec<TDXDayRecord>) -> (r: Result<
        (CleaningResult, Vec<TDXDayRecord>),
        DataError,
    >)
        ensures
            match r {
                Ok((report, records)) => after_rules(
                    untouched(views(data@)),
                    self.rules@,
                    day_views(self.trading_days@),
                ) matches Ok(state) && reports(report, records@, state, data.len() as int),
                Err(e) => after_rules(
                    untouched(views(data@)),
                    self.rules@,
                    day_views(self.trading_days@),
                ) == Err::<CleaningView, DataError>(e),
            },
    {
        let original_count = data.len();
        let ghost start = untouched(views(data@));
        let ghost calendar = day_views(self.trading_days@);
        let ghost limit = original_count as int;
        let mut current_data = data;
        let mut applied_rules: Vec<String> = Vec::new();
        let mut statistics = CleaningStatistics {
            outliers_removed: 0,
            missing_values_filled: 0,
            duplicates_removed: 0,
            price_inconsistencies: 0,
            range_violations: 0,
        };
        let mut calendar_missing = false;
        let mut k: usize = 0;
        assert(text_views(applied_rules@) =~= start.applied);
        while k < self.rules.len()
            invariant
                k <= self.rules.len(),
                limit == original_count,
                start == untouched(views(data@)),
                calendar == day_views(self.trading_days@),
                current_data.len() <= original_count,
                statistics.outliers_removed <= limit * k,
                statistics.missing_values_filled <= limit * k,
                statistics.duplicates_removed <= limit * k,
                statistics.price_inconsistencies <= limit * k,
                statistics.range_violations <= limit * k,
                after_rules(start, self.rules@.take(k as int), calendar) matches Ok(state)
                    && views(current_data@) == state.records && text_views(applied_rules@)
                    == state.applied && statistics.outliers_removed == state.outliers
                    && statistics.missing_values_filled == state.filled
                    && statistics.duplicates_removed == state.duplicates
                    && statistics.price_inconsistencies == state.inconsistencies
                    && statistics.range_violations == state.violations && calendar_missing
                    == state.calendar_missing,
            decreases self.rules.len() - k,
        {
            let ghost labels = text_views(applied_rules@);
            let ghost midway = after_rules(start, self.rules@.take(k as int), calendar)->Ok_0;
            let ghost rounds = k as int;
            proof {
                assert(self.rules@.take(k + 1).drop_last() == self.rules@.take(k as int));
                assert(self.rules@.take(k + 1).last() == self.rules@[k as int]);
                assert(limit * (rounds + 1) == limit * rounds + limit) by (nonlinear_arith);
                lemma_disorder_bound(views(current_data@));
            }
            match &self.rules[k] {
                CleaningRule::RemoveOutliers { field, method, threshold } => {
                    match self.remove_outliers(current_data, field.as_str(), *method, *threshold) {
                        Err(e) => {
                            proof {
                                lemma_after_rules_fail(start, self.rules@, k + 1, calendar);
                            }
                            return Err(e);
                        },
                        Ok((kept, dropped)) => {
                            current_data = kept;
                            statistics.outliers_removed = counted(
                                statistics.outliers_removed,
                                dropped,
                                Ghost(limit),
                                Ghost(rounds),
                            );
                            applied_rules.push(bracketed("RemoveOutliers(", field.as_str()));
                        },
                    }
                },
                CleaningRule::FillMissing { field, method } => {
                    match self.fill_missing_values(current_data, field.as_str(), *method) {
                        Err(e) => {
                            proof {
                                lemma_after_rules_fail(start, self.rules@, k + 1, calendar);
                            }
                            return Err(e);
                        },
                        Ok((filled, count)) => {
                            proof {
                                lemma_filled_bound(midway.records, field@, *method);
                            }
                            current_data = filled;
                            statistics.missing_values_filled = counted(
                                statistics.missing_values_filled,
                                count,
                                Ghost(limit),
                                Ghost(rounds),
                            );
                            applied_rules.push(bracketed("FillMissing(", field.as_str()));
                        },
                    }
                },
                CleaningRule::RemoveDuplicates { keys } => {
                    let (kept, dropped) = self.remove_duplicates(current_data, keys);
                    proof {
                        if is_default_key(keys@) {
                            lemma_retained_len(midway.records, first_marks(midway.records));
                        }
                    }
                    current_data = kept;
                    statistics.duplicates_removed = counted(
                        statistics.duplicates_removed,
                        dropped,
                        Ghost(limit),
                        Ghost(rounds),
                    );
                    applied_rules.push(String::from_str("RemoveDuplicates"));
                },
                CleaningRule::ValidatePriceConsistency => {
                    let (repaired_data, fixed) = self.validate_price_consistency(current_data);
                    current_data = repaired_data;
                    statistics.price_inconsistencies = counted(
                        statistics.price_inconsistencies,
                        fixed,
                        Ghost(limit),
                        Ghost(rounds),
                    );
                    applied_rules.push(String::from_str("ValidatePriceConsistency"));
                },
                CleaningRule::ValidateRange { field, min, max } => {
                    match self.validate_range(current_data, field.as_str(), *min, *max) {
                        Err(e) => {
                            proof {
                                lemma_after_rules_fail(start, self.rules@, k + 1, calendar);
                            }
                            return Err(e);
                        },
                        Ok((kept, violations)) => {
                            current_data = kept;
                            statistics.range_violations = counted(
                                statistics.range_violations,
                                violations,
                                Ghost(limit),
                                Ghost(rounds),
                            );
                            applied_rules.push(bracketed("ValidateRange(", field.as_str()));
                        },
                    }
                },
                CleaningRule::RemoveNonTradingDays => {
                    let (kept, _) = self.remove_non_trading_days(current_data);
                    current_data = kept;
                    if self.trading_days.len() == 0 {
                        calendar_missing = true;
                    }
                    applied_rules.push(String::from_str("RemoveNonTradingDays"));
                },
            }
            proof {
                assert(text_views(applied_rules@) =~= labels.push(
                    rule_label(self.rules@[k as int]),
                ));
            }
            k += 1;
        }
        proof {
            assert(self.rules@.take(self.rules.len() as int) == self.rules@);
        }
        let cleaned_count = current_data.len();
        let report = CleaningResult {
            original_count,
            cleaned_count,
            removed_count: original_count - cleaned_count,
            applied_rules,
            statistics,
            calendar_missing,
        };
        Ok((report, current_data))
    }
}

/// No more records are out of order than there are records.
proof fn lemma_disorder_bound(records: Seq<RecordView>)
    ensures
        0 <= disorder_count(records) <= records.len(),
    decreases records.len(),
{
    if records.len() > 0 {
        lemma_disorder_bound(records.drop_last());
    }
}

/// No more values are replaced than there are records, and none is added
/// or dropped.
proof fn lemma_filled_bound(records: Seq<RecordView>, field: Seq<char>, method: FillMethod)
    ensures
        missing_filled(records, field, method) matches Ok((filled, count)) ==> filled.len()
            == records.len() && 0 <= count <= records.len(),
{
    if records.len() > 0 {
        match field_named(field) {
            Some(f) => {
                if f == Field::Volume || f == Field::Amount {
                    lemma_carried_bound(records, records.len() as int);
                } else if method == FillMethod::Drop {
                } else {
                    let order = stable_order(date_keys(records));
                    lemma_stable_order(date_keys(records));
                    lemma_prices_filled_shape(records, order, f, method, records.len() as int);
                }
            },
            None => {},
        }
    }
}

proof fn lemma_carried_bound(records: Seq<RecordView>, count: int)
    requires
        0 <= count,
    ensures
        0 <= carried_count(records, count) <= count,
    decreases count,
{
    if count > 0 {
        lemma_carried_bound(records, count - 1);
    }
}

impl Default for CleaningStatistics {
    /// No record touched.
    fn default() -> (statistics: Self)
        ensures
            statistics.outliers_removed == 0,
            statistics.missing_values_filled == 0,
            statistics.duplicates_removed == 0,
            statistics.price_inconsistencies == 0,
            statistics.range_violations == 0,
    {
        CleaningStatistics {
            outliers_removed: 0,
            missing_values_filled: 0,
            duplicates_removed: 0,
            price_inconsistencies: 0,
            range_violations: 0,
        }
    }
}

impl Default for DataCleaner {
    /// A cleaner with the usual rules.
    fn default() -> (cleaner: Self)
        ensures
            cleaner.rules@.len() == 4,
            cleaner.trading_days@.len() == 0,
            cleaner.rules@[0] is ValidatePriceConsistency,
            cleaner.rules@[1] matches CleaningRule::RemoveDuplicates { keys } && is_default_key(
                keys@,
            ),
            cleaner.rules@[2] matches CleaningRule::ValidateRange { field, min, max } && field@
                == "open"@ && min == Some(1u64) && max == Some(1_000_000u64),
            cleaner.rules@[3] matches CleaningRule::ValidateRange { field, min, max } && field@
                == "close"@ && min == Some(1u64) && max == Some(1_000_000u64),
    {
        DataCleaner::with_default_rules()
    }
}

} // verus!
