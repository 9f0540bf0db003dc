//! Grouped reductions of records into keyed summaries.
//!
//! A rule says how the records are grouped, a function how each group is
//! reduced to one number. The number is a whole number in the unit of the
//! field it was taken from; quotients and roots are rounded down.

use crate::calendar::{DateView, TradingDate};
use crate::error::DataError;
use crate::numeric::{
    ascending, floor_log2, greatest, integer_root, is_root, least, log2_floor, maximum, mean,
    mean_of, minimum, sort_ascending, sum, total, variance, variance_of, weighted_mean,
    weighted_mean_of,
};
use crate::parsers::tdx_day::{
    chronological, in_date_order, RecordView, TDXDayRecord, views,
};
use crate::processors::fields::{column, field_named, field_value, known_field, Field};
use crate::processors::groups::{distinct_symbols, of_symbol, records_of, symbols_seen, text_views};
use crate::text::{decimal_string, decimal_text};
use rayon::iter::{IntoParallelRefIterator, ParallelIterator};
use vstd::prelude::*;
use vstd::string::*;

verus! {

/// How a group of records is reduced to one number.
#[derive(Debug, PartialEq, Eq)]
pub enum AggregationFunction {
    /// The sum of a field.
    Sum { field: String },
    /// The mean of a field.
    Mean { field: String },
    /// The greatest value of a field.
    Max { field: String },
    /// The least value of a field.
    Min { field: String },
    /// The median of a field: of an even number of values, the lower of
    /// the two in the middle.
    Median { field: String },
    /// The number of records.
    Count,
    /// The field of the first record.
    First { field: String },
    /// The field of the last record.
    Last { field: String },
    /// The population standard deviation of a field.
    StdDev { field: String },
    /// The population variance of a field.
    Variance { field: String },
    /// The mean of one field weighted by another.
    WeightedMean { value_field: String, weight_field: String },
    /// A function known by name only: the binary logarithm of the number of
    /// records, whatever fields it names.
    Custom { name: String, fields: Vec<String> },
}

/// How records are grouped before they are reduced.
#[derive(Debug, PartialEq, Eq)]
pub enum AggregationRule {
    /// Each instrument's records in chronological order, cut into
    /// consecutive windows of `window_size` records; what is left over at
    /// the end is dropped.
    TimeWindow { window_size: usize, function: AggregationFunction },
    /// One group for each instrument.
    GroupBySymbol { function: AggregationFunction },
    /// One group: the records from `start_date` to `end_date`, both
    /// included.
    DateRange { start_date: TradingDate, end_date: TradingDate, function: AggregationFunction },
    /// One group: all records. The text of the rule is kept and not read.
    Custom { name: String, rule: String, function: AggregationFunction },
}

/// One reduced group.
#[derive(Debug, PartialEq, Eq)]
pub struct AggregatedValue {
    /// What the group is: a symbol, a window, a range of dates, a name.
    pub key: String,
    /// The number the group was reduced to.
    pub value: u128,
    /// The number of records in the group.
    pub count: Option<usize>,
    /// Further labels of the group, each a name and a text.
    pub metadata: Vec<(String, String)>,
}

/// What one rule made of the records.
#[derive(Debug, PartialEq, Eq)]
pub struct AggregationResult {
    /// The rule and its parameters.
    pub aggregation_id: String,
    /// The kind of rule.
    pub rule_name: String,
    /// The number of records that went in.
    pub original_count: usize,
    /// The number of groups that came out.
    pub aggregated_count: usize,
    /// The groups.
    pub values: Vec<AggregatedValue>,
    /// When the rule was applied, in seconds since 1970.
    pub timestamp: i64,
}

/// What a reduced group holds.
pub struct ValueView {
    pub key: Seq<char>,
    pub value: int,
    pub count: Option<int>,
    pub metadata: Seq<(Seq<char>, Seq<char>)>,
}

/// What the outcome of a rule holds.
pub struct ResultView {
    pub aggregation_id: Seq<char>,
    pub rule_name: Seq<char>,
    pub original_count: int,
    pub aggregated_count: int,
    pub values: Seq<ValueView>,
    pub timestamp: int,
}

/// What each pair of texts holds.
pub open spec fn label_views(labels: Seq<(String, String)>) -> Seq<(Seq<char>, Seq<char>)> {
    Seq::new(labels.len(), |i: int| (labels[i].0@, labels[i].1@))
}

impl View for AggregatedValue {
    type V = ValueView;

    open spec fn view(&self) -> ValueView {
        ValueView {
            key: self.key@,
            value: self.value as int,
            count: match self.count {
                Some(n) => Some(n as int),
                None => None,
            },
            metadata: label_views(self.metadata@),
        }
    }
}

/// What each reduced group holds.
pub open spec fn value_views(values: Seq<AggregatedValue>) -> Seq<ValueView> {
    Seq::new(values.len(), |i: int| values[i]@)
}

impl View for AggregationResult {
    type V = ResultView;

    open spec fn view(&self) -> ResultView {
        ResultView {
            aggregation_id: self.aggregation_id@,
            rule_name: self.rule_name@,
            original_count: self.original_count as int,
            aggregated_count: self.aggregated_count as int,
            values: value_views(self.values@),
            timestamp: self.timestamp as int,
        }
    }
}

/// What each outcome holds.
pub open spec fn result_views(results: Seq<AggregationResult>) -> Seq<ResultView> {
    Seq::new(results.len(), |i: int| results[i]@)
}

/// The square root of `x`, rounded down.
pub open spec fn floor_root(x: int) -> int {
    choose|root: int| is_root(x, root)
}

/// A number has one square root rounded down.
pub proof fn lemma_one_root(x: int, a: int, b: int)
    requires
        is_root(x, a),
        is_root(x, b),
    ensures
        a == b,
{
    if a < b {
        assert((a + 1) * (a + 1) <= b * b) by (nonlinear_arith)
            requires
                0 <= a + 1 <= b,
        ;
    }
    if b < a {
        assert((b + 1) * (b + 1) <= a * a) by (nonlinear_arith)
            requires
                0 <= b + 1 <= a,
        ;
    }
}

/// The number that `function` makes of the values `values` of its field,
/// of which there is at least one.
pub open spec fn reduced_column(values: Seq<u64>, function: AggregationFunction) -> int {
    match function {
        AggregationFunction::Sum { .. } => total(values),
        AggregationFunction::Mean { .. } => mean_of(values),
        AggregationFunction::Max { .. } => greatest(values),
        AggregationFunction::Min { .. } => least(values),
        AggregationFunction::Median { .. } => ascending(values)[(values.len() - 1) / 2] as int,
        AggregationFunction::First { .. } => values[0] as int,
        AggregationFunction::Last { .. } => values[values.len() - 1] as int,
        AggregationFunction::StdDev { .. } => floor_root(variance_of(values)),
        AggregationFunction::Variance { .. } => variance_of(values),
        _ => 0,
    }
}

/// The name of the one field that `function` reduces, where it reduces one.
pub open spec fn field_name_of(function: AggregationFunction) -> Option<Seq<char>> {
    match function {
        AggregationFunction::Sum { field } => Some(field@),
        AggregationFunction::Mean { field } => Some(field@),
        AggregationFunction::Max { field } => Some(field@),
        AggregationFunction::Min { field } => Some(field@),
        AggregationFunction::Median { field } => Some(field@),
        AggregationFunction::First { field } => Some(field@),
        AggregationFunction::Last { field } => Some(field@),
        AggregationFunction::StdDev { field } => Some(field@),
        AggregationFunction::Variance { field } => Some(field@),
        _ => None,
    }
}

/// The number that `function` makes of `records`, or `UnknownField` where
/// there are records and the function names a field that does not exist.
/// No records make zero, whatever the function.
pub open spec fn reduced(records: Seq<RecordView>, function: AggregationFunction) -> Result<
    int,
    DataError,
> {
    if records.len() == 0 {
        Ok(0)
    } else {
        match function {
            AggregationFunction::Count => Ok(records.len() as int),
            AggregationFunction::Custom { .. } => Ok(floor_log2(records.len()) as int),
            AggregationFunction::WeightedMean { value_field, weight_field } => match (
                field_named(value_field@),
                field_named(weight_field@),
            ) {
                (Some(v), Some(w)) => Ok(weighted_mean_of(column(records, v), column(records, w))),
                _ => Err(DataError::UnknownField),
            },
            _ => match field_name_of(function) {
                Some(name) => match field_named(name) {
                    Some(f) => Ok(reduced_column(column(records, f), function)),
                    None => Err(DataError::UnknownField),
                },
                None => Ok(0),
            },
        }
    }
}

/// Whether the number or error `got` is the outcome `expected`.
pub open spec fn number_is(got: Result<u128, DataError>, expected: Result<int, DataError>) -> bool {
    match got {
        Ok(v) => expected == Ok::<int, DataError>(v as int),
        Err(e) => expected == Err::<int, DataError>(e),
    }
}

/// Reads the field `field` of the records `from..to`.
pub fn column_between(records: &Vec<TDXDayRecord>, from: usize, to: usize, field: Field) -> (values: Vec<
    u64,
>)
    requires
        from <= to <= records.len(),
    ensures
        values@ == column(views(records@).subrange(from as int, to as int), field),
{
    let mut values: Vec<u64> = Vec::new();
    let mut i: usize = from;
    while i < to
        invariant
            from <= i <= to <= records.len(),
            values.len() == i - from,
            forall|j: int|
                0 <= j < i - from ==> #[trigger] values@[j] == records@[from + j]@.value_of(field),
        decreases to - i,
    {
        values.push(field_value(&records[i], field));
        i += 1;
    }
    assert(values@ =~= column(views(records@).subrange(from as int, to as int), field));
    values
}

/// Reduces the values of one field, of which there is at least one.
fn reduce_column(values: &Vec<u64>, function: &AggregationFunction) -> (value: u128)
    requires
        values.len() > 0,
        field_name_of(*function) is Some,
    ensures
        value == reduced_column(values@, *function),
{
    match function {
        AggregationFunction::Sum { .. } => sum(values),
        AggregationFunction::Mean { .. } => mean(values) as u128,
        AggregationFunction::Max { .. } => maximum(values) as u128,
        AggregationFunction::Min { .. } => minimum(values) as u128,
        AggregationFunction::Median { .. } => {
            let sorted = sort_ascending(values);
            sorted[(values.len() - 1) / 2] as u128
        },
        AggregationFunction::First { .. } => values[0] as u128,
        AggregationFunction::Last { .. } => values[values.len() - 1] as u128,
        AggregationFunction::StdDev { .. } => {
            let spread = variance(values);
            let root = integer_root(spread);
            proof {
                let ghost chosen = floor_root(variance_of(values@));
                assert(is_root(variance_of(values@), root as int));
                lemma_one_root(variance_of(values@), root as int, chosen);
            }
            root as u128
        },
        AggregationFunction::Variance { .. } => variance(values),
        _ => 0,
    }
}

/// Reduces the records `from..to` of `records`.
pub fn reduce_between(
    records: &Vec<TDXDayRecord>,
    from: usize,
    to: usize,
    function: &AggregationFunction,
) -> (r: Result<u128, DataError>)
    requires
        from <= to <= records.len(),
    ensures
        number_is(r, reduced(views(records@).subrange(from as int, to as int), *function)),
{
    if from == to {
        return Ok(0);
    }
    match function {
        AggregationFunction::Count => Ok((to - from) as u128),
        AggregationFunction::Custom { .. } => Ok(log2_floor((to - from) as u64) as u128),
        AggregationFunction::WeightedMean { value_field, weight_field } => {
            let v = match known_field(value_field.as_str()) {
                Ok(f) => f,
                Err(e) => {
                    return Err(e);
                },
            };
            let w = match known_field(weight_field.as_str()) {
                Ok(f) => f,
                Err(e) => {
                    return Err(e);
                },
            };
            let values = column_between(records, from, to, v);
            let weights = column_between(records, from, to, w);
            Ok(weighted_mean(&values, &weights) as u128)
        },
        AggregationFunction::Sum { field }
        | AggregationFunction::Mean { field }
        | AggregationFunction::Max { field }
        | AggregationFunction::Min { field }
        | AggregationFunction::Median { field }
        | AggregationFunction::First { field }
        | AggregationFunction::Last { field }
        | AggregationFunction::StdDev { field }
        | AggregationFunction::Variance { field } => {
            let f = match known_field(field.as_str()) {
                Ok(f) => f,
                Err(e) => {
                    return Err(e);
                },
            };
            let values = column_between(records, from, to, f);
            Ok(reduce_column(&values, function))
        },
    }
}

/// A label: a name and a text.
fn label(name: &str, text: String) -> (pair: (String, String))
    ensures
        pair.0@ == name@,
        pair.1@ == text@,
{
    (String::from_str(name), text)
}

/// The text `head` followed by the text `tail`.
fn joined(head: &str, tail: &str) -> (text: String)
    ensures
        text@ == head@ + tail@,
{
    let mut text = String::from_str(head);
    text.append(tail);
    text
}

/// The group of the instrument `symbol`, `size` records reduced to `value`.
pub open spec fn symbol_entry(symbol: Seq<char>, size: int, value: int) -> ValueView {
    ValueView {
        key: symbol,
        value,
        count: Some(size),
        metadata: seq![("symbol"@, symbol), ("record_count"@, decimal_text(size as nat))],
    }
}

/// One group for each of `symbols`, reduced by `function`; the first
/// group that cannot be reduced fails the whole.
pub open spec fn symbol_entries(
    records: Seq<RecordView>,
    symbols: Seq<Seq<char>>,
    function: AggregationFunction,
) -> Result<Seq<ValueView>, DataError>
    decreases symbols.len(),
{
    if symbols.len() == 0 {
        Ok(Seq::empty())
    } else {
        match symbol_entries(records, symbols.drop_last(), function) {
            Err(e) => Err(e),
            Ok(entries) => {
                let group = of_symbol(records, symbols.last());
                match reduced(group, function) {
                    Err(e) => Err(e),
                    Ok(value) => Ok(
                        entries.push(symbol_entry(symbols.last(), group.len() as int, value)),
                    ),
                }
            },
        }
    }
}

/// The window `window` of the instrument `symbol`, reduced to `value`.
pub open spec fn window_entry(symbol: Seq<char>, window: Seq<RecordView>, value: int) -> ValueView {
    ValueView {
        key: symbol + "_"@ + window[0].date.text(),
        value,
        count: Some(window.len() as int),
        metadata: seq![
            ("symbol"@, symbol),
            ("window_size"@, decimal_text(window.len())),
            ("start_date"@, window[0].date.text()),
            ("end_date"@, window[window.len() - 1].date.text()),
        ],
    }
}

/// The first `count` windows of `size` records of the series `series`,
/// reduced by `function`.
pub open spec fn window_entries(
    symbol: Seq<char>,
    series: Seq<RecordView>,
    size: int,
    count: int,
    function: AggregationFunction,
) -> Result<Seq<ValueView>, DataError>
    decreases count,
{
    if count <= 0 {
        Ok(Seq::empty())
    } else {
        match window_entries(symbol, series, size, count - 1, function) {
            Err(e) => Err(e),
            Ok(entries) => {
                let window = series.subrange((count - 1) * size, count * size);
                match reduced(window, function) {
                    Err(e) => Err(e),
                    Ok(value) => Ok(entries.push(window_entry(symbol, window, value))),
                }
            },
        }
    }
}

/// The number of whole windows of `size` records in `length` records.
pub open spec fn whole_windows(length: int, size: int) -> int {
    if size <= 0 {
        0
    } else {
        length / size
    }
}

/// The whole windows of each instrument of `symbols`, instrument after
/// instrument, each instrument's windows in chronological order.
pub open spec fn time_window_entries(
    records: Seq<RecordView>,
    symbols: Seq<Seq<char>>,
    size: int,
    function: AggregationFunction,
) -> Result<Seq<ValueView>, DataError>
    decreases symbols.len(),
{
    if symbols.len() == 0 {
        Ok(Seq::empty())
    } else {
        match time_window_entries(records, symbols.drop_last(), size, function) {
            Err(e) => Err(e),
            Ok(entries) => {
                let series = chronological(of_symbol(records, symbols.last()));
                match window_entries(
                    symbols.last(),
                    series,
                    size,
                    whole_windows(series.len() as int, size),
                    function,
                ) {
                    Err(e) => Err(e),
                    Ok(windows) => Ok(entries + windows),
                }
            },
        }
    }
}

/// The records of `records` dated from `start` to `end`, both included, in
/// their order.
pub open spec fn within(records: Seq<RecordView>, start: DateView, end: DateView) -> Seq<RecordView>
    decreases records.len(),
{
    if records.len() == 0 {
        Seq::empty()
    } else {
        let before = within(records.drop_last(), start, end);
        if start.number() <= records.last().date.number() <= end.number() {
            before.push(records.last())
        } else {
            before
        }
    }
}

/// The one group of a range of dates: nothing where no record is in range.
pub open spec fn range_entries(
    records: Seq<RecordView>,
    start: DateView,
    end: DateView,
    function: AggregationFunction,
) -> Result<Seq<ValueView>, DataError> {
    let group = within(records, start, end);
    if group.len() == 0 {
        Ok(Seq::empty())
    } else {
        match reduced(group, function) {
            Err(e) => Err(e),
            Ok(value) => Ok(
                seq![
                    ValueView {
                        key: start.text() + "_"@ + end.text(),
                        value,
                        count: Some(group.len() as int),
                        metadata: seq![
                            ("start_date"@, start.text()),
                            ("end_date"@, end.text()),
                            ("record_count"@, decimal_text(group.len())),
                        ],
                    },
                ],
            ),
        }
    }
}

/// The one group of a custom rule: all records.
pub open spec fn custom_entries(
    records: Seq<RecordView>,
    name: Seq<char>,
    function: AggregationFunction,
) -> Result<Seq<ValueView>, DataError> {
    match reduced(records, function) {
        Err(e) => Err(e),
        Ok(value) => Ok(
            seq![
                ValueView {
                    key: name,
                    value,
                    count: Some(records.len() as int),
                    metadata: seq![
                        ("aggregation_type"@, "custom"@),
                        ("record_count"@, decimal_text(records.len())),
                    ],
                },
            ],
        ),
    }
}

/// The groups that `rule` makes of `records`.
pub open spec fn rule_entries(records: Seq<RecordView>, rule: AggregationRule) -> Result<
    Seq<ValueView>,
    DataError,
> {
    match rule {
        AggregationRule::TimeWindow { window_size, function } => time_window_entries(
            records,
            symbols_seen(records),
            window_size as int,
            function,
        ),
        AggregationRule::GroupBySymbol { function } => symbol_entries(
            records,
            symbols_seen(records),
            function,
        ),
        AggregationRule::DateRange { start_date, end_date, function } => range_entries(
            records,
            start_date@,
            end_date@,
            function,
        ),
        AggregationRule::Custom { name, rule, function } => custom_entries(records, name@, function),
    }
}

/// What identifies `rule` among the outcomes: its kind and parameters.
pub open spec fn rule_id(rule: AggregationRule) -> Seq<char> {
    match rule {
        AggregationRule::TimeWindow { window_size, function } => "time_window_"@ + decimal_text(
            window_size as nat,
        ),
        AggregationRule::GroupBySymbol { function } => "group_by_symbol"@,
        AggregationRule::DateRange { start_date, end_date, function } => "date_range_"@
            + start_date@.text() + "_"@ + end_date@.text(),
        AggregationRule::Custom { name, rule, function } => "custom_"@ + name@,
    }
}

/// The kind of `rule`.
pub open spec fn rule_kind(rule: AggregationRule) -> Seq<char> {
    match rule {
        AggregationRule::TimeWindow { .. } => "TimeWindow"@,
        AggregationRule::GroupBySymbol { .. } => "GroupBySymbol"@,
        AggregationRule::DateRange { .. } => "DateRange"@,
        AggregationRule::Custom { .. } => "Custom"@,
    }
}

/// What `rule` makes of `records` at the time `timestamp`: its groups with
/// their numbers, or the error of the first group that cannot be reduced.
pub open spec fn rule_outcome(records: Seq<RecordView>, rule: AggregationRule, timestamp: int) -> Result<
    ResultView,
    DataError,
> {
    match rule_entries(records, rule) {
        Err(e) => Err(e),
        Ok(values) => Ok(
            ResultView {
                aggregation_id: rule_id(rule),
                rule_name: rule_kind(rule),
                original_count: records.len() as int,
                aggregated_count: values.len() as int,
                values,
                timestamp,
            },
        ),
    }
}

/// What the rules `rules`, each by itself, make of `records`; the first
/// rule that fails fails the whole.
pub open spec fn outcomes(records: Seq<RecordView>, rules: Seq<AggregationRule>, timestamp: int) -> Result<
    Seq<ResultView>,
    DataError,
>
    decreases rules.len(),
{
    if rules.len() == 0 {
        Ok(Seq::empty())
    } else {
        match outcomes(records, rules.drop_last(), timestamp) {
            Err(e) => Err(e),
            Ok(results) => match rule_outcome(records, rules.last(), timestamp) {
                Err(e) => Err(e),
                Ok(result) => Ok(results.push(result)),
            },
        }
    }
}

/// Whether the groups or error `got` are the outcome `expected`.
pub open spec fn entries_are(
    got: Result<Vec<AggregatedValue>, DataError>,
    expected: Result<Seq<ValueView>, DataError>,
) -> bool {
    match got {
        Ok(values) => expected == Ok::<Seq<ValueView>, DataError>(value_views(values@)),
        Err(e) => expected == Err::<Seq<ValueView>, DataError>(e),
    }
}

/// Whether the outcome or error `got` is the outcome `expected`.
pub open spec fn result_is(
    got: Result<AggregationResult, DataError>,
    expected: Result<ResultView, DataError>,
) -> bool {
    match got {
        Ok(result) => expected == Ok::<ResultView, DataError>(result@),
        Err(e) => expected == Err::<ResultView, DataError>(e),
    }
}

/// Whether the outcomes or error `got` are the outcomes `expected`.
pub open spec fn results_are(
    got: Result<Vec<AggregationResult>, DataError>,
    expected: Result<Seq<ResultView>, DataError>,
) -> bool {
    match got {
        Ok(results) => expected == Ok::<Seq<ResultView>, DataError>(result_views(results@)),
        Err(e) => expected == Err::<Seq<ResultView>, DataError>(e),
    }
}

proof fn lemma_symbol_entries_fail(
    records: Seq<RecordView>,
    symbols: Seq<Seq<char>>,
    k: int,
    function: AggregationFunction,
)
    requires
        0 <= k <= symbols.len(),
        symbol_entries(records, symbols.take(k), function) is Err,
    ensures
        symbol_entries(records, symbols, function) == symbol_entries(
            records,
            symbols.take(k),
            function,
        ),
    decreases symbols.len() - k,
{
    if k < symbols.len() {
        assert(symbols.take(k + 1).drop_last() == symbols.take(k));
        lemma_symbol_entries_fail(records, symbols, k + 1, function);
    } else {
        assert(symbols.take(k) == symbols);
    }
}

proof fn lemma_window_entries_fail(
    symbol: Seq<char>,
    series: Seq<RecordView>,
    size: int,
    k: int,
    count: int,
    function: AggregationFunction,
)
    requires
        0 <= k <= count,
        window_entries(symbol, series, size, k, function) is Err,
    ensures
        window_entries(symbol, series, size, count, function) == window_entries(
            symbol,
            series,
            size,
            k,
            function,
        ),
    decreases count - k,
{
    if k < count {
        lemma_window_entries_fail(symbol, series, size, k, count - 1, function);
    }
}

proof fn lemma_time_window_entries_fail(
    records: Seq<RecordView>,
    symbols: Seq<Seq<char>>,
    k: int,
    size: int,
    function: AggregationFunction,
)
    requires
        0 <= k <= symbols.len(),
        time_window_entries(records, symbols.take(k), size, function) is Err,
    ensures
        time_window_entries(records, symbols, size, function) == time_window_entries(
            records,
            symbols.take(k),
            size,
            function,
        ),
    decreases symbols.len() - k,
{
    if k < symbols.len() {
        assert(symbols.take(k + 1).drop_last() == symbols.take(k));
        lemma_time_window_entries_fail(records, symbols, k + 1, size, function);
    } else {
        assert(symbols.take(k) == symbols);
    }
}

proof fn lemma_outcomes_fail(
    records: Seq<RecordView>,
    rules: Seq<AggregationRule>,
    k: int,
    timestamp: int,
)
    requires
        0 <= k <= rules.len(),
        outcomes(records, rules.take(k), timestamp) is Err,
    ensures
        outcomes(records, rules, timestamp) == outcomes(records, rules.take(k), timestamp),
    decreases rules.len() - k,
{
    if k < rules.len() {
        assert(rules.take(k + 1).drop_last() == rules.take(k));
        lemma_outcomes_fail(records, rules, k + 1, timestamp);
    } else {
        assert(rules.take(k) == rules);
    }
}

/// Reduces each instrument's records to one group.
fn symbol_groups(data: &Vec<TDXDayRecord>, function: &AggregationFunction) -> (r: Result<
    Vec<AggregatedValue>,
    DataError,
>)
    ensures
        entries_are(r, symbol_entries(views(data@), symbols_seen(views(data@)), *function)),
{
    let symbols = distinct_symbols(data);
    let ghost names = text_views(symbols@);
    let mut values: Vec<AggregatedValue> = Vec::new();
    let mut k: usize = 0;
    assert(value_views(values@) =~= Seq::<ValueView>::empty());
    while k < symbols.len()
        invariant
            k <= symbols.len(),
            names == text_views(symbols@),
            names == symbols_seen(views(data@)),
            symbol_entries(views(data@), names.take(k as int), *function) == Ok::<
                Seq<ValueView>,
                DataError,
            >(value_views(values@)),
        decreases symbols.len() - k,
    {
        let ghost before = value_views(values@);
        proof {
            assert(names.take(k + 1).drop_last() == names.take(k as int));
            assert(names.take(k + 1).last() == symbols@[k as int]@);
        }
        let group = records_of(data, &symbols[k]);
        match reduce_between(&group, 0, group.len(), function) {
            Err(e) => {
                proof {
                    assert(views(group@).subrange(0, group.len() as int) == views(group@));
                    lemma_symbol_entries_fail(views(data@), names, k + 1, *function);
                }
                return Err(e);
            },
            Ok(value) => {
                proof {
                    assert(views(group@).subrange(0, group.len() as int) == views(group@));
                }
                let mut metadata: Vec<(String, String)> = Vec::new();
                metadata.push(label("symbol", symbols[k].clone()));
                metadata.push(label("record_count", decimal_string(group.len() as u64)));
                let entry = AggregatedValue {
                    key: symbols[k].clone(),
                    value,
                    count: Some(group.len()),
                    metadata,
                };
                proof {
                    assert(entry@.metadata =~= symbol_entry(
                        symbols@[k as int]@,
                        group.len() as int,
                        value as int,
                    ).metadata);
                    assert(entry@ == symbol_entry(
                        symbols@[k as int]@,
                        group.len() as int,
                        value as int,
                    ));
                }
                values.push(entry);
                proof {
                    assert(value_views(values@) =~= before.push(entry@));
                }
            },
        }
        k += 1;
    }
    proof {
        assert(names.take(symbols.len() as int) == names);
    }
    Ok(values)
}

/// Reduces the whole windows of one instrument's series and adds them to
/// `values`.
fn series_windows(
    values: &mut Vec<AggregatedValue>,
    symbol: &String,
    series: &Vec<TDXDayRecord>,
    window_size: usize,
    function: &AggregationFunction,
) -> (r: Result<(), DataError>)
    ensures
        match r {
            Ok(_) => window_entries(
                symbol@,
                views(series@),
                window_size as int,
                whole_windows(series.len() as int, window_size as int),
                *function,
            ) matches Ok(windows) && value_views(final(values)@) == value_views(old(values)@)
                + windows,
            Err(e) => window_entries(
                symbol@,
                views(series@),
                window_size as int,
                whole_windows(series.len() as int, window_size as int),
                *function,
            ) == Err::<Seq<ValueView>, DataError>(e),
        },
{
    let ghost start = value_views(values@);
    let ghost all = views(series@);
    if window_size == 0 {
        assert(value_views(values@) =~= start + Seq::<ValueView>::empty());
        return Ok(());
    }
    let count = series.len() / window_size;
    let mut k: usize = 0;
    assert(value_views(values@) =~= start + Seq::<ValueView>::empty());
    while k < count
        invariant
            k <= count,
            window_size > 0,
            count == series.len() / window_size,
            all == views(series@),
            window_entries(symbol@, all, window_size as int, k as int, *function) matches Ok(windows)
                && value_views(values@) == start + windows,
        decreases count - k,
    {
        let ghost done = window_entries(symbol@, all, window_size as int, k as int, *function)->Ok_0;
        let ghost before = value_views(values@);
        proof {
            assert((k + 1) * window_size <= series.len()) by (nonlinear_arith)
                requires
                    k + 1 <= count,
                    count == series.len() / window_size,
                    window_size > 0,
            ;
            assert(k * window_size + window_size == (k + 1) * window_size) by (nonlinear_arith);
        }
        let from = k * window_size;
        let to = from + window_size;
        let ghost window = all.subrange(from as int, to as int);
        match reduce_between(series, from, to, function) {
            Err(e) => {
                proof {
                    lemma_window_entries_fail(
                        symbol@,
                        all,
                        window_size as int,
                        k + 1,
                        count as int,
                        *function,
                    );
                }
                return Err(e);
            },
            Ok(value) => {
                let first = series[from].date.text();
                let last = series[to - 1].date.text();
                let mut key = symbol.clone();
                key.append("_");
                key.append(first.as_str());
                let mut metadata: Vec<(String, String)> = Vec::new();
                metadata.push(label("symbol", symbol.clone()));
                metadata.push(label("window_size", decimal_string(window_size as u64)));
                metadata.push(label("start_date", first));
                metadata.push(label("end_date", last));
                let entry = AggregatedValue { key, value, count: Some(window_size), metadata };
                proof {
                    let ghost wanted = window_entry(symbol@, window, value as int);
                    assert(window[0] == series@[from as int]@);
                    assert(window[window.len() - 1] == series@[to - 1]@);
                    assert(entry@.metadata =~= wanted.metadata);
                    assert(entry@.key =~= wanted.key);
                    assert(entry@ == wanted);
                }
                values.push(entry);
                proof {
                    assert(value_views(values@) =~= before.push(entry@));
                    assert(before.push(entry@) =~= start + done.push(entry@));
                }
            },
        }
        k += 1;
    }
    Ok(())
}

/// Reduces the whole windows of each instrument.
fn window_groups(data: &Vec<TDXDayRecord>, window_size: usize, function: &AggregationFunction) -> (r:
    Result<Vec<AggregatedValue>, DataError>)
    ensures
        entries_are(
            r,
            time_window_entries(
                views(data@),
                symbols_seen(views(data@)),
                window_size as int,
                *function,
            ),
        ),
{
    let symbols = distinct_symbols(data);
    let ghost names = text_views(symbols@);
    let mut values: Vec<AggregatedValue> = Vec::new();
    let mut k: usize = 0;
    assert(value_views(values@) =~= Seq::<ValueView>::empty());
    while k < symbols.len()
        invariant
            k <= symbols.len(),
            names == text_views(symbols@),
            names == symbols_seen(views(data@)),
            time_window_entries(views(data@), names.take(k as int), window_size as int, *function)
                == Ok::<Seq<ValueView>, DataError>(value_views(values@)),
        decreases symbols.len() - k,
    {
        proof {
            assert(names.take(k + 1).drop_last() == names.take(k as int));
            assert(names.take(k + 1).last() == symbols@[k as int]@);
        }
        let group = records_of(data, &symbols[k]);
        let series = in_date_order(&group);
        match series_windows(&mut values, &symbols[k], &series, window_size, function) {
            Err(e) => {
                proof {
                    lemma_time_window_entries_fail(
                        views(data@),
                        names,
                        k + 1,
                        window_size as int,
                        *function,
                    );
                }
                return Err(e);
            },
            Ok(_) => {},
        }
        k += 1;
    }
    proof {
        assert(names.take(symbols.len() as int) == names);
    }
    Ok(values)
}

/// The records of `data` dated from `start` to `end`, both included.
fn records_within(data: &Vec<TDXDayRecord>, start: &TradingDate, end: &TradingDate) -> (group: Vec<
    TDXDayRecord,
>)
    ensures
        views(group@) == within(views(data@), start@, end@),
{
    let n = data.len();
    let low = start.number();
    let high = end.number();
    let mut group: Vec<TDXDayRecord> = Vec::new();
    let mut i: usize = 0;
    assert(views(group@) =~= within(views(data@).take(0), start@, end@));
    while i < n
        invariant
            n == data.len(),
            i <= n,
            low == start@.number(),
            high == end@.number(),
            views(group@) == within(views(data@).take(i as int), start@, end@),
        decreases n - i,
    {
        let ghost before = views(group@);
        proof {
            assert(views(data@).take(i + 1).drop_last() == views(data@).take(i as int));
            assert(views(data@).take(i + 1).last() == data@[i as int]@);
        }
        let day = data[i].date.number();
        if low <= day && day <= high {
            group.push(data[i].clone());
            assert(views(group@) =~= before.push(data@[i as int]@));
        }
        i += 1;
    }
    proof {
        assert(views(data@).take(n as int) == views(data@));
    }
    group
}

/// Reduces the records of a range of dates to one group.
fn range_groups(
    data: &Vec<TDXDayRecord>,
    start: &TradingDate,
    end: &TradingDate,
    function: &AggregationFunction,
) -> (r: Result<Vec<AggregatedValue>, DataError>)
    ensures
        entries_are(r, range_entries(views(data@), start@, end@, *function)),
{
    let group = records_within(data, start, end);
    let mut values: Vec<AggregatedValue> = Vec::new();
    if group.len() == 0 {
        assert(value_views(values@) =~= Seq::<ValueView>::empty());
        return Ok(values);
    }
    proof {
        assert(views(group@).subrange(0, group.len() as int) == views(group@));
    }
    match reduce_between(&group, 0, group.len(), function) {
        Err(e) => Err(e),
        Ok(value) => {
            let first = start.text();
            let last = end.text();
            let mut key = first.clone();
            key.append("_");
            key.append(last.as_str());
            let mut metadata: Vec<(String, String)> = Vec::new();
            metadata.push(label("start_date", first));
            metadata.push(label("end_date", last));
            metadata.push(label("record_count", decimal_string(group.len() as u64)));
            let entry = AggregatedValue { key, value, count: Some(group.len()), metadata };
            proof {
                let ghost wanted = range_entries(views(data@), start@, end@, *function)->Ok_0[0];
                assert(entry@.metadata =~= wanted.metadata);
                assert(entry@.key =~= wanted.key);
            }
            values.push(entry);
            proof {
                assert(value_views(values@) =~= seq![entry@]);
            }
            Ok(values)
        },
    }
}

/// Reduces all records to one group.
fn custom_groups(data: &Vec<TDXDayRecord>, name: &str, function: &AggregationFunction) -> (r: Result<
    Vec<AggregatedValue>,
    DataError,
>)
    ensures
        entries_are(r, custom_entries(views(data@), name@, *function)),
{
    proof {
        assert(views(data@).subrange(0, data.len() as int) == views(data@));
    }
    match reduce_between(data, 0, data.len(), function) {
        Err(e) => Err(e),
        Ok(value) => {
            let mut metadata: Vec<(String, String)> = Vec::new();
            metadata.push(label("aggregation_type", String::from_str("custom")));
            metadata.push(label("record_count", decimal_string(data.len() as u64)));
            let entry = AggregatedValue {
                key: String::from_str(name),
                value,
                count: Some(data.len()),
                metadata,
            };
            proof {
                let ghost wanted = custom_entries(views(data@), name@, *function)->Ok_0[0];
                assert(entry@.metadata =~= wanted.metadata);
            }
            let mut values: Vec<AggregatedValue> = Vec::new();
            values.push(entry);
            proof {
                assert(value_views(values@) =~= seq![entry@]);
            }
            Ok(values)
        },
    }
}

/// The records `from..to` of `data`.
pub fn records_between(data: &Vec<TDXDayRecord>, from: usize, to: usize) -> (batch: Vec<TDXDayRecord>)
    requires
        from <= to <= data.len(),
    ensures
        views(batch@) == views(data@).subrange(from as int, to as int),
{
    let mut batch: Vec<TDXDayRecord> = Vec::new();
    let mut i: usize = from;
    while i < to
        invariant
            from <= i <= to <= data.len(),
            batch.len() == i - from,
            forall|j: int| 0 <= j < i - from ==> (#[trigger] batch@[j])@ == data@[from + j]@,
        decreases to - i,
    {
        batch.push(data[i].clone());
        i += 1;
    }
    assert(views(batch@) =~= views(data@).subrange(from as int, to as int));
    batch
}

/// The size of the batches of a stream: `batch_size`, and one where that is
/// nothing.
pub open spec fn batch_length(batch_size: int) -> int {
    if batch_size <= 0 {
        1
    } else {
        batch_size
    }
}

/// The number of batches that `length` records fill, the last of which may
/// be short.
pub open spec fn batch_count(length: int, batch_size: int) -> int {
    (length + batch_length(batch_size) - 1) / batch_length(batch_size)
}

/// The batch number `k` of `records`.
pub open spec fn batch_at(records: Seq<RecordView>, batch_size: int, k: int) -> Seq<RecordView> {
    let size = batch_length(batch_size);
    records.subrange(
        k * size,
        if (k + 1) * size <= records.len() {
            (k + 1) * size
        } else {
            records.len() as int
        },
    )
}

/// What `rule` makes of each of the first `count` batches of `records`.
pub open spec fn batch_outcomes(
    records: Seq<RecordView>,
    batch_size: int,
    count: int,
    rule: AggregationRule,
    timestamp: int,
) -> Result<Seq<ResultView>, DataError>
    decreases count,
{
    if count <= 0 {
        Ok(Seq::empty())
    } else {
        match batch_outcomes(records, batch_size, count - 1, rule, timestamp) {
            Err(e) => Err(e),
            Ok(results) => match rule_outcome(
                batch_at(records, batch_size, count - 1),
                rule,
                timestamp,
            ) {
                Err(e) => Err(e),
                Ok(result) => Ok(results.push(result)),
            },
        }
    }
}

proof fn lemma_batch_outcomes_fail(
    records: Seq<RecordView>,
    batch_size: int,
    k: int,
    count: int,
    rule: AggregationRule,
    timestamp: int,
)
    requires
        0 <= k <= count,
        batch_outcomes(records, batch_size, k, rule, timestamp) is Err,
    ensures
        batch_outcomes(records, batch_size, count, rule, timestamp) == batch_outcomes(
            records,
            batch_size,
            k,
            rule,
            timestamp,
        ),
    decreases count - k,
{
    if k < count {
        lemma_batch_outcomes_fail(records, batch_size, k, count - 1, rule, timestamp);
    }
}

/// The sum of the numbers of records that went into `results`.
pub open spec fn records_in(results: Seq<ResultView>) -> int
    decreases results.len(),
{
    if results.len() == 0 {
        0
    } else {
        records_in(results.drop_last()) + results.last().original_count
    }
}

/// The sum of the numbers of groups that came out in `results`.
pub open spec fn groups_in(results: Seq<ResultView>) -> int
    decreases results.len(),
{
    if results.len() == 0 {
        0
    } else {
        groups_in(results.drop_last()) + results.last().aggregated_count
    }
}

/// Totals over the outcomes of several rules.
#[derive(Clone, Copy, Debug, PartialEq, Eq, Structural)]
pub struct AggregationStats {
    /// The number of outcomes.
    pub total_rules_applied: usize,
    /// The records that went in, added up over the outcomes.
    pub total_original_records: usize,
    /// The groups that came out, added up over the outcomes.
    pub total_aggregated_records: usize,
    /// Groups per record, in millionths; one million where no record went
    /// in.
    pub compression_ratio: u128,
    /// When the totals were taken, in seconds since 1970.
    pub processing_time: i64,
}

/// Reads the clock through `chrono::Utc::now`. Nothing is claimed of the
/// time that comes back.
#[verifier::external_body]
fn current_timestamp() -> i64 {
    chrono::Utc::now().timestamp()
}

/// Takes the outcomes out of `results`, none of which is an error.
fn all_outcomes(results: Vec<Result<Vec<AggregationResult>, DataError>>) -> (all: Vec<
    Vec<AggregationResult>,
>)
    requires
        forall|i: int| 0 <= i < results.len() ==> (#[trigger] results@[i]) is Ok,
    ensures
        all.len() == results.len(),
        forall|i: int| 0 <= i < results.len() ==> #[trigger] all@[i] == results@[i]->Ok_0,
{
    let ghost given = results@;
    let mut results = results;
    let mut backwards: Vec<Vec<AggregationResult>> = Vec::new();
    while results.len() > 0
        invariant
            results.len() + backwards.len() == given.len(),
            forall|i: int| 0 <= i < results.len() ==> #[trigger] results@[i] == given[i],
            forall|i: int| 0 <= i < given.len() ==> (#[trigger] given[i]) is Ok,
            forall|j: int|
                0 <= j < backwards.len() ==> #[trigger] backwards@[j] == given[given.len() - 1
                    - j]->Ok_0,
        decreases results.len(),
    {
        match results.pop() {
            Some(Ok(outcome)) => {
                backwards.push(outcome);
            },
            _ => {},
        }
    }
    let mut all: Vec<Vec<AggregationResult>> = Vec::new();
    while backwards.len() > 0
        invariant
            all.len() + backwards.len() == given.len(),
            forall|j: int|
                0 <= j < backwards.len() ==> #[trigger] backwards@[j] == given[given.len() - 1
                    - j]->Ok_0,
            forall|i: int| 0 <= i < all.len() ==> #[trigger] all@[i] == given[i]->Ok_0,
        decreases backwards.len(),
    {
        match backwards.pop() {
            Some(outcome) => {
                all.push(outcome);
            },
            None => {},
        }
    }
    all
}

/// Whether `got` is what the rules make of the datasets, each dataset by
/// itself: on success one list of outcomes for each dataset, in the order
/// of the datasets; else the error of the first dataset that fails.
pub open spec fn datasets_outcome(
    got: Result<Vec<Vec<AggregationResult>>, DataError>,
    datasets: Seq<Vec<TDXDayRecord>>,
    rules: Seq<AggregationRule>,
    timestamp: int,
) -> bool {
    match got {
        Ok(all) => all.len() == datasets.len() && forall|i: int|
            0 <= i < datasets.len() ==> outcomes(views(#[trigger] datasets[i]@), rules, timestamp)
                == Ok::<Seq<ResultView>, DataError>(result_views(all@[i]@)),
        Err(e) => exists|i: int|
            0 <= i < datasets.len() && outcomes(views(#[trigger] datasets[i]@), rules, timestamp)
                == Err::<Seq<ResultView>, DataError>(e) && forall|j: int|
                0 <= j < i ==> outcomes(views(#[trigger] datasets[j]@), rules, timestamp) is Ok,
    }
}

/// A set of rules, each of which is applied to the records by itself.
#[derive(Debug)]
pub struct DataAggregator {
    /// The rules, in the order in which their outcomes are returned.
    pub rules: Vec<AggregationRule>,
}

/// Whether `function` is the mean of the field named `name`.
pub open spec fn is_mean_of(function: AggregationFunction, name: Seq<char>) -> bool {
    function matches AggregationFunction::Mean { field } && field@ == name
}

impl DataAggregator {
    /// An aggregator without rules.
    pub fn new() -> (aggregator: Self)
        ensures
            aggregator.rules@.len() == 0,
    {
        DataAggregator { rules: Vec::new() }
    }

    /// An aggregator with the usual rules: the mean close of each
    /// instrument, of each window of 5 records, and the mean volume of each
    /// window of 20 records.
    pub fn with_default_rules() -> (aggregator: Self)
        ensures
            aggregator.rules@.len() == 3,
            aggregator.rules@[0] matches AggregationRule::GroupBySymbol { function } && is_mean_of(
                function,
                "close"@,
            ),
            aggregator.rules@[1] matches AggregationRule::TimeWindow { window_size, function }
                && window_size == 5 && is_mean_of(function, "close"@),
            aggregator.rules@[2] matches AggregationRule::TimeWindow { window_size, function }
                && window_size == 20 && is_mean_of(function, "volume"@),
    {
        let mut aggregator = DataAggregator::new();
        aggregator.add_rule(
            AggregationRule::GroupBySymbol {
                function: AggregationFunction::Mean { field: String::from_str("close") },
            },
        );
        aggregator.add_rule(
            AggregationRule::TimeWindow {
                window_size: 5,
                function: AggregationFunction::Mean { field: String::from_str("close") },
            },
        );
        aggregator.add_rule(
            AggregationRule::TimeWindow {
                window_size: 20,
                function: AggregationFunction::Mean { field: String::from_str("volume") },
            },
        );
        aggregator
    }

    /// Adds one rule behind the others.
    pub fn add_rule(&mut self, rule: AggregationRule)
        ensures
            final(self).rules@ == old(self).rules@.push(rule),
    {
        self.rules.push(rule);
    }

    /// Adds rules behind the others, in their order.
    pub fn add_rules(&mut self, rules: Vec<AggregationRule>)
        ensures
            final(self).rules@ == old(self).rules@ + rules@,
    {
        let mut rules = rules;
        self.rules.append(&mut rules);
    }

    /// Reads the field named `field` of `record`.
    pub fn extract_field_value(&self, record: &TDXDayRecord, field: &str) -> (r: Result<
        u64,
        DataError,
    >)
        ensures
            match r {
                Ok(value) => field_named(field@) matches Some(f) && value == record@.value_of(f),
                Err(e) => e == DataError::UnknownField && field_named(field@) is None,
            },
    {
        match known_field(field) {
            Ok(f) => Ok(field_value(record, f)),
            Err(e) => Err(e),
        }
    }

    /// Reduces `records` to one number.
    pub fn apply_aggregation_function(
        &self,
        records: &Vec<TDXDayRecord>,
        function: &AggregationFunction,
    ) -> (r: Result<u128, DataError>)
        ensures
            number_is(r, reduced(views(records@), *function)),
    {
        proof {
            assert(views(records@).subrange(0, records.len() as int) == views(records@));
        }
        reduce_between(records, 0, records.len(), function)
    }

    /// Applies a rule of windows at the time `timestamp`.
    pub fn aggregate_time_window(
        &self,
        data: &Vec<TDXDayRecord>,
        window_size: usize,
        function: &AggregationFunction,
        timestamp: i64,
    ) -> (r: Result<AggregationResult, DataError>)
        ensures
            match r {
                Ok(result) => time_window_entries(
                    views(data@),
                    symbols_seen(views(data@)),
                    window_size as int,
                    *function,
                ) == Ok::<Seq<ValueView>, DataError>(result@.values) && result@.aggregation_id
                    == "time_window_"@ + decimal_text(window_size as nat) && result@.rule_name
                    == "TimeWindow"@ && result@.original_count == data.len()
                    && result@.aggregated_count == result@.values.len() && result@.timestamp
                    == timestamp,
                Err(e) => time_window_entries(
                    views(data@),
                    symbols_seen(views(data@)),
                    window_size as int,
                    *function,
                ) == Err::<Seq<ValueView>, DataError>(e),
            },
    {
        match window_groups(data, window_size, function) {
            Err(e) => Err(e),
            Ok(values) => Ok(
                AggregationResult {
                    aggregation_id: joined(
                        "time_window_",
                        decimal_string(window_size as u64).as_str(),
                    ),
                    rule_name: String::from_str("TimeWindow"),
                    original_count: data.len(),
                    aggregated_count: values.len(),
                    values,
                    timestamp,
                },
            ),
        }
    }

    /// Applies a rule of instruments at the time `timestamp`.
    pub fn aggregate_by_symbol(
        &self,
        data: &Vec<TDXDayRecord>,
        function: &AggregationFunction,
        timestamp: i64,
    ) -> (r: Result<AggregationResult, DataError>)
        ensures
            match r {
                Ok(result) => symbol_entries(views(data@), symbols_seen(views(data@)), *function)
                    == Ok::<Seq<ValueView>, DataError>(result@.values) && result@.aggregation_id
                    == "group_by_symbol"@ && result@.rule_name == "GroupBySymbol"@
                    && result@.original_count == data.len() && result@.aggregated_count
                    == result@.values.len() && result@.timestamp == timestamp,
                Err(e) => symbol_entries(views(data@), symbols_seen(views(data@)), *function)
                    == Err::<Seq<ValueView>, DataError>(e),
            },
    {
        match symbol_groups(data, function) {
            Err(e) => Err(e),
            Ok(values) => Ok(
                AggregationResult {
                    aggregation_id: String::from_str("group_by_symbol"),
                    rule_name: String::from_str("GroupBySymbol"),
                    original_count: data.len(),
                    aggregated_count: values.len(),
                    values,
                    timestamp,
                },
            ),
        }
    }

    /// Applies a rule of a range of dates at the time `timestamp`.
    pub fn aggregate_by_date_range(
        &self,
        data: &Vec<TDXDayRecord>,
        start_date: &TradingDate,
        end_date: &TradingDate,
        function: &AggregationFunction,
        timestamp: i64,
    ) -> (r: Result<AggregationResult, DataError>)
        ensures
            match r {
                Ok(result) => range_entries(views(data@), start_date@, end_date@, *function) == Ok::<
                    Seq<ValueView>,
                    DataError,
                >(result@.values) && result@.aggregation_id == "date_range_"@ + start_date@.text()
                    + "_"@ + end_date@.text() && result@.rule_name == "DateRange"@
                    && result@.original_count == data.len() && result@.aggregated_count
                    == result@.values.len() && result@.timestamp == timestamp,
                Err(e) => range_entries(views(data@), start_date@, end_date@, *function) == Err::<
                    Seq<ValueView>,
                    DataError,
                >(e),
            },
    {
        match range_groups(data, start_date, end_date, function) {
            Err(e) => Err(e),
            Ok(values) => {
                let mut id = String::from_str("date_range_");
                id.append(start_date.text().as_str());
                id.append("_");
                id.append(end_date.text().as_str());
                Ok(
                    AggregationResult {
                        aggregation_id: id,
                        rule_name: String::from_str("DateRange"),
                        original_count: data.len(),
                        aggregated_count: values.len(),
                        values,
                        timestamp,
                    },
                )
            },
        }
    }

    /// Applies a custom rule at the time `timestamp`.
    pub fn aggregate_custom(
        &self,
        data: &Vec<TDXDayRecord>,
        name: &str,
        function: &AggregationFunction,
        timestamp: i64,
    ) -> (r: Result<AggregationResult, DataError>)
        ensures
            match r {
                Ok(result) => custom_entries(views(data@), name@, *function) == Ok::<
                    Seq<ValueView>,
                    DataError,
                >(result@.values) && result@.aggregation_id == "custom_"@ + name@
                    && result@.rule_name == "Custom"@ && result@.original_count == data.len()
                    && result@.aggregated_count == result@.values.len() && result@.timestamp
                    == timestamp,
                Err(e) => custom_entries(views(data@), name@, *function) == Err::<
                    Seq<ValueView>,
                    DataError,
                >(e),
            },
    {
        match custom_groups(data, name, function) {
            Err(e) => Err(e),
            Ok(values) => Ok(
                AggregationResult {
                    aggregation_id: joined("custom_", name),
                    rule_name: String::from_str("Custom"),
                    original_count: data.len(),
                    aggregated_count: values.len(),
                    values,
                    timestamp,
                },
            ),
        }
    }

    /// Applies one rule to the records at the time `timestamp`.
    pub fn apply_rule_at(&self, data: &Vec<TDXDayRecord>, rule: &AggregationRule, timestamp: i64) -> (r:
        Result<AggregationResult, DataError>)
        ensures
            result_is(r, rule_outcome(views(data@), *rule, timestamp as int)),
    {
        match rule {
            AggregationRule::TimeWindow { window_size, function } => self.aggregate_time_window(
                data,
                *window_size,
                function,
                timestamp,
            ),
            AggregationRule::GroupBySymbol { function } => self.aggregate_by_symbol(
                data,
                function,
                timestamp,
            ),
            AggregationRule::DateRange {
                start_date,
                end_date,
                function,
            } => self.aggregate_by_date_range(data, start_date, end_date, function, timestamp),
            AggregationRule::Custom { name, rule: _, function } => self.aggregate_custom(
                data,
                name.as_str(),
                function,
                timestamp,
            ),
        }
    }

    /// Applies one rule to the records now.
    pub fn apply_rule(&self, data: &Vec<TDXDayRecord>, rule: &AggregationRule) -> (r: Result<
        AggregationResult,
        DataError,
    >)
        ensures
            exists|timestamp: i64|
                result_is(r, #[trigger] rule_outcome(views(data@), *rule, timestamp as int)),
    {
        let timestamp = current_timestamp();
        self.apply_rule_at(data, rule, timestamp)
    }

    /// Applies every rule to the records at the time `timestamp`. The
    /// outcomes come in the order of the rules; no rule sees what another
    /// made.
    pub fn aggregate_at(&self, data: &Vec<TDXDayRecord>, timestamp: i64) -> (r: Result<
        Vec<AggregationResult>,
        DataError,
    >)
        ensures
            results_are(r, outcomes(views(data@), self.rules@, timestamp as int)),
    {
        let mut results: Vec<AggregationResult> = Vec::new();
        let mut k: usize = 0;
        assert(result_views(results@) =~= Seq::<ResultView>::empty());
        while k < self.rules.len()
            invariant
                k <= self.rules.len(),
                outcomes(views(data@), self.rules@.take(k as int), timestamp as int) == Ok::<
                    Seq<ResultView>,
                    DataError,
                >(result_views(results@)),
            decreases self.rules.len() - k,
        {
            let ghost before = result_views(results@);
            proof {
                assert(self.rules@.take(k + 1).drop_last() == self.rules@.take(k as int));
                assert(self.rules@.take(k + 1).last() == self.rules@[k as int]);
            }
            match self.apply_rule_at(data, &self.rules[k], timestamp) {
                Err(e) => {
                    proof {
                        lemma_outcomes_fail(views(data@), self.rules@, k + 1, timestamp as int);
                    }
                    return Err(e);
                },
                Ok(result) => {
                    results.push(result);
                    proof {
                        assert(result_views(results@) =~= before.push(result@));
                    }
                },
            }
            k += 1;
        }
        proof {
            assert(self.rules@.take(self.rules.len() as int) == self.rules@);
        }
        Ok(results)
    }

    /// Applies every rule to the records now.
    pub fn aggregate(&self, data: &Vec<TDXDayRecord>) -> (r: Result<Vec<AggregationResult>, DataError>)
        ensures
            exists|timestamp: i64|
                results_are(r, #[trigger] outcomes(views(data@), self.rules@, timestamp as int)),
    {
        let timestamp = current_timestamp();
        self.aggregate_at(data, timestamp)
    }

    /// Hands each dataset to `aggregate_at` on the worker threads of
    /// `rayon`, through its parallel `map` and `collect`. Trusted: one
    /// outcome comes back for each dataset, in the order of the datasets,
    /// and it is what `aggregate_at` returns for that dataset.
    #[verifier::external_body]
    fn fan_out(&self, datasets: &Vec<Vec<TDXDayRecord>>, timestamp: i64) -> (results: Vec<
        Result<Vec<AggregationResult>, DataError>,
    >)
        ensures
            results.len() == datasets.len(),
            forall|i: int|
                0 <= i < datasets.len() ==> results_are(
                    #[trigger] results@[i],
                    outcomes(views(datasets@[i]@), self.rules@, timestamp as int),
                ),
    {
        datasets.par_iter().map(|data| self.aggregate_at(data, timestamp)).collect()
    }

    /// Applies every rule to each of several independent datasets at the
    /// time `timestamp`, the datasets side by side. Each dataset gets what
    /// `aggregate_at` makes of it alone, whatever the order in which the
    /// work is done; the first dataset that fails, in the order of the
    /// datasets, fails the whole.
    pub fn aggregate_parallel_at(&self, datasets: &Vec<Vec<TDXDayRecord>>, timestamp: i64) -> (r:
        Result<Vec<Vec<AggregationResult>>, DataError>)
        ensures
            datasets_outcome(r, datasets@, self.rules@, timestamp as int),
    {
        let results = self.fan_out(datasets, timestamp);
        let mut i: usize = 0;
        while i < results.len()
            invariant
                i <= results.len(),
                results.len() == datasets.len(),
                forall|j: int|
                    0 <= j < datasets.len() ==> results_are(
                        #[trigger] results@[j],
                        outcomes(views(datasets@[j]@), self.rules@, timestamp as int),
                    ),
                forall|j: int| 0 <= j < i ==> (#[trigger] results@[j]) is Ok,
            decreases results.len() - i,
        {
            match &results[i] {
                Err(e) => {
                    proof {
                        assert(results_are(
                            results@[i as int],
                            outcomes(views(datasets@[i as int]@), self.rules@, timestamp as int),
                        ));
                        assert forall|j: int| 0 <= j < i implies outcomes(
                            views(#[trigger] datasets@[j]@),
                            self.rules@,
                            timestamp as int,
                        ) is Ok by {
                            assert(results@[j] is Ok);
                        }
                    }
                    return Err(*e);
                },
                Ok(_) => {},
            }
            i += 1;
        }
        let all = all_outcomes(results);
        proof {
            assert forall|i: int| 0 <= i < datasets.len() implies outcomes(
                views(#[trigger] datasets@[i]@),
                self.rules@,
                timestamp as int,
            ) == Ok::<Seq<ResultView>, DataError>(result_views(all@[i]@)) by {
                assert(results@[i] is Ok);
                assert(all@[i] == results@[i]->Ok_0);
            }
        }
        Ok(all)
    }

    /// Applies every rule to each of several independent datasets now.
    pub fn aggregate_parallel(&self, datasets: &Vec<Vec<TDXDayRecord>>) -> (r: Result<
        Vec<Vec<AggregationResult>>,
        DataError,
    >)
        ensures
            exists|timestamp: i64| #[trigger]
                datasets_outcome(r, datasets@, self.rules@, timestamp as int),
    {
        let timestamp = current_timestamp();
        self.aggregate_parallel_at(datasets, timestamp)
    }

    /// Applies one rule to a stream of records, batch by batch, at the time
    /// `timestamp`. The records are taken in their order in batches of
    /// `batch_size` (of one, where `batch_size` is nothing); the last batch
    /// holds what is left.
    pub fn aggregate_stream(
        &self,
        data_stream: &Vec<TDXDayRecord>,
        batch_size: usize,
        rule: &AggregationRule,
        timestamp: i64,
    ) -> (r: Result<Vec<AggregationResult>, DataError>)
        ensures
            results_are(
                r,
                batch_outcomes(
                    views(data_stream@),
                    batch_size as int,
                    batch_count(data_stream.len() as int, batch_size as int),
                    *rule,
                    timestamp as int,
                ),
            ),
    {
        let size: usize = if batch_size == 0 {
            1
        } else {
            batch_size
        };
        let n = data_stream.len();
        let ghost all = views(data_stream@);
        let count: usize = if n == 0 {
            0
        } else {
            (n - 1) / size + 1
        };
        proof {
            lemma_batch_count(n as int, size as int);
        }
        let mut results: Vec<AggregationResult> = Vec::new();
        let mut k: usize = 0;
        assert(result_views(results@) =~= Seq::<ResultView>::empty());
        while k < count
            invariant
                n == data_stream.len(),
                all == views(data_stream@),
                size == batch_length(batch_size as int),
                count == batch_count(n as int, batch_size as int),
                k <= count,
                batch_outcomes(all, batch_size as int, k as int, *rule, timestamp as int) == Ok::<
                    Seq<ResultView>,
                    DataError,
                >(result_views(results@)),
            decreases count - k,
        {
            let ghost before = result_views(results@);
            proof {
                lemma_batch_start(n as int, size as int, k as int);
            }
            let from = k * size;
            let to: usize = if n - from <= size {
                n
            } else {
                from + size
            };
            proof {
                assert(batch_at(all, batch_size as int, k as int) == all.subrange(
                    from as int,
                    to as int,
                ));
            }
            let batch = records_between(data_stream, from, to);
            match self.apply_rule_at(&batch, rule, timestamp) {
                Err(e) => {
                    proof {
                        lemma_batch_outcomes_fail(
                            all,
                            batch_size as int,
                            k + 1,
                            count as int,
                            *rule,
                            timestamp as int,
                        );
                    }
                    return Err(e);
                },
                Ok(result) => {
                    results.push(result);
                    proof {
                        assert(result_views(results@) =~= before.push(result@));
                    }
                },
            }
            k += 1;
        }
        Ok(results)
    }

    /// Totals over `results`, taken now.
    pub fn get_aggregation_stats(&self, results: &Vec<AggregationResult>) -> (stats: AggregationStats)
        requires
            records_in(result_views(results@)) <= usize::MAX,
            groups_in(result_views(results@)) <= usize::MAX,
        ensures
            stats.total_rules_applied == results.len(),
            stats.total_original_records == records_in(result_views(results@)),
            stats.total_aggregated_records == groups_in(result_views(results@)),
            stats.compression_ratio == if stats.total_original_records > 0 {
                stats.total_aggregated_records * 1_000_000 / (stats.total_original_records as int)
            } else {
                1_000_000
            },
    {
        let timestamp = current_timestamp();
        self.get_aggregation_stats_at(results, timestamp)
    }

    /// Totals over `results`, taken at the time `timestamp`.
    pub fn get_aggregation_stats_at(&self, results: &Vec<AggregationResult>, timestamp: i64) -> (stats:
        AggregationStats)
        requires
            records_in(result_views(results@)) <= usize::MAX,
            groups_in(result_views(results@)) <= usize::MAX,
        ensures
            stats.total_rules_applied == results.len(),
            stats.total_original_records == records_in(result_views(results@)),
            stats.total_aggregated_records == groups_in(result_views(results@)),
            stats.compression_ratio == if stats.total_original_records > 0 {
                stats.total_aggregated_records * 1_000_000 / (stats.total_original_records as int)
            } else {
                1_000_000
            },
            stats.processing_time == timestamp,
    {
        let ghost all = result_views(results@);
        let n = results.len();
        let mut records: usize = 0;
        let mut groups: usize = 0;
        let mut i: usize = 0;
        proof {
            lemma_counts_prefix(all, 0);
        }
        while i < n
            invariant
                n == results.len(),
                all == result_views(results@),
                i <= n,
                records == records_in(all.take(i as int)),
                groups == groups_in(all.take(i as int)),
                records_in(all) <= usize::MAX,
                groups_in(all) <= usize::MAX,
            decreases n - i,
        {
            proof {
                assert(all.take(i + 1).drop_last() == all.take(i as int));
                assert(all.take(i + 1).last() == results@[i as int]@);
                lemma_counts_prefix(all, i + 1);
            }
            records = records + results[i].original_count;
            groups = groups + results[i].aggregated_count;
            i += 1;
        }
        proof {
            assert(all.take(n as int) == all);
        }
        let ratio: u128 = if records > 0 {
            (groups as u128) * 1_000_000 / (records as u128)
        } else {
            1_000_000
        };
        AggregationStats {
            total_rules_applied: n,
            total_original_records: records,
            total_aggregated_records: groups,
            compression_ratio: ratio,
            processing_time: timestamp,
        }
    }
}

/// The batches of `size` records that `n` records fill are as many as the
/// whole batches and one more for what is left.
pub proof fn lemma_batch_count(n: int, size: int)
    requires
        n >= 0,
        size >= 1,
    ensures
        n == 0 ==> (n + size - 1) / size == 0,
        n > 0 ==> (n + size - 1) / size == (n - 1) / size + 1,
{
    if n > 0 {
        let q = (n - 1) / size;
        let r = (n - 1) % size;
        vstd::arithmetic::div_mod::lemma_fundamental_div_mod(n - 1, size);
        vstd::arithmetic::div_mod::lemma_mod_bound(n - 1, size);
        assert(n + size - 1 == (q + 1) * size + r) by (nonlinear_arith)
            requires
                n - 1 == size * q + r,
        ;
        vstd::arithmetic::div_mod::lemma_fundamental_div_mod_converse(n + size - 1, size, q + 1, r);
    } else {
        assert((size - 1) / size == 0) by (nonlinear_arith)
            requires
                size >= 1,
        ;
    }
}

/// The batch number `k` of `n` records starts within the records.
proof fn lemma_batch_start(n: int, size: int, k: int)
    requires
        n >= 0,
        size >= 1,
        0 <= k < (n + size - 1) / size,
    ensures
        0 <= k * size < n,
        (k + 1) * size == k * size + size,
{
    lemma_batch_count(n, size);
    let q = (n - 1) / size;
    vstd::arithmetic::div_mod::lemma_fundamental_div_mod(n - 1, size);
    assert(k * size <= q * size) by (nonlinear_arith)
        requires
            0 <= k <= q,
            size >= 1,
    ;
    assert(size * q == q * size) by (nonlinear_arith);
    assert(0 <= k * size) by (nonlinear_arith)
        requires
            0 <= k,
            size >= 1,
    ;
    assert((k + 1) * size == k * size + size) by (nonlinear_arith);
}

/// The totals over the first `k` outcomes are not negative and do not
/// exceed the totals over all.
proof fn lemma_counts_prefix(results: Seq<ResultView>, k: int)
    requires
        0 <= k <= results.len(),
        forall|i: int|
            0 <= i < results.len() ==> (#[trigger] results[i]).original_count >= 0 && results[i].aggregated_count
                >= 0,
    ensures
        0 <= records_in(results.take(k)) <= records_in(results),
        0 <= groups_in(results.take(k)) <= groups_in(results),
    decreases results.len() - k,
{
    lemma_counts_positive(results.take(k));
    if k < results.len() {
        lemma_counts_prefix(results, k + 1);
        assert(results.take(k + 1).drop_last() == results.take(k));
    } else {
        assert(results.take(k) == results);
    }
}

proof fn lemma_counts_positive(results: Seq<ResultView>)
    requires
        forall|i: int|
            0 <= i < results.len() ==> (#[trigger] results[i]).original_count >= 0 && results[i].aggregated_count
                >= 0,
    ensures
        0 <= records_in(results),
        0 <= groups_in(results),
    decreases results.len(),
{
    if results.len() > 0 {
        lemma_counts_positive(results.drop_last());
    }
}

/// An instrument with `length` records in its series yields one group for
/// each whole window of `size` records and none for what is left over.
pub proof fn lemma_whole_windows_only(
    symbol: Seq<char>,
    series: Seq<RecordView>,
    size: int,
    count: int,
    function: AggregationFunction,
)
    requires
        0 <= count,
    ensures
        window_entries(symbol, series, size, count, function) matches Ok(windows) ==> windows.len()
            == count,
    decreases count,
{
    if count > 0 {
        lemma_whole_windows_only(symbol, series, size, count - 1, function);
    }
}

impl Default for DataAggregator {
    /// An aggregator with the usual rules.
    fn default() -> (aggregator: Self)
        ensures
            aggregator.rules@.len() == 3,
            aggregator.rules@[0] matches AggregationRule::GroupBySymbol { function } && is_mean_of(
                function,
                "close"@,
            ),
            aggregator.rules@[1] matches AggregationRule::TimeWindow { window_size, function }
                && window_size == 5 && is_mean_of(function, "close"@),
            aggregator.rules@[2] matches AggregationRule::TimeWindow { window_size, function }
                && window_size == 20 && is_mean_of(function, "volume"@),
    {
        DataAggregator::with_default_rules()
    }
}

/// Grouping by instrument yields one group for each instrument, under its
/// symbol, in the order of the instruments, and none is empty.
pub proof fn lemma_one_group_per_symbol(
    records: Seq<RecordView>,
    symbols: Seq<Seq<char>>,
    function: AggregationFunction,
)
    ensures
        symbol_entries(records, symbols, function) matches Ok(entries) ==> entries.len()
            == symbols.len() && forall|k: int|
            0 <= k < symbols.len() ==> (#[trigger] entries[k]).key == symbols[k] && entries[k].count
                == Some(of_symbol(records, symbols[k]).len() as int),
    decreases symbols.len(),
{
    if symbols.len() > 0 {
        lemma_one_group_per_symbol(records, symbols.drop_last(), function);
    }
}

} // verus!
