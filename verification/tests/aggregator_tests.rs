use pulse_trader_rust::calendar::TradingDate;
use pulse_trader_rust::error::DataError;
use pulse_trader_rust::parsers::TDXDayRecord;
use pulse_trader_rust::processors::aggregator::{AggregationFunction, AggregationResult};
use pulse_trader_rust::processors::{AggregationRule, DataAggregator};

fn day(text: &str) -> TradingDate {
    let year: i32 = text[0..4].parse().unwrap();
    let month: u32 = text[5..7].parse().unwrap();
    let day: u32 = text[8..10].parse().unwrap();
    TradingDate::from_ymd_opt(year, month, day).unwrap()
}

fn create_test_record(symbol: &str, date: &str) -> TDXDayRecord {
    TDXDayRecord {
        date: day(date),
        symbol: symbol.to_string(),
        open: 1000,
        high: 1100,
        low: 900,
        close: 1050,
        volume: 1000000,
        amount: 1_050_000_000,
        market: "SH".to_string(),
    }
}

fn priced(symbol: &str, date: &str, close: u32, volume: u64) -> TDXDayRecord {
    TDXDayRecord { close, high: close.max(1100), low: close.min(900), volume, ..create_test_record(symbol, date) }
}

fn field(name: &str) -> String {
    name.to_string()
}

fn closes(values: &[u32]) -> Vec<TDXDayRecord> {
    values
        .iter()
        .enumerate()
        .map(|(i, close)| priced("600000", &format!("2024-01-{:02}", i + 1), *close, (i + 1) as u64))
        .collect()
}

fn reduce(records: &Vec<TDXDayRecord>, function: AggregationFunction) -> Result<u128, DataError> {
    DataAggregator::new().apply_aggregation_function(records, &function)
}

#[test]
fn test_data_aggregator_creation() {
    let aggregator = DataAggregator::new();
    assert!(aggregator.rules.is_empty());
}

#[test]
fn aggregator_test_add_rules() {
    let mut aggregator = DataAggregator::new();
    aggregator.add_rule(AggregationRule::GroupBySymbol {
        function: AggregationFunction::Mean { field: "close".to_string() },
    });
    assert_eq!(aggregator.rules.len(), 1);
}

#[test]
fn test_aggregate_by_symbol() {
    let aggregator = DataAggregator::new();
    let data = vec![
        create_test_record("600000", "2024-01-01"),
        create_test_record("600000", "2024-01-02"),
        create_test_record("000001", "2024-01-01"),
    ];

    let rule = AggregationRule::GroupBySymbol {
        function: AggregationFunction::Mean { field: "close".to_string() },
    };

    let result = aggregator.apply_rule(&data, &rule).unwrap();
    assert_eq!(result.aggregated_count, 2);
}

#[test]
fn test_time_window_aggregation() {
    let aggregator = DataAggregator::new();
    let data = vec![
        create_test_record("600000", "2024-01-01"),
        create_test_record("600000", "2024-01-02"),
        create_test_record("600000", "2024-01-03"),
        create_test_record("600000", "2024-01-04"),
        create_test_record("600000", "2024-01-05"),
    ];

    let rule = AggregationRule::TimeWindow {
        window_size: 3,
        function: AggregationFunction::Mean { field: "close".to_string() },
    };

    let result = aggregator.apply_rule(&data, &rule).unwrap();
    assert_eq!(result.aggregated_count, 1);
    assert_eq!(result.values.len(), 1);
    assert_eq!(result.values[0].count, Some(3));
}

#[test]
fn test_parallel_aggregation() {
    let aggregator = DataAggregator::new();
    let dataset1 = vec![
        create_test_record("600000", "2024-01-01"),
        create_test_record("600000", "2024-01-02"),
    ];
    let dataset2 = vec![
        create_test_record("000001", "2024-01-01"),
        create_test_record("000001", "2024-01-02"),
    ];

    let datasets = vec![dataset1, dataset2];
    let results = aggregator.aggregate_parallel(&datasets).unwrap();

    assert_eq!(results.len(), 2);
    for dataset_results in results {
        for result in dataset_results {
            assert!(result.aggregated_count > 0);
        }
    }
}

#[test]
fn mean_close_by_symbol() {
    let data = vec![
        priced("A", "2024-01-01", 1050, 1),
        priced("A", "2024-01-02", 1150, 1),
        priced("B", "2024-01-01", 1050, 1),
    ];
    let rule = AggregationRule::GroupBySymbol { function: AggregationFunction::Mean { field: field("close") } };
    let result = DataAggregator::new().apply_rule_at(&data, &rule, 77).unwrap();

    assert_eq!(result.aggregation_id, "group_by_symbol");
    assert_eq!(result.rule_name, "GroupBySymbol");
    assert_eq!(result.original_count, 3);
    assert_eq!(result.aggregated_count, 2);
    assert_eq!(result.timestamp, 77);
    assert_eq!(result.values[0].key, "A");
    assert_eq!(result.values[0].value, 1100);
    assert_eq!(result.values[0].value as f64 / 100.0, 11.0);
    assert_eq!(result.values[0].count, Some(2));
    assert_eq!(
        result.values[0].metadata,
        vec![(field("symbol"), field("A")), (field("record_count"), field("2"))]
    );
    assert_eq!(result.values[1].key, "B");
    assert_eq!(result.values[1].value, 1050);
    assert_eq!(result.values[1].value as f64 / 100.0, 10.5);
    assert_eq!(result.values[1].count, Some(1));
}

#[test]
fn each_function_reduces_its_field() {
    let data = closes(&[1300, 1000, 1200, 1100]);
    assert_eq!(reduce(&data, AggregationFunction::Sum { field: field("close") }), Ok(4600));
    assert_eq!(reduce(&data, AggregationFunction::Mean { field: field("close") }), Ok(1150));
    assert_eq!(reduce(&data, AggregationFunction::Max { field: field("close") }), Ok(1300));
    assert_eq!(reduce(&data, AggregationFunction::Min { field: field("close") }), Ok(1000));
    assert_eq!(reduce(&data, AggregationFunction::Median { field: field("close") }), Ok(1100));
    assert_eq!(reduce(&data, AggregationFunction::Count), Ok(4));
    assert_eq!(reduce(&data, AggregationFunction::First { field: field("close") }), Ok(1300));
    assert_eq!(reduce(&data, AggregationFunction::Last { field: field("close") }), Ok(1100));
    assert_eq!(reduce(&data, AggregationFunction::Sum { field: field("volume") }), Ok(10));
    assert_eq!(reduce(&data, AggregationFunction::Sum { field: field("open") }), Ok(4000));
    assert_eq!(reduce(&data, AggregationFunction::Max { field: field("high") }), Ok(1300));
    assert_eq!(reduce(&data, AggregationFunction::Min { field: field("low") }), Ok(900));
    assert_eq!(reduce(&data, AggregationFunction::Mean { field: field("amount") }), Ok(1_050_000_000));
}

#[test]
fn the_median_of_an_odd_number_is_the_middle_value() {
    let data = closes(&[1500, 1000, 1200, 1100, 1900]);
    assert_eq!(reduce(&data, AggregationFunction::Median { field: field("close") }), Ok(1200));
    let two = closes(&[1500, 1000]);
    assert_eq!(reduce(&two, AggregationFunction::Median { field: field("close") }), Ok(1000));
    let one = closes(&[1500]);
    assert_eq!(reduce(&one, AggregationFunction::Median { field: field("close") }), Ok(1500));
}

#[test]
fn mean_and_spread_round_down() {
    let data = closes(&[1, 2, 3, 4]);
    assert_eq!(reduce(&data, AggregationFunction::Mean { field: field("close") }), Ok(2));
    assert_eq!(reduce(&data, AggregationFunction::Variance { field: field("close") }), Ok(1));
    assert_eq!(reduce(&data, AggregationFunction::StdDev { field: field("close") }), Ok(1));

    let wide = closes(&[1000, 1200]);
    assert_eq!(reduce(&wide, AggregationFunction::Variance { field: field("close") }), Ok(10000));
    assert_eq!(reduce(&wide, AggregationFunction::StdDev { field: field("close") }), Ok(100));

    let odd = closes(&[1000, 1000, 1030]);
    assert_eq!(reduce(&odd, AggregationFunction::Variance { field: field("close") }), Ok(200));
    assert_eq!(reduce(&odd, AggregationFunction::StdDev { field: field("close") }), Ok(14));
}

#[test]
fn spread_of_the_largest_values_does_not_overflow() {
    let mut data = closes(&[1000, 1000]);
    data[0].volume = u64::MAX;
    data[1].volume = 0;
    let mean = (u64::MAX / 2) as u128;
    let high = u64::MAX as u128 - mean;
    let expected = (high * high) / 2 + (mean * mean) / 2 + ((high * high) % 2 + (mean * mean) % 2) / 2;
    assert_eq!(reduce(&data, AggregationFunction::Mean { field: field("volume") }), Ok(mean));
    assert_eq!(reduce(&data, AggregationFunction::Variance { field: field("volume") }), Ok(expected));
    let root = reduce(&data, AggregationFunction::StdDev { field: field("volume") }).unwrap();
    assert!(root * root <= expected && expected < (root + 1) * (root + 1));
    assert_eq!(
        reduce(&data, AggregationFunction::Sum { field: field("volume") }),
        Ok(u64::MAX as u128)
    );
}

#[test]
fn the_weighted_mean_divides_by_the_weights() {
    let data = vec![priced("A", "2024-01-01", 1000, 1), priced("A", "2024-01-02", 2000, 3)];
    let function = AggregationFunction::WeightedMean { value_field: field("close"), weight_field: field("volume") };
    assert_eq!(reduce(&data, function), Ok(1750));

    let idle = vec![priced("A", "2024-01-01", 1000, 0), priced("A", "2024-01-02", 2000, 0)];
    let function = AggregationFunction::WeightedMean { value_field: field("close"), weight_field: field("volume") };
    assert_eq!(reduce(&idle, function), Ok(0));

    let mut heavy = vec![priced("A", "2024-01-01", 1000, u64::MAX), priced("A", "2024-01-02", 2000, u64::MAX)];
    heavy[0].amount = u64::MAX;
    heavy[1].amount = u64::MAX - 1;
    let function = AggregationFunction::WeightedMean { value_field: field("amount"), weight_field: field("volume") };
    assert_eq!(reduce(&heavy, function), Ok(u64::MAX as u128 - 1));
}

#[test]
fn the_custom_function_is_the_binary_logarithm_of_the_count() {
    let custom = || AggregationFunction::Custom { name: field("anything"), fields: vec![field("nothing")] };
    assert_eq!(reduce(&closes(&[1000]), custom()), Ok(0));
    assert_eq!(reduce(&closes(&[1000, 1000]), custom()), Ok(1));
    assert_eq!(reduce(&closes(&[1000, 1000, 1000]), custom()), Ok(1));
    assert_eq!(reduce(&closes(&[1000; 4]), custom()), Ok(2));
    assert_eq!(reduce(&closes(&[1000; 5]), custom()), Ok(2));
    assert_eq!(reduce(&closes(&[1000; 8]), custom()), Ok(3));
    assert_eq!((5f64).log2().floor() as u128, 2);
}

#[test]
fn no_records_reduce_to_zero() {
    let none: Vec<TDXDayRecord> = Vec::new();
    assert_eq!(reduce(&none, AggregationFunction::Sum { field: field("close") }), Ok(0));
    assert_eq!(reduce(&none, AggregationFunction::Min { field: field("close") }), Ok(0));
    assert_eq!(reduce(&none, AggregationFunction::StdDev { field: field("close") }), Ok(0));
    assert_eq!(reduce(&none, AggregationFunction::Count), Ok(0));
    assert_eq!(reduce(&none, AggregationFunction::Median { field: field("nothing") }), Ok(0));
    assert_eq!(reduce(&none, AggregationFunction::Custom { name: field("x"), fields: vec![] }), Ok(0));
}

#[test]
fn an_unknown_field_fails_where_there_are_records() {
    let data = closes(&[1000, 1100]);
    assert_eq!(reduce(&data, AggregationFunction::Sum { field: field("price") }), Err(DataError::UnknownField));
    assert_eq!(reduce(&data, AggregationFunction::Last { field: field("") }), Err(DataError::UnknownField));
    assert_eq!(reduce(&data, AggregationFunction::Mean { field: field("Close") }), Err(DataError::UnknownField));
    let function = AggregationFunction::WeightedMean { value_field: field("close"), weight_field: field("weight") };
    assert_eq!(reduce(&data, function), Err(DataError::UnknownField));
    let function = AggregationFunction::WeightedMean { value_field: field("value"), weight_field: field("volume") };
    assert_eq!(reduce(&data, function), Err(DataError::UnknownField));

    let aggregator = DataAggregator::new();
    assert_eq!(aggregator.extract_field_value(&data[0], "close"), Ok(1000));
    assert_eq!(aggregator.extract_field_value(&data[0], "volume"), Ok(1));
    assert_eq!(aggregator.extract_field_value(&data[0], "turnover"), Err(DataError::UnknownField));

    let mut rules = DataAggregator::new();
    rules.add_rule(AggregationRule::GroupBySymbol { function: AggregationFunction::Count });
    rules.add_rule(AggregationRule::GroupBySymbol { function: AggregationFunction::Sum { field: field("bogus") } });
    assert_eq!(rules.aggregate(&data), Err(DataError::UnknownField));
    assert_eq!(rules.aggregate(&Vec::new()).unwrap().len(), 2);
}

#[test]
fn windows_are_cut_from_each_instrument_in_chronological_order() {
    let data = vec![
        priced("600000", "2024-01-03", 1300, 1),
        priced("000001", "2024-01-02", 2200, 1),
        priced("600000", "2024-01-01", 1100, 1),
        priced("600000", "2024-01-02", 1200, 1),
        priced("000001", "2024-01-01", 2100, 1),
        priced("600000", "2024-01-05", 1500, 1),
        priced("600000", "2024-01-04", 1400, 1),
    ];
    let rule = AggregationRule::TimeWindow { window_size: 2, function: AggregationFunction::First { field: field("close") } };
    let result = DataAggregator::new().apply_rule_at(&data, &rule, 5).unwrap();

    assert_eq!(result.aggregation_id, "time_window_2");
    assert_eq!(result.rule_name, "TimeWindow");
    assert_eq!(result.original_count, 7);
    assert_eq!(result.aggregated_count, 3);
    let keys: Vec<&str> = result.values.iter().map(|v| v.key.as_str()).collect();
    assert_eq!(keys, vec!["600000_2024-01-01", "600000_2024-01-03", "000001_2024-01-01"]);
    let values: Vec<u128> = result.values.iter().map(|v| v.value).collect();
    assert_eq!(values, vec![1100, 1300, 2100]);
    assert_eq!(
        result.values[1].metadata,
        vec![
            (field("symbol"), field("600000")),
            (field("window_size"), field("2")),
            (field("start_date"), field("2024-01-03")),
            (field("end_date"), field("2024-01-04")),
        ]
    );
}

#[test]
fn a_window_of_nothing_and_a_window_too_wide_yield_no_group() {
    let data = closes(&[1000, 1100, 1200]);
    let none = AggregationRule::TimeWindow { window_size: 0, function: AggregationFunction::Count };
    let wide = AggregationRule::TimeWindow { window_size: 4, function: AggregationFunction::Count };
    let exact = AggregationRule::TimeWindow { window_size: 3, function: AggregationFunction::Count };
    let aggregator = DataAggregator::new();
    assert_eq!(aggregator.apply_rule(&data, &none).unwrap().aggregated_count, 0);
    assert_eq!(aggregator.apply_rule(&data, &wide).unwrap().aggregated_count, 0);
    assert_eq!(aggregator.apply_rule(&data, &exact).unwrap().aggregated_count, 1);
    assert_eq!(aggregator.apply_rule(&data, &none).unwrap().aggregation_id, "time_window_0");
}

#[test]
fn a_range_of_dates_takes_both_ends() {
    let data = closes(&[1000, 1100, 1200, 1300, 1400]);
    let rule = AggregationRule::DateRange {
        start_date: day("2024-01-02"),
        end_date: day("2024-01-04"),
        function: AggregationFunction::Sum { field: field("close") },
    };
    let result = DataAggregator::new().apply_rule_at(&data, &rule, 0).unwrap();
    assert_eq!(result.aggregation_id, "date_range_2024-01-02_2024-01-04");
    assert_eq!(result.rule_name, "DateRange");
    assert_eq!(result.aggregated_count, 1);
    assert_eq!(result.values[0].key, "2024-01-02_2024-01-04");
    assert_eq!(result.values[0].value, 3600);
    assert_eq!(result.values[0].count, Some(3));
    assert_eq!(
        result.values[0].metadata,
        vec![
            (field("start_date"), field("2024-01-02")),
            (field("end_date"), field("2024-01-04")),
            (field("record_count"), field("3")),
        ]
    );

    let outside = AggregationRule::DateRange {
        start_date: day("2025-01-01"),
        end_date: day("2025-12-31"),
        function: AggregationFunction::Sum { field: field("bogus") },
    };
    let result = DataAggregator::new().apply_rule_at(&data, &outside, 0).unwrap();
    assert_eq!(result.aggregated_count, 0);
    assert!(result.values.is_empty());
    assert_eq!(result.original_count, 5);
}

#[test]
fn a_custom_rule_reduces_all_records() {
    let data = closes(&[1000, 1100, 1200]);
    let rule = AggregationRule::Custom {
        name: field("overall"),
        rule: field("close > 10"),
        function: AggregationFunction::Max { field: field("close") },
    };
    let result = DataAggregator::new().apply_rule_at(&data, &rule, 9).unwrap();
    assert_eq!(result.aggregation_id, "custom_overall");
    assert_eq!(result.rule_name, "Custom");
    assert_eq!(result.aggregated_count, 1);
    assert_eq!(result.values[0].key, "overall");
    assert_eq!(result.values[0].value, 1200);
    assert_eq!(result.values[0].count, Some(3));
    assert_eq!(
        result.values[0].metadata,
        vec![(field("aggregation_type"), field("custom")), (field("record_count"), field("3"))]
    );

    let empty = DataAggregator::new().apply_rule_at(&Vec::new(), &rule, 9).unwrap();
    assert_eq!(empty.aggregated_count, 1);
    assert_eq!(empty.values[0].value, 0);
    assert_eq!(empty.values[0].count, Some(0));
}

#[test]
fn every_rule_sees_all_records() {
    let aggregator = DataAggregator::with_default_rules();
    assert_eq!(aggregator.rules.len(), 3);
    let data: Vec<TDXDayRecord> = (1..=12).map(|d| priced("600000", &format!("2024-01-{:02}", d), 1000 + d, d as u64)).collect();
    let results = aggregator.aggregate_at(&data, 1_700_000_000).unwrap();
    assert_eq!(results.len(), 3);
    assert_eq!(results[0].rule_name, "GroupBySymbol");
    assert_eq!(results[0].values[0].value, 1006);
    assert_eq!(results[1].aggregation_id, "time_window_5");
    assert_eq!(results[1].aggregated_count, 2);
    assert_eq!(results[1].values[0].value, 1003);
    assert_eq!(results[1].values[1].value, 1008);
    assert_eq!(results[2].aggregation_id, "time_window_20");
    assert_eq!(results[2].aggregated_count, 0);
    for result in &results {
        assert_eq!(result.original_count, 12);
        assert_eq!(result.timestamp, 1_700_000_000);
    }
}

#[test]
fn the_clock_stamps_the_outcomes() {
    let mut aggregator = DataAggregator::new();
    aggregator.add_rules(vec![
        AggregationRule::GroupBySymbol { function: AggregationFunction::Count },
        AggregationRule::GroupBySymbol { function: AggregationFunction::Count },
    ]);
    let results = aggregator.aggregate(&closes(&[1000])).unwrap();
    assert_eq!(results.len(), 2);
    assert!(results[0].timestamp > 1_600_000_000);
    assert_eq!(results[0].timestamp, results[1].timestamp);
}

#[test]
fn datasets_side_by_side_give_what_each_gives_alone() {
    let aggregator = DataAggregator::with_default_rules();
    let datasets: Vec<Vec<TDXDayRecord>> = (0..16u32)
        .map(|k| {
            (1..=20)
                .map(|d| priced(&format!("60000{}", k % 7), &format!("2024-01-{:02}", d), 1000 + k * d, (k + d) as u64))
                .collect()
        })
        .collect();
    let together = aggregator.aggregate_parallel_at(&datasets, 42).unwrap();
    assert_eq!(together.len(), datasets.len());
    for (data, results) in datasets.iter().zip(together.iter()) {
        let alone: Vec<AggregationResult> = aggregator.aggregate_at(data, 42).unwrap();
        assert_eq!(&alone, results);
    }
    let mut backwards = datasets;
    backwards.reverse();
    let reversed = aggregator.aggregate_parallel_at(&backwards, 42).unwrap();
    for (a, b) in together.iter().zip(reversed.iter().rev()) {
        assert_eq!(a, b);
    }
}

#[test]
fn datasets_side_by_side_fail_where_one_fails() {
    let mut aggregator = DataAggregator::new();
    aggregator.add_rule(AggregationRule::GroupBySymbol { function: AggregationFunction::Sum { field: field("bogus") } });
    let datasets = vec![Vec::new(), closes(&[1000]), Vec::new()];
    assert_eq!(aggregator.aggregate_parallel_at(&datasets, 1), Err(DataError::UnknownField));
    let empty = vec![Vec::new(), Vec::new()];
    assert_eq!(aggregator.aggregate_parallel_at(&empty, 1).unwrap().len(), 2);
    assert_eq!(aggregator.aggregate_parallel_at(&Vec::new(), 1).unwrap().len(), 0);
}

#[test]
fn a_stream_is_reduced_batch_by_batch() {
    let data = closes(&[1000, 1100, 1200, 1300, 1400]);
    let rule = AggregationRule::Custom {
        name: field("batch"),
        rule: field(""),
        function: AggregationFunction::Sum { field: field("close") },
    };
    let aggregator = DataAggregator::new();
    let sums = |size: usize| -> Vec<u128> {
        aggregator.aggregate_stream(&data, size, &rule, 3).unwrap().iter().map(|r| r.values[0].value).collect()
    };
    assert_eq!(sums(2), vec![2100, 2500, 1400]);
    assert_eq!(sums(5), vec![6000]);
    assert_eq!(sums(6), vec![6000]);
    assert_eq!(sums(1), vec![1000, 1100, 1200, 1300, 1400]);
    assert_eq!(sums(0), vec![1000, 1100, 1200, 1300, 1400]);
    assert_eq!(sums(4), vec![4600, 1400]);
    assert!(aggregator.aggregate_stream(&Vec::new(), 2, &rule, 3).unwrap().is_empty());

    let failing = AggregationRule::GroupBySymbol { function: AggregationFunction::Sum { field: field("bogus") } };
    assert_eq!(aggregator.aggregate_stream(&data, 2, &failing, 3), Err(DataError::UnknownField));
}

#[test]
fn totals_are_taken_over_the_outcomes() {
    let aggregator = DataAggregator::with_default_rules();
    let data: Vec<TDXDayRecord> = (1..=12).map(|d| priced("600000", &format!("2024-01-{:02}", d), 1000 + d, 1)).collect();
    let results = aggregator.aggregate_at(&data, 1).unwrap();
    let stats = aggregator.get_aggregation_stats_at(&results, 99);
    assert_eq!(stats.total_rules_applied, 3);
    assert_eq!(stats.total_original_records, 36);
    assert_eq!(stats.total_aggregated_records, 3);
    assert_eq!(stats.compression_ratio, 83_333);
    assert_eq!(stats.processing_time, 99);

    let none = aggregator.get_aggregation_stats_at(&Vec::new(), 7);
    assert_eq!(none.total_rules_applied, 0);
    assert_eq!(none.compression_ratio, 1_000_000);
}

#[test]
fn totals_are_stamped_by_the_clock() {
    let aggregator = DataAggregator::default();
    assert_eq!(aggregator.rules, DataAggregator::with_default_rules().rules);
    let results = aggregator.aggregate(&closes(&[1000, 1100, 1200, 1300, 1400])).unwrap();
    let stats = aggregator.get_aggregation_stats(&results);
    assert_eq!(stats.total_rules_applied, 3);
    assert_eq!(stats.total_original_records, 15);
    assert_eq!(stats.total_aggregated_records, 2);
    assert_eq!(stats.compression_ratio, 133_333);
    assert!(stats.processing_time >= results[0].timestamp);
}
