use pulse_trader_rust::processors::cleaner::CleaningStatistics;
use pulse_trader_rust::calendar::TradingDate;
use pulse_trader_rust::error::DataError;
use pulse_trader_rust::parsers::TDXDayRecord;
use pulse_trader_rust::processors::cleaner::{FillMethod, OutlierMethod};
use pulse_trader_rust::processors::fields::Field;
use pulse_trader_rust::processors::{CleaningRule, DataCleaner};

fn day(text: &str) -> TradingDate {
    let year: i32 = text[0..4].parse().unwrap();
    let month: u32 = text[5..7].parse().unwrap();
    let day: u32 = text[8..10].parse().unwrap();
    TradingDate::from_ymd_opt(year, month, day).unwrap()
}

fn create_test_record(symbol: &str, date: &str) -> TDXDayRecord {
    TDXDayRecord {
        date: day(date),
        symbol: symbol.to_string(),
        open: 1000,
        high: 1100,
        low: 900,
        close: 1050,
        volume: 1000000,
        amount: 1_050_000_000,
        market: "SH".to_string(),
    }
}

fn closes(values: &[u32]) -> Vec<TDXDayRecord> {
    values
        .iter()
        .enumerate()
        .map(|(i, close)| TDXDayRecord { close: *close, ..create_test_record("600000", &format!("2024-01-{:02}", i + 1)) })
        .collect()
}

fn cleaner_with(rule: CleaningRule) -> DataCleaner {
    let mut cleaner = DataCleaner::new();
    cleaner.add_rule(rule);
    cleaner
}

fn close_values(records: &[TDXDayRecord]) -> Vec<u32> {
    records.iter().map(|r| r.close).collect()
}

#[test]
fn test_data_cleaner_creation() {
    let cleaner = DataCleaner::new();
    assert!(cleaner.rules.is_empty());
}

#[test]
fn cleaner_test_add_rules() {
    let mut cleaner = DataCleaner::new();
    cleaner.add_rule(CleaningRule::ValidatePriceConsistency);
    assert_eq!(cleaner.rules.len(), 1);
}

#[test]
fn test_price_consistency_validation() {
    let mut cleaner = DataCleaner::new();
    cleaner.add_rule(CleaningRule::ValidatePriceConsistency);

    let mut data = vec![
        create_test_record("600000", "2024-01-01"),
        create_test_record("600000", "2024-01-02"),
    ];

    data[1].high = 800;
    data[1].low = 1200;

    let (result, records) = cleaner.clean(data).unwrap();

    assert_eq!(result.cleaned_count, 2);
    assert_eq!(result.statistics.price_inconsistencies, 1);
    assert_eq!(records[1].high, 1200);
    assert_eq!(records[1].low, 800);
    assert_eq!(records[0], create_test_record("600000", "2024-01-01"));
}

#[test]
fn test_remove_duplicates() {
    let mut cleaner = DataCleaner::new();
    cleaner.add_rule(CleaningRule::RemoveDuplicates { keys: vec!["symbol".to_string(), "date".to_string()] });

    let data = vec![
        create_test_record("600000", "2024-01-01"),
        create_test_record("600000", "2024-01-01"),
        create_test_record("600000", "2024-01-02"),
    ];

    let (result, _) = cleaner.clean(data).unwrap();

    assert_eq!(result.cleaned_count, 2);
    assert_eq!(result.statistics.duplicates_removed, 1);
}

#[test]
fn prices_are_put_in_order_once_and_for_all() {
    let cleaner = DataCleaner::new();
    let mut data = closes(&[1050, 1050, 1050, 1050, 1050]);
    data[0].high = 800;
    data[0].low = 1200;
    data[1].open = 1300;
    data[2].open = 700;
    data[3].close = 2000;
    data[4].close = 1;
    let (once, fixed) = cleaner.validate_price_consistency(data);
    assert_eq!(fixed, 5);
    assert_eq!((once[0].high, once[0].low, once[0].open, once[0].close), (1200, 800, 1000, 1050));
    assert_eq!(once[1].open, 1100);
    assert_eq!(once[2].open, 900);
    assert_eq!(once[3].close, 1100);
    assert_eq!(once[4].close, 900);
    for record in &once {
        assert!(record.low <= record.open && record.open <= record.high);
        assert!(record.low <= record.close && record.close <= record.high);
    }
    let (twice, fixed_again) = cleaner.validate_price_consistency(once.clone());
    assert_eq!(twice, once);
    assert_eq!(fixed_again, 0);
}

#[test]
fn a_high_below_the_low_is_exchanged_before_open_and_close_are_moved() {
    let cleaner = DataCleaner::new();
    let mut record = create_test_record("600000", "2024-01-01");
    record.high = 500;
    record.low = 700;
    record.open = 400;
    record.close = 900;
    let (fixed, count) = cleaner.validate_price_consistency(vec![record]);
    assert_eq!(count, 1);
    assert_eq!((fixed[0].open, fixed[0].high, fixed[0].low, fixed[0].close), (500, 700, 500, 700));
}

#[test]
fn the_first_record_of_each_instrument_and_day_is_kept() {
    let cleaner = DataCleaner::new();
    let mut data = vec![
        create_test_record("600000", "2024-01-01"),
        create_test_record("000001", "2024-01-01"),
        create_test_record("600000", "2024-01-01"),
        create_test_record("600000", "2024-01-02"),
        create_test_record("000001", "2024-01-01"),
        create_test_record("600000", "2024-01-01"),
    ];
    for (i, record) in data.iter_mut().enumerate() {
        record.volume = i as u64;
    }
    let (kept, dropped) = cleaner.remove_duplicates(data.clone(), &Vec::new());
    assert_eq!(dropped, 3);
    assert_eq!(kept.iter().map(|r| r.volume).collect::<Vec<u64>>(), vec![0, 1, 3]);
    for (i, a) in kept.iter().enumerate() {
        for b in &kept[i + 1..] {
            assert!(a.symbol != b.symbol || a.date != b.date);
        }
    }
    let (again, dropped_again) = cleaner.remove_duplicates(kept.clone(), &Vec::new());
    assert_eq!(again, kept);
    assert_eq!(dropped_again, 0);

    let other_key = vec!["market".to_string()];
    let (all, none) = cleaner.remove_duplicates(data.clone(), &other_key);
    assert_eq!(all, data);
    assert_eq!(none, 0);
}

#[test]
fn outliers_beyond_the_quartile_fences_are_dropped() {
    let data = closes(&[1000, 1100, 10000, 1200, 1300]);
    let cleaner = DataCleaner::new();
    let values: Vec<u64> = data.iter().map(|r| r.close as u64).collect();
    let method = OutlierMethod::IQR { multiplier: 1500 };
    let (found, fence) = cleaner.detect_outliers(&values, &method, 0);
    assert_eq!(found, vec![2]);
    assert_eq!(fence, Some((800_000, 1_600_000)));

    let (kept, dropped) = cleaner.remove_outliers(data.clone(), "close", method, 0).unwrap();
    assert_eq!(dropped, 1);
    assert_eq!(close_values(&kept), vec![1000, 1100, 1200, 1300]);

    let rule = CleaningRule::RemoveOutliers { field: "close".to_string(), method, threshold: 3000 };
    let (report, records) = cleaner_with(rule).clean(data).unwrap();
    assert_eq!(report.statistics.outliers_removed, 1);
    assert_eq!(report.applied_rules, vec!["RemoveOutliers(close)".to_string()]);
    assert_eq!(report.removed_count, 1);
    assert_eq!(records.len(), 4);
}

#[test]
fn outliers_beyond_the_deviation_fences_are_dropped() {
    let cleaner = DataCleaner::new();
    let mut values = vec![1000u64; 9];
    values.push(2000);
    let method = OutlierMethod::ZScore { threshold: 2000 };
    let (found, fence) = cleaner.detect_outliers(&values, &method, 0);
    assert_eq!(fence, Some((500_000, 1_700_000)));
    assert_eq!(found, vec![9]);

    let wide = OutlierMethod::ZScore { threshold: 3000 };
    let (found, fence) = cleaner.detect_outliers(&values, &wide, 0);
    assert_eq!(fence, Some((200_000, 2_000_000)));
    assert!(found.is_empty());

    let flat = vec![1000u64; 5];
    assert_eq!(cleaner.detect_outliers(&flat, &method, 0), (Vec::new(), None));
    assert_eq!(cleaner.detect_outliers(&Vec::new(), &method, 0), (Vec::new(), None));
}

#[test]
fn outliers_beyond_the_median_fences_are_dropped() {
    let cleaner = DataCleaner::new();
    let values = vec![1000u64, 1000, 5000, 1000, 1000];
    let method = OutlierMethod::MedianDeviation { threshold: 3000 };
    let (found, fence) = cleaner.detect_outliers(&values, &method, 0);
    assert_eq!(fence, Some((-1_400_000, 3_400_000)));
    assert_eq!(found, vec![2]);

    let even = vec![1000u64, 3000, 2000, 4000];
    let (_, fence) = cleaner.detect_outliers(&even, &OutlierMethod::MedianDeviation { threshold: 1000 }, 0);
    assert_eq!(fence, Some((2_000_000, 4_000_000)));
    assert_eq!(cleaner.detect_outliers(&Vec::new(), &method, 0), (Vec::new(), None));
    assert_eq!(cleaner.detect_outliers(&Vec::new(), &OutlierMethod::IQR { multiplier: 1 }, 0), (Vec::new(), None));
}

#[test]
fn values_out_of_range_are_dropped() {
    let data = closes(&[1, 500, 1000, 1_000_000, 1_000_001]);
    let cleaner = DataCleaner::new();
    let (kept, dropped) = cleaner.validate_range(data.clone(), "close", Some(500), Some(1_000_000)).unwrap();
    assert_eq!(close_values(&kept), vec![500, 1000, 1_000_000]);
    assert_eq!(dropped, 2);
    let (kept, dropped) = cleaner.validate_range(data.clone(), "close", None, Some(999)).unwrap();
    assert_eq!(close_values(&kept), vec![1, 500]);
    assert_eq!(dropped, 3);
    let (kept, dropped) = cleaner.validate_range(data.clone(), "close", Some(501), None).unwrap();
    assert_eq!(close_values(&kept), vec![1000, 1_000_000, 1_000_001]);
    assert_eq!(dropped, 2);
    let (kept, dropped) = cleaner.validate_range(data.clone(), "close", None, None).unwrap();
    assert_eq!(kept, data);
    assert_eq!(dropped, 0);
}

#[test]
fn days_off_the_calendar_are_dropped() {
    let data = closes(&[1000, 1100, 1200]);
    let mut cleaner = cleaner_with(CleaningRule::RemoveNonTradingDays);
    cleaner.set_trading_days(vec![day("2024-01-03"), day("2024-01-01"), day("2024-02-01")]);
    let (report, records) = cleaner.clean(data.clone()).unwrap();
    assert_eq!(close_values(&records), vec![1000, 1200]);
    assert_eq!(report.removed_count, 1);
    assert!(!report.calendar_missing);
    assert_eq!(report.applied_rules, vec!["RemoveNonTradingDays".to_string()]);

    let (kept, dropped) = cleaner.remove_non_trading_days(data);
    assert_eq!(kept.len(), 2);
    assert_eq!(dropped, 1);
}

#[test]
fn an_empty_calendar_drops_nothing_and_is_reported() {
    let data = closes(&[1000, 1100, 1200]);
    let cleaner = cleaner_with(CleaningRule::RemoveNonTradingDays);
    let (report, records) = cleaner.clean(data.clone()).unwrap();
    assert_eq!(records, data);
    assert_eq!(report.removed_count, 0);
    assert!(report.calendar_missing);

    let (report, _) = cleaner_with(CleaningRule::ValidatePriceConsistency).clean(data).unwrap();
    assert!(!report.calendar_missing);
}

#[test]
fn a_missing_price_is_carried_forward_day_after_day() {
    let mut data = vec![
        create_test_record("A", "2024-01-03"),
        create_test_record("B", "2024-01-01"),
        create_test_record("A", "2024-01-01"),
        create_test_record("A", "2024-01-02"),
        create_test_record("A", "2024-01-04"),
    ];
    data[0].open = 0;
    data[1].open = 7777;
    data[2].open = 1111;
    data[3].open = 0;
    data[4].open = 4444;
    let (filled, count) = DataCleaner::new().fill_price_values(data, Field::Open, FillMethod::ForwardFill);
    assert_eq!(count, 2);
    assert_eq!(filled.iter().map(|r| r.open).collect::<Vec<u32>>(), vec![1111, 7777, 1111, 1111, 4444]);
}

#[test]
fn a_missing_price_without_an_earlier_one_becomes_zero() {
    let mut data = closes(&[1050, 1050, 1050]);
    data[0].close = 0;
    data[1].close = 0;
    let (filled, count) = DataCleaner::new().fill_price_values(data, Field::Close, FillMethod::ForwardFill);
    assert_eq!(count, 2);
    assert_eq!(close_values(&filled), vec![0, 0, 1050]);
}

#[test]
fn a_price_is_judged_by_itself() {
    let mut data = closes(&[1050, 1060, 1070]);
    data[0].open = 1111;
    data[1].open = 2222;
    data[1].high = 0;
    data[2].open = 0;
    let (filled, count) = DataCleaner::new().fill_price_values(data, Field::Open, FillMethod::ForwardFill);
    assert_eq!(count, 1);
    assert_eq!(filled[1].open, 2222);
    assert_eq!(filled[1].high, 0);
    assert_eq!(filled[2].open, 2222);
}

#[test]
fn a_price_that_was_filled_counts_for_the_days_that_follow() {
    let mut data = closes(&[1050, 0, 0, 1080]);
    data[0].close = 1050;
    let (filled, count) = DataCleaner::new().fill_price_values(data, Field::Close, FillMethod::ForwardFill);
    assert_eq!(count, 2);
    assert_eq!(close_values(&filled), vec![1050, 1050, 1050, 1080]);
}

#[test]
fn a_missing_price_is_replaced_by_the_mean_of_its_instrument() {
    let mut data = vec![
        create_test_record("A", "2024-01-01"),
        create_test_record("A", "2024-01-02"),
        create_test_record("B", "2024-01-02"),
        create_test_record("A", "2024-01-03"),
        create_test_record("A", "2024-01-04"),
    ];
    data[0].low = 800;
    data[1].low = 0;
    data[2].low = 5;
    data[3].low = 901;
    data[4].low = 0;
    let (filled, count) = DataCleaner::new().fill_price_values(data, Field::Low, FillMethod::Mean);
    assert_eq!(count, 2);
    assert_eq!(filled[1].low, 850);
    assert_eq!(filled[4].low, 850);
    assert_eq!(filled[2].low, 5);
}

#[test]
fn other_methods_fill_with_zero() {
    for method in [FillMethod::BackwardFill, FillMethod::Median, FillMethod::Zero] {
        let mut data = closes(&[1050, 0]);
        data[1].open = 1234;
        let rule = CleaningRule::FillMissing { field: "close".to_string(), method };
        let (report, records) = cleaner_with(rule).clean(data).unwrap();
        assert_eq!(records[1].close, 0);
        assert_eq!(records[0].close, 1050);
        assert_eq!(report.statistics.missing_values_filled, 1);
        assert_eq!(report.applied_rules, vec!["FillMissing(close)".to_string()]);
    }
}

#[test]
fn dropping_lets_the_records_pass() {
    let mut data = closes(&[1050, 1060]);
    data[1].open = 0;
    let rule = CleaningRule::FillMissing { field: "open".to_string(), method: FillMethod::Drop };
    let (report, records) = cleaner_with(rule).clean(data.clone()).unwrap();
    assert_eq!(records, data);
    assert_eq!(report.statistics.missing_values_filled, 0);
    assert_eq!(report.cleaned_count, 2);
    assert_eq!(report.applied_rules, vec!["FillMissing(open)".to_string()]);
    let unknown = CleaningRule::FillMissing { field: "price".to_string(), method: FillMethod::Drop };
    assert_eq!(cleaner_with(unknown).clean(data), Err(DataError::UnknownField));
}

#[test]
fn volume_and_amount_are_carried_forward_together() {
    let mut data = closes(&[1050, 1050, 1050, 1050, 1050]);
    let volumes = [0u64, 500, 0, 0, 700];
    let amounts = [10u64, 0, 0, 30, 0];
    for (i, record) in data.iter_mut().enumerate() {
        record.volume = volumes[i];
        record.amount = amounts[i];
    }
    for (name, method) in [("volume", FillMethod::Zero), ("amount", FillMethod::Drop)] {
        let (filled, count) = DataCleaner::new().fill_missing_values(data.clone(), name, method).unwrap();
        assert_eq!(filled.iter().map(|r| r.volume).collect::<Vec<u64>>(), vec![0, 500, 500, 500, 700]);
        assert_eq!(filled.iter().map(|r| r.amount).collect::<Vec<u64>>(), vec![10, 10, 10, 30, 30]);
        assert_eq!(count, 4);
    }
}

#[test]
fn a_rule_with_an_unknown_field_fails_where_there_are_records() {
    let rules = || {
        vec![
            CleaningRule::RemoveOutliers { field: "price".to_string(), method: OutlierMethod::IQR { multiplier: 1500 }, threshold: 0 },
            CleaningRule::FillMissing { field: "price".to_string(), method: FillMethod::ForwardFill },
            CleaningRule::ValidateRange { field: "price".to_string(), min: None, max: None },
        ]
    };
    for rule in rules() {
        assert_eq!(cleaner_with(rule).clean(closes(&[1000])), Err(DataError::UnknownField));
    }
    for rule in rules() {
        let (report, records) = cleaner_with(rule).clean(Vec::new()).unwrap();
        assert!(records.is_empty());
        assert_eq!(report.original_count, 0);
        assert_eq!(report.applied_rules.len(), 1);
    }
    let cleaner = DataCleaner::new();
    assert_eq!(cleaner.extract_field_value(&create_test_record("A", "2024-01-01"), "amount"), Ok(1_050_000_000));
    assert_eq!(cleaner.extract_field_value(&create_test_record("A", "2024-01-01"), "date"), Err(DataError::UnknownField));
}

#[test]
fn each_rule_works_on_what_the_rules_before_left() {
    let mut cleaner = DataCleaner::new();
    cleaner.add_rules(vec![
        CleaningRule::ValidateRange { field: "close".to_string(), min: Some(1000), max: None },
        CleaningRule::ValidateRange { field: "price".to_string(), min: None, max: None },
    ]);
    assert_eq!(cleaner.clean(closes(&[999, 1000])), Err(DataError::UnknownField));
    let (report, records) = cleaner.clean(closes(&[998, 999])).unwrap();
    assert!(records.is_empty());
    assert_eq!(report.statistics.range_violations, 2);
    assert_eq!(report.applied_rules, vec!["ValidateRange(close)".to_string(), "ValidateRange(price)".to_string()]);
}

#[test]
fn the_usual_rules_repair_then_drop() {
    let cleaner = DataCleaner::with_default_rules();
    assert_eq!(cleaner.rules.len(), 4);
    let mut data = vec![
        create_test_record("600000", "2024-01-01"),
        create_test_record("600000", "2024-01-01"),
        create_test_record("600000", "2024-01-02"),
        create_test_record("600000", "2024-01-03"),
        create_test_record("600000", "2024-01-04"),
    ];
    data[2].high = 900;
    data[2].low = 1100;
    data[3].open = 0;
    data[3].low = 0;
    data[4].close = 2_000_000;
    data[4].high = 2_000_000;
    let (report, records) = cleaner.clean(data).unwrap();
    assert_eq!(report.original_count, 5);
    assert_eq!(report.cleaned_count, 2);
    assert_eq!(report.removed_count, 3);
    assert_eq!(records.len(), 2);
    assert_eq!(report.statistics.price_inconsistencies, 1);
    assert_eq!(report.statistics.duplicates_removed, 1);
    assert_eq!(report.statistics.range_violations, 2);
    assert_eq!(report.statistics.outliers_removed, 0);
    assert_eq!(report.statistics.missing_values_filled, 0);
    assert_eq!(
        report.applied_rules,
        vec![
            "ValidatePriceConsistency".to_string(),
            "RemoveDuplicates".to_string(),
            "ValidateRange(open)".to_string(),
            "ValidateRange(close)".to_string(),
        ]
    );
    assert_eq!(records[1].high, 1100);
    assert_eq!(records[1].low, 900);
}

#[test]
fn a_cleaner_without_rules_returns_what_it_was_given() {
    let data = closes(&[1000, 1100]);
    let (report, records) = DataCleaner::new().clean(data.clone()).unwrap();
    assert_eq!(records, data);
    assert_eq!(report.original_count, 2);
    assert_eq!(report.cleaned_count, 2);
    assert_eq!(report.removed_count, 0);
    assert!(report.applied_rules.is_empty());
    let cleaner = DataCleaner::new();
    let record = create_test_record("A", "2024-01-01");
    assert!(!cleaner.needs_filling(&record, Field::Open));
    let mut changed = record.clone();
    cleaner.set_field_value(&mut changed, Field::Volume, 0);
    cleaner.set_field_value(&mut changed, Field::High, 1234);
    assert!(cleaner.needs_filling(&changed, Field::Volume));
    assert_eq!(changed.high, 1234);
    assert_eq!(changed.low, record.low);
}

#[test]
fn a_cleaner_by_default_has_the_usual_rules() {
    let cleaner = DataCleaner::default();
    assert_eq!(cleaner.rules, DataCleaner::with_default_rules().rules);
    assert!(cleaner.trading_days.is_empty());
    assert_eq!(cleaner.rules[0], CleaningRule::ValidatePriceConsistency);
    assert_eq!(
        cleaner.rules[2],
        CleaningRule::ValidateRange { field: "open".to_string(), min: Some(1), max: Some(1_000_000) }
    );
    let none = CleaningStatistics::default();
    assert_eq!(none.outliers_removed + none.missing_values_filled + none.duplicates_removed, 0);
    assert_eq!(none.price_inconsistencies + none.range_violations, 0);
}

#[test]
fn many_records_are_cleaned_in_little_time() {
    let mut data = Vec::new();
    for i in 0..3000u32 {
        let mut record = create_test_record("600000", "2024-01-01");
        record.date = TradingDate::from_ymd_opt(2000 + (i / 336) as i32, 1 + (i / 28) % 12, 1 + i % 28).unwrap();
        record.close = 1000 + i % 100;
        data.push(record);
    }
    let mut cleaner = DataCleaner::with_default_rules();
    cleaner.add_rule(CleaningRule::FillMissing { field: "close".to_string(), method: FillMethod::ForwardFill });
    cleaner.add_rule(CleaningRule::RemoveOutliers {
        field: "close".to_string(),
        method: OutlierMethod::ZScore { threshold: 3000 },
        threshold: 0,
    });
    let (report, records) = cleaner.clean(data).unwrap();
    assert_eq!(report.original_count, 3000);
    assert_eq!(records.len(), 3000);
}
