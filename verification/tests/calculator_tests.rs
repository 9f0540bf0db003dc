use pulse_trader_rust::processors::calculator::{fits_window, IndicatorValues};
use pulse_trader_rust::calendar::TradingDate;
use pulse_trader_rust::parsers::TDXDayRecord;
use pulse_trader_rust::processors::calculator::{BollingerBands, MACD};
use pulse_trader_rust::processors::IndicatorCalculator;

fn create_test_data() -> Vec<TDXDayRecord> {
    vec![
        TDXDayRecord {
            date: TradingDate::from_ymd_opt(2024, 1, 1).unwrap(),
            symbol: "600000".to_string(),
            open: 1000,
            high: 1100,
            low: 900,
            close: 1050,
            volume: 1000000,
            amount: 1_050_000_000,
            market: "SH".to_string(),
        },
        TDXDayRecord {
            date: TradingDate::from_ymd_opt(2024, 1, 2).unwrap(),
            symbol: "600000".to_string(),
            open: 1050,
            high: 1200,
            low: 1000,
            close: 1150,
            volume: 1200000,
            amount: 1_380_000_000,
            market: "SH".to_string(),
        },
    ]
}

fn series(symbol: &str, closes: &[u32]) -> Vec<TDXDayRecord> {
    closes
        .iter()
        .enumerate()
        .map(|(i, close)| TDXDayRecord {
            date: TradingDate::from_ymd_opt(2024, 1 + (i as u32) / 28, 1 + (i as u32) % 28).unwrap(),
            symbol: symbol.to_string(),
            open: *close,
            high: *close + 10,
            low: close.saturating_sub(10),
            close: *close,
            volume: 100 * (i as u64 + 1),
            amount: 0,
            market: "SH".to_string(),
        })
        .collect()
}

fn ema(values: &[i64], period: i128) -> i64 {
    let mut average = values[0] as i128;
    for value in &values[1..] {
        average = (2 * (*value as i128) + (period - 1) * average).div_euclid(period + 1);
    }
    average as i64
}

#[test]
fn test_indicator_calculator_creation() {
    let calculator = IndicatorCalculator::new();
    assert_eq!(calculator.window_sizes, vec![5, 10, 20, 60]);
}

#[test]
fn test_ma_calculation() {
    let calculator = IndicatorCalculator::new();
    let prices: Vec<u64> = vec![10_000_000, 11_000_000, 12_000_000, 13_000_000, 14_000_000, 15_000_000];
    let ma = calculator.calculate_ma(&prices[1..6]);
    assert_eq!(ma, 13_000_000);
    assert_eq!(ma as f64 / 1e6, 13.0);
}

#[test]
fn test_rsi_calculation() {
    let calculator = IndicatorCalculator::new();
    let closes: Vec<u64> = [10u64, 11, 9, 12, 8, 13, 7, 14, 6, 15].iter().map(|c| c * 1_000_000).collect();
    let rsi = calculator.calculate_rsi(&closes);
    assert!(rsi > 0 && rsi <= 100_000_000);
    assert_eq!(rsi, 55_555_555);
}

#[test]
fn test_calculate_all_indicators() {
    let calculator = IndicatorCalculator::new();
    let data = create_test_data();

    let result = calculator.calculate_all_indicators(&data).unwrap();

    assert_eq!(result.len(), 2);

    for enhanced_record in result {
        assert_eq!(enhanced_record.symbol(), "600000");
    }
}

#[test]
fn test_parallel_calculation() {
    let calculator = IndicatorCalculator::new();

    let mut data = create_test_data();

    let mut record2 = create_test_data()[0].clone();
    record2.symbol = "000001".to_string();
    record2.market = "SZ".to_string();
    data.push(record2);

    let result = calculator.calculate_parallel(&data).unwrap();

    assert_eq!(result.len(), 3);
}

#[test]
fn an_empty_window_has_the_mean_zero() {
    let calculator = IndicatorCalculator::new();
    assert_eq!(calculator.calculate_ma(&[]), 0);
    assert_eq!(calculator.calculate_ma(&[7]), 7);
    assert_eq!(calculator.calculate_ma(&[1, 2]), 1);
    assert_eq!(calculator.calculate_ma(&[u64::MAX, u64::MAX, u64::MAX]), u64::MAX);
}

#[test]
fn relative_strength_at_its_ends() {
    let calculator = IndicatorCalculator::new();
    assert_eq!(calculator.calculate_rsi(&[]), 50_000_000);
    assert_eq!(calculator.calculate_rsi(&[1_000_000]), 50_000_000);
    assert_eq!(calculator.calculate_rsi(&[1, 2, 3, 4]), 100_000_000);
    assert_eq!(calculator.calculate_rsi(&[5, 5, 5]), 100_000_000);
    assert_eq!(calculator.calculate_rsi(&[4, 3, 2, 1]), 0);
    assert_eq!(calculator.calculate_rsi(&[10, 20, 10]), 50_000_000);
    assert_eq!(calculator.calculate_rsi(&[10, 11, 8]), 25_000_000);
}

#[test]
fn the_exponential_average_follows_its_recurrence() {
    let calculator = IndicatorCalculator::new();
    assert_eq!(calculator.calculate_ema(&[], 12), 0);
    assert_eq!(calculator.calculate_ema(&[700], 12), 700);
    assert_eq!(calculator.calculate_ema(&[100, 200], 1), 200);
    assert_eq!(calculator.calculate_ema(&[100, 200], 3), 150);
    assert_eq!(calculator.calculate_ema(&[100, 200, 400], 3), 275);
    assert_eq!(calculator.calculate_ema(&[10, 20], 12), 11);
    assert_eq!(calculator.calculate_ema(&[-10, -20], 12), -12);
    assert_eq!(calculator.calculate_ema(&[i64::MAX, i64::MAX, i64::MIN], 9), ema(&[i64::MAX, i64::MAX, i64::MIN], 9));
    let values: Vec<i64> = (0..40).map(|i| (i * i * 37 % 1000) as i64 - 300).collect();
    for period in [1u32, 2, 9, 12, 26, 1000] {
        assert_eq!(calculator.calculate_ema(&values, period), ema(&values, period as i128));
    }
}

#[test]
fn convergence_divergence_needs_twenty_six_values() {
    let calculator = IndicatorCalculator::new();
    let flat = vec![10_000_000u64; 25];
    assert_eq!(calculator.calculate_macd(&flat), None);
    let flat = vec![10_000_000u64; 26];
    assert_eq!(calculator.calculate_macd(&flat), Some(MACD { dif: 0, signal: 0, histogram: 0 }));

    let rising: Vec<u64> = (0..26).map(|i| 10_000_000 + 100_000 * i).collect();
    let signed: Vec<i64> = rising.iter().map(|v| *v as i64).collect();
    let dif = ema(&signed, 12) - ema(&signed, 26);
    assert!(dif > 0);
    assert_eq!(calculator.calculate_macd(&rising), Some(MACD { dif, signal: 0, histogram: dif }));
}

#[test]
fn the_signal_is_there_from_nine_differences_on() {
    let calculator = IndicatorCalculator::new();
    let closes: Vec<u64> = (0..40u64).map(|i| 10_000_000 + 50_000 * ((i * 7) % 11)).collect();
    let signed: Vec<i64> = closes.iter().map(|v| *v as i64).collect();
    for length in [33usize, 34, 40] {
        let window = &signed[..length];
        let dif = ema(window, 12) - ema(window, 26);
        let difs: Vec<i64> = (0..=length - 26).map(|s| ema(&window[s..], 12) - ema(&window[s..], 26)).collect();
        let signal = if difs.len() >= 9 { ema(&difs, 9) } else { 0 };
        assert_eq!(difs.len() >= 9, length >= 34);
        assert_eq!(
            calculator.calculate_macd(&closes[..length]),
            Some(MACD { dif, signal, histogram: dif - signal })
        );
    }
}

#[test]
fn bands_lie_two_deviations_around_the_mean() {
    let calculator = IndicatorCalculator::new();
    let closes: Vec<u64> = (0..20).map(|i| if i % 2 == 0 { 10_000_000 } else { 12_000_000 }).collect();
    assert_eq!(
        calculator.calculate_bollinger_bands(&closes),
        Some(BollingerBands { upper: 13_000_000, middle: 11_000_000, lower: 9_000_000, width: 4_000_000 })
    );
    assert_eq!(calculator.calculate_bollinger_bands(&closes[..19]), None);
    let flat = vec![5_000_000u64; 20];
    assert_eq!(
        calculator.calculate_bollinger_bands(&flat),
        Some(BollingerBands { upper: 5_000_000, middle: 5_000_000, lower: 5_000_000, width: 0 })
    );
    let mut spike = vec![0u64; 19];
    spike.push(42_949_672_950_000);
    let bands = calculator.calculate_bollinger_bands(&spike).unwrap();
    assert!(bands.lower < 0);
    assert_eq!(bands.upper - bands.middle, bands.middle - bands.lower);
    assert_eq!(bands.width, bands.upper - bands.lower);
}

#[test]
fn change_and_amplitude_are_taken_against_the_close_before() {
    let calculator = IndicatorCalculator::new();
    let indicators = calculator.calculate_symbol_indicators(&create_test_data());
    assert_eq!(indicators.len(), 2);
    assert_eq!(indicators[0].change_percent, None);
    assert_eq!(indicators[0].amplitude, None);
    assert_eq!(indicators[1].change_percent, Some(9_523_809));
    assert_eq!(indicators[1].amplitude, Some(19_047_619));

    let mut falling = create_test_data();
    falling.swap(0, 1);
    let indicators = calculator.calculate_symbol_indicators(&falling);
    assert_eq!(indicators[1].change_percent, Some(-8_695_653));
    assert_eq!(indicators[1].amplitude, Some(17_391_304));

    let mut from_nothing = create_test_data();
    from_nothing[0].close = 0;
    let indicators = calculator.calculate_symbol_indicators(&from_nothing);
    assert_eq!(indicators[1].change_percent, None);
    assert_eq!(indicators[1].amplitude, None);
}

#[test]
fn an_average_of_five_days_is_there_from_the_fifth_day_on() {
    let calculator = IndicatorCalculator::new();
    let data = series("600000", &[1000, 1010, 1020, 1030, 1041]);
    let indicators = calculator.calculate_symbol_indicators(&data);
    assert_eq!(indicators.len(), 5);
    for day in 0..4 {
        assert_eq!(indicators[day].ma5, None);
        assert_eq!(indicators[day].volume_ma5, None);
    }
    assert_eq!(indicators[4].ma5, Some(10_202_000));
    assert_eq!(indicators[4].volume_ma5, Some(300));
    assert_eq!(indicators[4].ma10, None);
    assert_eq!(indicators[4].rsi, None);
    assert_eq!(indicators[4].macd, None);
    assert_eq!(indicators[4].bollinger, None);
    assert!(indicators[4].indicators.is_empty());
}

#[test]
fn each_indicator_is_there_from_its_first_day_on() {
    let calculator = IndicatorCalculator::new();
    let closes: Vec<u32> = (0..61).map(|i| 1000 + (i * 13) % 50).collect();
    let data = series("600000", &closes);
    let indicators = calculator.calculate_symbol_indicators(&data);
    for (day, values) in indicators.iter().enumerate() {
        assert_eq!(values.ma5.is_some(), day >= 4);
        assert_eq!(values.ma10.is_some(), day >= 9);
        assert_eq!(values.ma20.is_some(), day >= 19);
        assert_eq!(values.ma60.is_some(), day >= 59);
        assert_eq!(values.volume_ma5.is_some(), day >= 4);
        assert_eq!(values.change_percent.is_some(), day >= 1);
        assert_eq!(values.amplitude.is_some(), day >= 1);
        assert_eq!(values.rsi.is_some(), day >= 19);
        assert_eq!(values.bollinger.is_some(), day >= 19);
        assert_eq!(values.macd.is_some(), day >= 25);
    }
    let short = calculator.calculate_symbol_indicators(&data[..25].to_vec());
    assert!(short.iter().all(|values| values.macd.is_none()));
    let enough = calculator.calculate_symbol_indicators(&data[..26].to_vec());
    assert!(enough[..25].iter().all(|values| values.macd.is_none()));
    assert!(enough[25].macd.is_some());
    assert_eq!(enough[25].macd.unwrap().signal, 0);
    assert_eq!(enough[25].macd.unwrap().histogram, enough[25].macd.unwrap().dif);

    let micros: Vec<u64> = closes.iter().map(|c| *c as u64 * 10_000).collect();
    assert_eq!(indicators[30].ma10, Some(calculator.calculate_ma(&micros[21..31])));
    assert_eq!(indicators[30].rsi, Some(calculator.calculate_rsi(&micros[11..31])));
    assert_eq!(indicators[30].macd, calculator.calculate_macd(&micros[5..31]));
    assert_eq!(indicators[30].bollinger, calculator.calculate_bollinger_bands(&micros[11..31]));
    assert_eq!(indicators[60].ma60, Some(calculator.calculate_ma(&micros[1..61])));
}

#[test]
fn only_the_reported_window_sizes_are_averaged() {
    let calculator = IndicatorCalculator::new().with_window_sizes(vec![10, 0, 7]);
    let data = series("600000", &[1000; 12]);
    let indicators = calculator.calculate_symbol_indicators(&data);
    assert_eq!(indicators[11].ma5, None);
    assert_eq!(indicators[11].volume_ma5, None);
    assert_eq!(indicators[11].ma10, Some(10_000_000));
    assert_eq!(indicators[8].ma10, None);
    let none = IndicatorCalculator::new().with_window_sizes(Vec::new());
    assert!(none.calculate_symbol_indicators(&data).iter().all(|v| v.ma5.is_none() && v.ma10.is_none()));
}

#[test]
fn each_instrument_is_computed_from_its_own_history() {
    let calculator = IndicatorCalculator::new();
    let a = series("600000", &[1000, 1010, 1020, 1030, 1040, 1050]);
    let b = series("000001", &[2000, 1990, 1980, 1970, 1960, 1950]);
    let mut mixed = Vec::new();
    for i in (0..6).rev() {
        mixed.push(b[i].clone());
        mixed.push(a[i].clone());
    }
    let result = calculator.calculate_all_indicators(&mixed).unwrap();
    assert_eq!(result.len(), 12);
    let alone_b = calculator.enhance_series(&b);
    let alone_a = calculator.enhance_series(&a);
    assert_eq!(&result[..6], &alone_b[..]);
    assert_eq!(&result[6..], &alone_a[..]);
    assert_eq!(result[5].indicators.ma5, Some(19_700_000));
    assert_eq!(result[11].indicators.ma5, Some(10_300_000));
    assert_eq!(result[0].date(), TradingDate::from_ymd_opt(2024, 1, 1).unwrap());
    assert_eq!(result[0].market(), "SH");
    assert_eq!(result[0].open(), 2000);
    assert_eq!(result[0].high(), 2010);
    assert_eq!(result[0].low(), 1990);
    assert_eq!(result[0].close(), 2000);
    assert_eq!(result[0].volume(), 100);
    assert_eq!(result[0].amount(), 0);
}

#[test]
fn merged_records_come_day_after_day_and_instrument_after_instrument() {
    let calculator = IndicatorCalculator::new();
    let symbols = ["600000", "000001", "300001", "000002", "6", "60"];
    let mut data = Vec::new();
    for (k, symbol) in symbols.iter().enumerate() {
        let closes: Vec<u32> = (0..30).map(|i| 1000 + (i * (k as u32 + 3)) % 40).collect();
        let mut records = series(symbol, &closes);
        records.rotate_left(k * 4);
        data.extend(records);
    }
    let merged = calculator.calculate_parallel(&data).unwrap();
    assert_eq!(merged.len(), data.len());
    for pair in merged.windows(2) {
        let first = (pair[0].date().number(), pair[0].symbol());
        let second = (pair[1].date().number(), pair[1].symbol());
        assert!(first < second);
    }
    let mut expected = calculator.calculate_all_indicators(&data).unwrap();
    expected.sort_by(|a, b| (a.date().number(), a.symbol()).cmp(&(b.date().number(), b.symbol())));
    assert_eq!(merged, expected);

    let mut other_order = data.clone();
    other_order.reverse();
    let again = calculator.calculate_parallel(&other_order).unwrap();
    assert_eq!(again, merged);
    assert!(calculator.calculate_parallel(&Vec::new()).unwrap().is_empty());
}

#[test]
fn a_window_fits_where_its_prices_fit() {
    assert!(fits_window(&[]));
    assert!(fits_window(&[0, 42_949_672_950_000]));
    assert!(!fits_window(&[0, 42_949_672_950_001]));
    assert!(!fits_window(&[u64::MAX]));
    let none = IndicatorValues::default();
    assert_eq!(none.ma5, None);
    assert_eq!(none.macd, None);
    assert!(none.indicators.is_empty());
}
