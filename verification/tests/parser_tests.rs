use pulse_trader_rust::calendar::TradingDate;
use pulse_trader_rust::error::DataError;
use pulse_trader_rust::parsers::amount::amount_from_bits;
use pulse_trader_rust::parsers::tdx_day::{BinaryDayRecord, RECORD_SIZE};
use pulse_trader_rust::parsers::{TDXDayParser, TDXDayRecord};
use tempfile::TempDir;

fn raw_record(date: u32, open: u32, high: u32, low: u32, close: u32, amount: f32, volume: u32) -> Vec<u8> {
    let mut bytes = Vec::new();
    bytes.extend_from_slice(&date.to_le_bytes());
    bytes.extend_from_slice(&open.to_le_bytes());
    bytes.extend_from_slice(&high.to_le_bytes());
    bytes.extend_from_slice(&low.to_le_bytes());
    bytes.extend_from_slice(&close.to_le_bytes());
    bytes.extend_from_slice(&amount.to_bits().to_le_bytes());
    bytes.extend_from_slice(&volume.to_le_bytes());
    bytes.extend_from_slice(&0u32.to_le_bytes());
    bytes
}

fn three_days() -> Vec<u8> {
    let mut buffer = raw_record(20240101, 100000, 105000, 98000, 102000, 1_000_000.0, 5000);
    buffer.extend(raw_record(20240102, 102000, 106000, 101000, 104000, 2_000_000.0, 6000));
    buffer.extend(raw_record(20240103, 104000, 104500, 99000, 100000, 3_000_000.0, 7000));
    buffer
}

#[test]
fn test_tdx_parser_creation() {
    let temp_dir = TempDir::new().unwrap();
    let root = temp_dir.path().to_str().unwrap();
    let parser = TDXDayParser::new(root);

    assert_eq!(parser.data_root, root);
}

#[test]
fn test_parser_creation() {
    let temp_dir = TempDir::new().unwrap();
    let root = temp_dir.path().to_str().unwrap();
    let parser = TDXDayParser::new(root);

    assert_eq!(parser.data_root, root);
}

#[test]
fn tdx_day_test_symbol_extraction() {
    let temp_dir = TempDir::new().unwrap();
    let parser = TDXDayParser::new(temp_dir.path().to_str().unwrap());

    let sh_path = temp_dir.path().join("vipdoc").join("sh").join("day").join("600000.day");
    let (symbol, market) = parser.extract_symbol_market(sh_path.to_str().unwrap()).unwrap();

    assert_eq!(symbol, "600000");
    assert_eq!(market, "SH");
}

#[test]
fn tdx_parser_tests_test_symbol_extraction() {
    let temp_dir = TempDir::new().unwrap();
    let parser = TDXDayParser::new(temp_dir.path().to_str().unwrap());

    let sh_dir = temp_dir.path().join("vipdoc").join("sh").join("day");
    let test_file = sh_dir.join("600000.day");

    let (symbol, market) = parser.extract_symbol_market(test_file.to_str().unwrap()).unwrap();

    assert_eq!(symbol, "600000");
    assert_eq!(market, "SH");
}

#[test]
fn test_binary_record_size() {
    assert_eq!(RECORD_SIZE, 32);
    assert_eq!(std::mem::size_of::<BinaryDayRecord>(), 32);
}

#[test]
fn symbol_extraction_reads_both_markets_in_any_case() {
    let parser = TDXDayParser::new("/data");
    assert_eq!(
        parser.extract_symbol_market("/data/vipdoc/sz/day/000001.day").unwrap(),
        ("000001".to_string(), "SZ".to_string())
    );
    assert_eq!(
        parser.extract_symbol_market("C:\\data\\SH\\day\\600519.day").unwrap(),
        ("600519".to_string(), "SH".to_string())
    );
    assert_eq!(
        parser.extract_symbol_market("/data/Sz/300001").unwrap(),
        ("300001".to_string(), "SZ".to_string())
    );
    assert_eq!(
        parser.extract_symbol_market("/x/sz/y/sh/600000.day").unwrap(),
        ("600000".to_string(), "SH".to_string())
    );
}

#[test]
fn symbol_extraction_rejects_bad_names_and_unknown_markets() {
    let parser = TDXDayParser::new("/data");
    assert_eq!(parser.extract_symbol_market("/data/sh/day/60000.day"), Err(DataError::InvalidSymbol));
    assert_eq!(parser.extract_symbol_market("/data/sh/day/60000a.day"), Err(DataError::InvalidSymbol));
    assert_eq!(parser.extract_symbol_market("/data/sh/day/600000.day.bak"), Err(DataError::InvalidSymbol));
    assert_eq!(parser.extract_symbol_market("/data/sh/day/"), Err(DataError::InvalidSymbol));
    assert_eq!(parser.extract_symbol_market("/data/bj/day/600000.day"), Err(DataError::UnknownMarket));
    assert_eq!(parser.extract_symbol_market("/data/sh\\600000.day"), Err(DataError::UnknownMarket));
    assert_eq!(parser.extract_symbol_market("sh/600000.day"), Err(DataError::UnknownMarket));
    assert_eq!(parser.extract_symbol_market("/bj/abc"), Err(DataError::InvalidSymbol));
}

#[test]
fn three_records_decode_with_prices_in_hundredths() {
    let parser = TDXDayParser::new("/data");
    let records = parser.parse_binary_data(&three_days(), "600000", "SH").unwrap();

    assert_eq!(records.len(), 3);
    assert_eq!(records[0].open, 100000);
    assert_eq!(records[0].open as f64 / 100.0, 1000.00);
    assert_eq!(records[0].high, 105000);
    assert_eq!(records[0].low, 98000);
    assert_eq!(records[0].close, 102000);
    assert_eq!(records[0].volume, 5000);
    assert_eq!(records[0].amount, 100_000_000);
    assert_eq!(records[0].date, TradingDate::from_ymd_opt(2024, 1, 1).unwrap());
    assert_eq!(records[1].date, TradingDate::from_ymd_opt(2024, 1, 2).unwrap());
    assert_eq!(records[2].date, TradingDate::from_ymd_opt(2024, 1, 3).unwrap());
    for record in &records {
        assert_eq!(record.symbol, "600000");
        assert_eq!(record.market, "SH");
        assert!(record.low <= record.open && record.open <= record.high);
        assert!(record.low <= record.close && record.close <= record.high);
        assert!(parser.validate_prices(record.open, record.high, record.low, record.close).is_ok());
    }
}

#[test]
fn decode_returns_days_in_ascending_order_and_keeps_equal_days_in_file_order() {
    let parser = TDXDayParser::new("/data");
    let mut buffer = raw_record(20240105, 1000, 1100, 900, 1050, 10.0, 1);
    buffer.extend(raw_record(20240103, 2000, 2100, 1900, 2050, 20.0, 2));
    buffer.extend(raw_record(20240105, 3000, 3100, 2900, 3050, 30.0, 3));
    buffer.extend(raw_record(20231231, 4000, 4100, 3900, 4050, 40.0, 4));
    let records = parser.parse_binary_data(&buffer, "000001", "SZ").unwrap();

    let volumes: Vec<u64> = records.iter().map(|r| r.volume).collect();
    assert_eq!(volumes, vec![4, 2, 1, 3]);
    for pair in records.windows(2) {
        assert!(pair[0].date.number() <= pair[1].date.number());
    }
}

#[test]
fn decode_rejects_a_length_that_is_no_multiple_of_the_record_size() {
    let parser = TDXDayParser::new("/data");
    let mut buffer = three_days();
    buffer.pop();
    assert_eq!(parser.parse_binary_data(&buffer, "600000", "SH"), Err(DataError::InvalidLength));
    assert_eq!(parser.parse_binary_data(&[0u8; 31], "600000", "SH"), Err(DataError::InvalidLength));
    assert_eq!(parser.parse_binary_data(&[0u8; 33], "600000", "SH"), Err(DataError::InvalidLength));
}

#[test]
fn decode_of_an_empty_buffer_is_empty() {
    let parser = TDXDayParser::new("/data");
    assert_eq!(parser.parse_binary_data(&[], "600000", "SH").unwrap().len(), 0);
}

#[test]
fn decode_rejects_dates_that_do_not_exist() {
    let parser = TDXDayParser::new("/data");
    for date in [20240230u32, 20241301, 20240100, 20230229, 1240101, 120240101, 0] {
        let buffer = raw_record(date, 1000, 1100, 900, 1050, 1.0, 1);
        assert_eq!(parser.parse_binary_data(&buffer, "600000", "SH"), Err(DataError::InvalidDate));
    }
    let leap = raw_record(20240229, 1000, 1100, 900, 1050, 1.0, 1);
    assert!(parser.parse_binary_data(&leap, "600000", "SH").is_ok());
}

#[test]
fn decode_rejects_prices_out_of_order_or_out_of_band() {
    let parser = TDXDayParser::new("/data");
    let cases = [
        (0u32, 1100u32, 900u32, 1050u32),
        (1000, 900, 1100, 1050),
        (1200, 1100, 900, 1050),
        (800, 1100, 900, 1050),
        (1000, 1100, 900, 1150),
        (1000, 1100, 900, 850),
        (1000, 1_000_001, 900, 1050),
    ];
    for (open, high, low, close) in cases {
        let buffer = raw_record(20240101, open, high, low, close, 1.0, 1);
        assert_eq!(parser.parse_binary_data(&buffer, "600000", "SH"), Err(DataError::InvalidPrice));
    }
    let widest = raw_record(20240101, 1, 1_000_000, 1, 1_000_000, 1.0, 1);
    assert!(parser.parse_binary_data(&widest, "600000", "SH").is_ok());
}

#[test]
fn decode_fails_on_the_first_record_that_is_rejected() {
    let parser = TDXDayParser::new("/data");
    let mut buffer = raw_record(20240101, 1000, 1100, 900, 1050, 1.0, 1);
    buffer.extend(raw_record(20240102, 0, 1100, 900, 1050, 1.0, 1));
    buffer.extend(raw_record(20240230, 1000, 1100, 900, 1050, 1.0, 1));
    assert_eq!(parser.parse_binary_data(&buffer, "600000", "SH"), Err(DataError::InvalidPrice));

    let mut buffer = raw_record(20240230, 0, 1100, 900, 1050, 1.0, 1);
    buffer.extend(raw_record(20240102, 0, 1100, 900, 1050, 1.0, 1));
    assert_eq!(parser.parse_binary_data(&buffer, "600000", "SH"), Err(DataError::InvalidDate));
}

#[test]
fn prices_come_back_as_they_were_written() {
    let parser = TDXDayParser::new("/data");
    for price in [1u32, 2, 99, 100, 101, 12345, 999_999, 1_000_000] {
        let buffer = raw_record(20240101, price, price, price, price, 0.0, 0);
        let records = parser.parse_binary_data(&buffer, "600000", "SH").unwrap();
        assert_eq!(records[0].close, price);
        let units = records[0].close as f64 / 100.0;
        let written = (units * 100.0).round() as u32;
        assert_eq!(written, price);
        assert!((units - price as f64 / 100.0).abs() < 0.01);
    }
}

#[test]
fn amounts_are_the_float_in_hundredths_rounded_towards_zero() {
    let samples = [
        0.0f32,
        -0.0,
        1.0,
        0.01,
        0.009,
        0.5,
        1.234,
        10_500_000.0,
        13_800_000.0,
        16_777_216.0,
        123_456_789.0,
        1.0e15,
        1.8e17,
        1.9e17,
        3.0e20,
        f32::MAX,
        f32::MIN_POSITIVE,
        1.0e-40,
        -1.0,
        -10_500_000.0,
        f32::INFINITY,
        f32::NEG_INFINITY,
        f32::NAN,
    ];
    for sample in samples {
        let expected = (sample as f64 * 100.0) as u64;
        assert_eq!(amount_from_bits(sample.to_bits()), expected, "for {}", sample);
    }
    assert_eq!(amount_from_bits(10_500_000.0f32.to_bits()), 1_050_000_000);
    assert_eq!(amount_from_bits(f32::INFINITY.to_bits()), u64::MAX);
    assert_eq!(amount_from_bits(f32::NAN.to_bits()), 0);
    assert_eq!(amount_from_bits(0x7fc0_0001), 0);
    assert_eq!(amount_from_bits((-5.0f32).to_bits()), 0);
}

#[test]
fn amounts_agree_with_the_float_on_many_bit_patterns() {
    let mut bits: u32 = 0x1234_5678;
    for _ in 0..20000 {
        bits = bits.wrapping_mul(1_664_525).wrapping_add(1_013_904_223);
        let expected = (f32::from_bits(bits) as f64 * 100.0) as u64;
        assert_eq!(amount_from_bits(bits), expected, "for bits {:#x}", bits);
    }
}

#[test]
fn file_content_is_decoded_under_the_names_of_its_path() {
    let parser = TDXDayParser::new("/data");
    let records = parser.parse_file_content("/data/vipdoc/sz/day/000002.day", &three_days()).unwrap();
    assert_eq!(records.len(), 3);
    assert_eq!(records[2].symbol, "000002");
    assert_eq!(records[2].market, "SZ");
    assert_eq!(
        parser.parse_file_content("/data/vipdoc/hk/day/000002.day", &three_days()),
        Err(DataError::UnknownMarket)
    );
    assert_eq!(
        parser.parse_file_content("/data/vipdoc/sz/day/abc.day", &three_days()),
        Err(DataError::InvalidSymbol)
    );
}

#[test]
fn records_can_be_copied() {
    let record = TDXDayRecord {
        date: TradingDate::from_ymd_opt(2024, 1, 1).unwrap(),
        symbol: "600000".to_string(),
        open: 1000,
        high: 1100,
        low: 900,
        close: 1050,
        volume: 1_000_000,
        amount: 1_050_000_000,
        market: "SH".to_string(),
    };
    let copy = record.clone();
    assert_eq!(copy.symbol, record.symbol);
    assert_eq!(copy.date, record.date);
    assert_eq!(copy.close, 1050);
    assert_eq!(copy.amount, 1_050_000_000);
    assert_eq!(copy.market, "SH");
}
