use pulse_trader_rust::calendar::TradingDate;
use pulse_trader_rust::parsers::{TDXDayParser, TDXDayRecord};

fn record(symbol: &str, market: &str, year: i32, month: u32, day: u32, volume: u64) -> TDXDayRecord {
    TDXDayRecord {
        date: TradingDate::from_ymd_opt(year, month, day).unwrap(),
        symbol: symbol.to_string(),
        open: 1000,
        high: 1100,
        low: 900,
        close: 1050,
        volume,
        amount: 0,
        market: market.to_string(),
    }
}

fn pair(symbol: &str, market: &str) -> (String, String) {
    (symbol.to_string(), market.to_string())
}

#[test]
fn files_are_merged_by_day_then_symbol_then_market() {
    let parser = TDXDayParser::new("/data");
    let files = vec![
        vec![record("600000", "SH", 2024, 1, 2, 1), record("600000", "SH", 2024, 1, 3, 2)],
        Vec::new(),
        vec![record("000001", "SZ", 2024, 1, 3, 3), record("000001", "SZ", 2024, 1, 1, 4)],
        vec![record("000001", "SH", 2024, 1, 3, 5), record("600000", "SH", 2024, 1, 3, 6)],
        vec![record("000001", "SH", -5, 12, 31, 7), record("1", "SZ", 2024, 1, 3, 8)],
    ];
    let merged = parser.merge_records(&files);
    let volumes: Vec<u64> = merged.iter().map(|r| r.volume).collect();
    assert_eq!(volumes, vec![7, 4, 1, 5, 3, 8, 2, 6]);

    let mut expected: Vec<TDXDayRecord> = files.iter().flatten().cloned().collect();
    expected.sort_by(|a, b| {
        a.date.number().cmp(&b.date.number()).then(a.symbol.cmp(&b.symbol)).then(a.market.cmp(&b.market))
    });
    assert_eq!(merged, expected);
    assert!(parser.merge_records(&Vec::new()).is_empty());
}

#[test]
fn many_files_are_merged_as_a_sort_would_merge_them() {
    let parser = TDXDayParser::new("/data");
    let mut state: u32 = 7;
    let mut files = Vec::new();
    for f in 0..40u32 {
        let mut file = Vec::new();
        for _ in 0..50 {
            state = state.wrapping_mul(1_103_515_245).wrapping_add(12345);
            let symbol = format!("{:06}", (state >> 8) % 30);
            let market = if (state >> 20) % 2 == 0 { "SH" } else { "SZ" };
            file.push(record(&symbol, market, 2020 + ((state >> 3) % 3) as i32, 1 + (state >> 12) % 12, 1 + (state >> 16) % 28, f as u64));
        }
        files.push(file);
    }
    let merged = parser.merge_records(&files);
    let mut expected: Vec<TDXDayRecord> = files.iter().flatten().cloned().collect();
    expected.sort_by(|a, b| {
        a.date.number().cmp(&b.date.number()).then(a.symbol.cmp(&b.symbol)).then(a.market.cmp(&b.market))
    });
    assert_eq!(merged, expected);
}

#[test]
fn the_records_of_one_day_are_selected() {
    let parser = TDXDayParser::new("/data");
    let records = vec![
        record("600000", "SH", 2024, 1, 2, 1),
        record("000001", "SZ", 2024, 1, 3, 2),
        record("600000", "SH", 2024, 1, 3, 3),
        record("600000", "SH", 2024, 1, 4, 4),
    ];
    let day = TradingDate::from_ymd_opt(2024, 1, 3).unwrap();
    let selected = parser.select_date(&records, &day);
    assert_eq!(selected.iter().map(|r| r.volume).collect::<Vec<u64>>(), vec![2, 3]);
    let never = TradingDate::from_ymd_opt(2025, 1, 3).unwrap();
    assert!(parser.select_date(&records, &never).is_empty());
}

#[test]
fn the_instruments_are_listed_in_order() {
    let parser = TDXDayParser::new("/data");
    let candidates = vec![
        pair("600000", "SH"),
        pair("60000", "SH"),
        pair("000002", "SZ"),
        pair("600000", "SZ"),
        pair("abcdef", "SH"),
        pair("000001", "SZ"),
        pair("000002", "SH"),
        pair("0000001", "SZ"),
    ];
    let stocks = parser.list_stocks(&candidates);
    assert_eq!(
        stocks,
        vec![pair("000001", "SZ"), pair("000002", "SH"), pair("000002", "SZ"), pair("600000", "SH"), pair("600000", "SZ")]
    );
    let mut expected: Vec<(String, String)> =
        candidates.iter().filter(|c| c.0.len() == 6 && c.0.chars().all(|x| x.is_ascii_digit())).cloned().collect();
    expected.sort();
    assert_eq!(stocks, expected);
    assert!(parser.list_stocks(&Vec::new()).is_empty());
}

#[test]
fn totals_are_taken_over_the_files_that_could_be_read() {
    let parser = TDXDayParser::new("/data");
    let histories = vec![
        vec![record("600000", "SH", 2024, 1, 2, 1), record("600000", "SH", 2024, 1, 3, 2)],
        Vec::new(),
        vec![record("000001", "SZ", 2023, 6, 1, 3)],
        vec![record("000002", "SZ", 2024, 3, 1, 4), record("000002", "SZ", 2025, 3, 1, 5)],
    ];
    let stats = parser.summarize(6, &histories, 4096);
    assert_eq!(stats.total_stocks, 6);
    assert_eq!(stats.total_records, 5);
    assert_eq!(stats.sh_count, 0);
    assert_eq!(stats.sz_count, 0);
    assert_eq!(stats.earliest_date, TradingDate::from_ymd_opt(2023, 6, 1));
    assert_eq!(stats.latest_date, TradingDate::from_ymd_opt(2024, 3, 1));
    assert_eq!(stats.data_size_bytes, 4096);

    let none = parser.summarize(0, &Vec::new(), 0);
    assert_eq!(none.total_stocks, 0);
    assert_eq!(none.total_records, 0);
    assert_eq!(none.earliest_date, None);
    assert_eq!(none.latest_date, None);
}
