use pulse_trader_rust::calendar::TradingDate;
use pulse_trader_rust::error::DataError;
use pulse_trader_rust::parsers::ValidationUtils;

#[test]
fn test_symbol_validation() {
    assert!(ValidationUtils::validate_symbol("000001").is_ok());
    assert!(ValidationUtils::validate_symbol("600000").is_ok());
    assert!(ValidationUtils::validate_symbol("300001").is_ok());

    assert!(ValidationUtils::validate_symbol("00001").is_err());
    assert!(ValidationUtils::validate_symbol("AAAAAA").is_err());
    assert!(ValidationUtils::validate_symbol("0000000").is_err());
}

#[test]
fn test_market_validation() {
    assert!(ValidationUtils::validate_market("SH").is_ok());
    assert!(ValidationUtils::validate_market("SZ").is_ok());
    assert!(ValidationUtils::validate_market("sh").is_ok());
    assert!(ValidationUtils::validate_market("sz").is_ok());

    assert!(ValidationUtils::validate_market("BJ").is_err());
    assert!(ValidationUtils::validate_market("HK").is_err());
}

#[test]
fn test_date_validation() {
    assert!(ValidationUtils::validate_date("20240101").is_ok());
    assert!(ValidationUtils::validate_date("20231231").is_ok());

    assert!(ValidationUtils::validate_date("2024011").is_err());
    assert!(ValidationUtils::validate_date("20241301").is_err());
    assert!(ValidationUtils::validate_date("20240132").is_err());
}

#[test]
fn test_price_validation() {
    assert!(ValidationUtils::validate_price_data(1000, 1200, 800, 1100).is_ok());

    assert!(ValidationUtils::validate_price_data(-100, 1200, 800, 1100).is_err());
    assert!(ValidationUtils::validate_price_data(1000, 800, 1200, 1100).is_err());
    assert!(ValidationUtils::validate_price_data(1300, 1200, 800, 1100).is_err());
}

#[test]
fn test_data_validation() {
    assert!(ValidationUtils::validate_symbol("000001").is_ok());
    assert!(ValidationUtils::validate_symbol("AAAAAA").is_err());

    assert!(ValidationUtils::validate_market("SH").is_ok());
    assert!(ValidationUtils::validate_market("BJ").is_err());

    assert!(ValidationUtils::validate_price_data(1000, 1200, 800, 1100).is_ok());
    assert!(ValidationUtils::validate_price_data(-100, 1200, 800, 1100).is_err());
}

#[test]
fn each_check_names_its_error() {
    assert_eq!(ValidationUtils::validate_symbol("60000x"), Err(DataError::InvalidSymbol));
    assert_eq!(ValidationUtils::validate_symbol("６０００００"), Err(DataError::InvalidSymbol));
    assert_eq!(ValidationUtils::validate_market("S"), Err(DataError::UnknownMarket));
    assert_eq!(ValidationUtils::validate_market("sH"), Ok(()));
    assert_eq!(ValidationUtils::validate_market("Sz"), Ok(()));
    assert_eq!(ValidationUtils::validate_market("SHZ"), Err(DataError::UnknownMarket));
    assert_eq!(ValidationUtils::validate_date("2024-1-1"), Err(DataError::InvalidDate));
    assert_eq!(ValidationUtils::validate_date("+0240101"), Err(DataError::InvalidDate));
    assert_eq!(ValidationUtils::validate_date("20230229"), Err(DataError::InvalidDate));
    assert_eq!(ValidationUtils::validate_price_data(1000, 1200, 800, 1300), Err(DataError::InvalidPrice));
    assert_eq!(ValidationUtils::validate_price_data(1, 1_000_001, 1, 1), Err(DataError::InvalidPrice));
    assert_eq!(ValidationUtils::validate_price_data(1, 1_000_000, 1, 1), Ok(()));
    assert_eq!(ValidationUtils::validate_volume(1_000_000_000_000), Ok(()));
    assert_eq!(ValidationUtils::validate_volume(1_000_000_000_001), Err(DataError::InvalidVolume));
    assert_eq!(ValidationUtils::validate_amount(0), Ok(()));
    assert_eq!(ValidationUtils::validate_amount(100_000_000_000_000_000), Ok(()));
    assert_eq!(ValidationUtils::validate_amount(100_000_000_000_000_001), Err(DataError::InvalidAmount));
    assert_eq!(ValidationUtils::validate_amount(-1), Err(DataError::InvalidAmount));
}

#[test]
fn a_date_is_read_digit_by_digit() {
    let date = ValidationUtils::validate_date("20240229").unwrap();
    assert_eq!(date.year(), 2024);
    assert_eq!(date.month(), 2);
    assert_eq!(date.day(), 29);
    assert_eq!(date.number(), 20240229);
    assert_eq!(date, TradingDate::from_ymd_opt(2024, 2, 29).unwrap());
    let early = ValidationUtils::validate_date("00010101").unwrap();
    assert_eq!(early.year(), 1);
    assert_eq!(early.text(), "0001-01-01");
}

#[test]
fn the_calendar_decides_which_days_exist() {
    assert!(TradingDate::from_ymd_opt(2024, 2, 29).is_some());
    assert!(TradingDate::from_ymd_opt(2023, 2, 29).is_none());
    assert!(TradingDate::from_ymd_opt(1900, 2, 29).is_none());
    assert!(TradingDate::from_ymd_opt(2000, 2, 29).is_some());
    assert!(TradingDate::from_ymd_opt(2024, 4, 31).is_none());
    assert!(TradingDate::from_ymd_opt(2024, 0, 1).is_none());
    assert!(TradingDate::from_ymd_opt(2024, 13, 1).is_none());
    assert!(TradingDate::from_ymd_opt(2024, 1, 0).is_none());
    assert!(TradingDate::from_ymd_opt(-4, 2, 29).is_some());
    assert!(TradingDate::from_ymd_opt(262142, 12, 31).is_some());
    assert!(TradingDate::from_ymd_opt(262143, 1, 1).is_none());
    assert!(TradingDate::from_ymd_opt(-262143, 1, 1).is_some());
    assert!(TradingDate::from_ymd_opt(-262144, 12, 31).is_none());
}

#[test]
fn the_calendar_agrees_with_chrono_on_every_day_of_some_years() {
    for year in [1899, 1900, 2000, 2023, 2024, 2100] {
        for month in 0..14u32 {
            for day in 0..33u32 {
                assert_eq!(
                    TradingDate::from_ymd_opt(year, month, day).is_some(),
                    chrono::NaiveDate::from_ymd_opt(year, month, day).is_some()
                );
            }
        }
    }
}

#[test]
fn dates_are_written_as_chrono_writes_them() {
    assert_eq!(TradingDate::from_ymd_opt(2024, 1, 1).unwrap().text(), "2024-01-01");
    assert_eq!(TradingDate::from_ymd_opt(2023, 12, 31).unwrap().text(), "2023-12-31");
    assert_eq!(TradingDate::from_ymd_opt(987, 6, 5).unwrap().text(), "0987-06-05");
    assert_eq!(
        TradingDate::from_ymd_opt(12345, 6, 7).unwrap().text(),
        chrono::NaiveDate::from_ymd_opt(12345, 6, 7).unwrap().to_string()
    );
    assert_eq!(
        TradingDate::from_ymd_opt(-45, 6, 7).unwrap().text(),
        chrono::NaiveDate::from_ymd_opt(-45, 6, 7).unwrap().to_string()
    );
}

#[test]
fn dates_compare_by_their_number() {
    let a = TradingDate::from_ymd_opt(2023, 12, 31).unwrap();
    let b = TradingDate::from_ymd_opt(2024, 1, 1).unwrap();
    assert!(a.number() < b.number());
    assert!(a.same_day(&a));
    assert!(!a.same_day(&b));
    assert_eq!(b.number(), 20240101);
}

fn written_year(year: i32) -> String {
    let digits = format!("{}", (year as i64).abs());
    let padded = if digits.len() >= 4 { digits } else { format!("{}{}", "0".repeat(4 - digits.len()), digits) };
    if (0..=9999).contains(&year) {
        padded
    } else if year < 0 {
        format!("-{}", padded)
    } else {
        format!("+{}", format!("{}", year))
    }
}

#[test]
fn a_year_is_written_with_four_digits_at_least_and_its_sign_where_it_needs_one() {
    let years = [
        -262143, -100000, -12345, -10000, -9999, -1000, -999, -45, -1, 0, 1, 9, 10, 99, 100, 999, 1000, 2024,
        9999, 10000, 12345, 99999, 100000, 262142,
    ];
    for year in years {
        for (month, day) in [(1u32, 1u32), (2, 28), (10, 9), (12, 31)] {
            let date = TradingDate::from_ymd_opt(year, month, day).unwrap();
            let expected = format!("{}-{:02}-{:02}", written_year(year), month, day);
            assert_eq!(date.text(), expected);
        }
    }
    assert_eq!(TradingDate::from_ymd_opt(-45, 6, 7).unwrap().text(), "-0045-06-07");
    assert_eq!(TradingDate::from_ymd_opt(12345, 6, 7).unwrap().text(), "+12345-06-07");
    assert_eq!(TradingDate::from_ymd_opt(0, 1, 1).unwrap().text(), "0000-01-01");
}
