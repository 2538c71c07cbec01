use exercises::calendar::{
    compute_weekday, day_of_year_2025, day_of_year_in_year, is_leap_year, is_trading_day,
    next_day, next_trading_day, parse_date, time_info, total_days_2025_base,
};

fn info(s: &str) -> String {
    time_info(s).unwrap()
}

#[test]
fn time_info_reports() {
    assert_eq!(info("2025-01-01"), "1,3,1,364,28,0");
    assert_eq!(info("2025-01-18"), "3,6,18,347,11,1");
    assert_eq!(info("2025-12-31"), "1,3,365,0,48,1");
    assert_eq!(info("2025-11-01"), "44,6,305,60,108,1");
    assert_eq!(info("2025-02-28"), "9,5,59,306,354,2");
    assert_eq!(info("2025-04-01"), "14,2,91,274,322,0");
    assert_eq!(info("2025-01-28"), "5,2,28,337,1,7");
    assert_eq!(info("2025-01-30"), "5,4,30,335,383,5");
    assert_eq!(info("2025-02-09"), "6,7,40,325,373,0");
    assert_eq!(info("2025-05-01"), "18,4,121,244,292,4");
    assert_eq!(info("2025-12-25"), "0,4,359,6,54,0");
    assert_eq!(info("2030-06-15"), "24,7,166,199,247,1");
}

#[test]
fn time_info_before_2025_counts_back() {
    assert_eq!(info("2024-12-31"), "1,3,365,0,48,-365");
}

#[test]
fn time_info_rejects_bad_dates() {
    assert_eq!(time_info("2025-13-01"), None);
    assert_eq!(time_info("2025-00-01"), None);
    assert_eq!(time_info("2025-01-32"), None);
    assert_eq!(time_info("2025-01"), None);
    assert_eq!(time_info("x-01-01"), None);
    assert_eq!(time_info("9999-01-01"), None);
}

#[test]
fn parse_dates() {
    assert_eq!(parse_date("2025-03-07"), Some((2025, 3, 7)));
    assert_eq!(parse_date("2025-3-7-extra"), Some((2025, 3, 7)));
    assert_eq!(parse_date("+2025-03-07"), Some((2025, 3, 7)));
    assert_eq!(parse_date("2025/03/07"), None);
    assert_eq!(parse_date("3000000000-01-01"), None);
}

#[test]
fn calendar_steps() {
    assert!(is_leap_year(2024));
    assert!(!is_leap_year(2025));
    assert!(!is_leap_year(2100));
    assert!(is_leap_year(2000));
    assert_eq!(day_of_year_2025(3, 1), 60);
    assert_eq!(day_of_year_in_year(2024, 3, 1), 61);
    assert_eq!(total_days_2025_base(2026, 1, 1), 366);
    assert_eq!(total_days_2025_base(2029, 1, 1), 365 * 3 + 366 + 1);
    assert_eq!(compute_weekday(2025, 1, 1), 3);
    assert_eq!(compute_weekday(2025, 1, 5), 0);
    assert_eq!(next_day(2025, 2, 28), (2025, 3, 1));
    assert_eq!(next_day(2025, 12, 31), (2026, 1, 1));
    assert_eq!(next_day(2025, 4, 29), (2025, 4, 30));
    assert!(!is_trading_day(2025, 1, 1));
    assert!(!is_trading_day(2025, 1, 4));
    assert!(is_trading_day(2025, 1, 2));
    assert_eq!(next_trading_day(2025, 1, 27), Some((2025, 2, 5)));
    assert_eq!(next_trading_day(2025, 12, 31), Some((2026, 1, 2)));
}
