use hledger_x::date::{parse_date, resolve, Date};

fn d(y: i32, m: u32, day: u32) -> Date {
    Date::new(y, m, day).unwrap()
}

fn today() -> Date {
    d(2026, 8, 10)
}

#[test]
fn empty_input_is_today() {
    assert_eq!(resolve("", today()), Some(today()));
    assert_eq!(resolve("  ", today()), Some(today()));
}

#[test]
fn words() {
    assert_eq!(resolve("today", today()), Some(d(2026, 8, 10)));
    assert_eq!(resolve("yesterday", today()), Some(d(2026, 8, 9)));
    assert_eq!(resolve("tomorrow", today()), Some(d(2026, 8, 11)));
    assert_eq!(resolve("Yesterday", today()), Some(d(2026, 8, 9)));
}

#[test]
fn bare_day_is_this_month() {
    assert_eq!(resolve("30", today()), Some(d(2026, 8, 30)));
    assert_eq!(resolve("1", today()), Some(d(2026, 8, 1)));
}

#[test]
fn month_day_is_this_year() {
    assert_eq!(resolve("8/30", today()), Some(d(2026, 8, 30)));
    assert_eq!(resolve("2-14", today()), Some(d(2026, 2, 14)));
    assert_eq!(resolve("2.14", today()), Some(d(2026, 2, 14)));
}

#[test]
fn full_dates() {
    assert_eq!(resolve("2025-12-31", today()), Some(d(2025, 12, 31)));
    assert_eq!(resolve("2025/12/31", today()), Some(d(2025, 12, 31)));
}

#[test]
fn invalid_dates_are_none() {
    assert_eq!(resolve("32", today()), None);
    assert_eq!(resolve("13-40", today()), None);
    assert_eq!(resolve("banana", today()), None);
    assert_eq!(resolve("2026-02-30", today()), None);
}

#[test]
fn dates_that_do_not_exist_are_refused() {
    assert!(Date::new(2024, 2, 29).is_some());
    assert!(Date::new(2023, 2, 29).is_none());
    assert!(Date::new(1900, 2, 29).is_none());
    assert!(Date::new(2000, 2, 29).is_some());
    assert!(Date::new(2026, 13, 1).is_none());
    assert!(Date::new(2026, 0, 1).is_none());
    assert!(Date::new(2026, 4, 31).is_none());
    assert!(Date::new(2026, 4, 0).is_none());
    assert!(Date::new(262142, 12, 31).is_some());
    assert!(Date::new(262143, 1, 1).is_none());
    assert!(Date::new(-262143, 1, 1).is_some());
    assert!(Date::new(-262144, 12, 31).is_none());
}

#[test]
fn neighbours_cross_months_and_years() {
    assert_eq!(resolve("tomorrow", d(2024, 2, 28)), Some(d(2024, 2, 29)));
    assert_eq!(resolve("tomorrow", d(2023, 2, 28)), Some(d(2023, 3, 1)));
    assert_eq!(resolve("tomorrow", d(2025, 12, 31)), Some(d(2026, 1, 1)));
    assert_eq!(resolve("yesterday", d(2026, 1, 1)), Some(d(2025, 12, 31)));
    assert_eq!(resolve("tomorrow", d(262142, 12, 31)), None);
    assert_eq!(resolve("yesterday", d(-262143, 1, 1)), None);
}

#[test]
fn a_date_is_written_with_padded_parts() {
    assert_eq!(d(2026, 8, 1).to_text(), "2026-08-01");
    assert_eq!(d(7, 1, 2).to_text(), "0007-01-02");
    assert_eq!(d(-1, 1, 2).to_text(), "-0001-01-02");
    assert_eq!(d(12345, 1, 2).to_text(), "+12345-01-02");
}

#[test]
fn dates_compare_by_year_then_month_then_day() {
    assert!(d(2026, 8, 10).at_most(&d(2026, 8, 10)));
    assert!(d(2025, 12, 31).at_most(&d(2026, 1, 1)));
    assert!(!d(2026, 2, 1).at_most(&d(2026, 1, 31)));
}

#[test]
fn journal_dates_take_the_year_in_effect() {
    assert_eq!(parse_date("2025-01-02", 1999), Some(d(2025, 1, 2)));
    assert_eq!(parse_date("01/02", 1999), Some(d(1999, 1, 2)));
    assert_eq!(parse_date("2025.01.02=2025.02.03", 1999), Some(d(2025, 1, 2)));
    assert_eq!(parse_date("2025-02-30", 1999), None);
    assert_eq!(parse_date("hello", 1999), None);
}
