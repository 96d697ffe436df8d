use cost_trend::window::{
    checked_range, date_range, day_in_window, day_of, recent_window, ConfigError, DateRange,
    Granularity, HOURLY_SPAN_DAYS, RECENT_WINDOW_DAYS,
};

fn day(text: &str) -> i32 {
    match day_of(&text.to_string()) {
        Some(d) => d,
        None => panic!("{} is a date", text),
    }
}

#[test]
fn dates_are_read_as_day_numbers() {
    assert_eq!(day_of(&"1970-01-01".to_string()), Some(719_163));
    assert_eq!(day_of(&"0001-01-01".to_string()), Some(1));
    assert_eq!(day("2025-01-02") - day("2025-01-01"), 1);
    assert_eq!(day("2025-03-01") - day("2025-02-01"), 28);
    assert_eq!(day("2024-03-01") - day("2024-02-01"), 29);
    assert_eq!(day("2025-07-04") - day("2025-01-01"), 184);
}

#[test]
fn what_is_no_date_has_no_day_number() {
    for text in ["", "garbage", "2025-02-30", "2025-13-01", "2025-01-01T00:00:00Z", "01/02/2025"] {
        assert_eq!(day_of(&text.to_string()), None, "{:?}", text);
    }
}

#[test]
fn range_holds_both_ends() {
    match date_range(&"2025-01-01".to_string(), &"2025-07-04".to_string()) {
        Ok(range) => {
            assert_eq!(range.start_day, day("2025-01-01"));
            assert_eq!(range.end_day, day("2025-07-04"));
        }
        Err(_) => panic!("both dates are dates"),
    }
}

#[test]
fn unreadable_start_date_is_reported_first() {
    assert!(matches!(
        date_range(&"soon".to_string(), &"2025-07-04".to_string()),
        Err(ConfigError::InvalidStartDate)
    ));
    assert!(matches!(
        date_range(&"soon".to_string(), &"later".to_string()),
        Err(ConfigError::InvalidStartDate)
    ));
    assert!(matches!(checked_range(None, Some(3)), Err(ConfigError::InvalidStartDate)));
}

#[test]
fn unreadable_end_date_is_reported() {
    assert!(matches!(
        date_range(&"2025-01-01".to_string(), &"later".to_string()),
        Err(ConfigError::InvalidEndDate)
    ));
    assert!(matches!(checked_range(Some(3), None), Err(ConfigError::InvalidEndDate)));
}

#[test]
fn hourly_granularity_is_limited_to_seven_days() {
    assert_eq!(HOURLY_SPAN_DAYS, 7);
    let week = DateRange { start_day: day("2025-07-01"), end_day: day("2025-07-08") };
    let longer = DateRange { start_day: day("2025-07-01"), end_day: day("2025-07-09") };
    assert!(week.allows(Granularity::Hourly));
    assert!(!longer.allows(Granularity::Hourly));
    assert!(longer.allows(Granularity::Daily));
    assert!(longer.allows(Granularity::Monthly));
    let widest = DateRange { start_day: i32::MIN, end_day: i32::MAX };
    assert!(!widest.allows(Granularity::Hourly));
    assert!(widest.allows(Granularity::Monthly));
}

#[test]
fn only_monthly_buckets_are_months() {
    assert!(Granularity::Monthly.is_monthly());
    assert!(!Granularity::Daily.is_monthly());
    assert!(!Granularity::Hourly.is_monthly());
}

#[test]
fn start_before_the_window_is_noticed() {
    let early = DateRange { start_day: day("2025-01-01"), end_day: day("2025-07-04") };
    let exact = DateRange { start_day: day("2025-01-05"), end_day: day("2025-07-04") };
    assert!(early.starts_before_window());
    assert!(!exact.starts_before_window());
    let widest = DateRange { start_day: i32::MIN, end_day: i32::MAX };
    assert!(widest.starts_before_window());
}

#[test]
fn window_is_the_last_hundred_and_eighty_days() {
    assert_eq!(RECENT_WINDOW_DAYS, 180);
    assert!(day_in_window(Some(1000), 1180));
    assert!(!day_in_window(Some(999), 1180));
    assert!(day_in_window(Some(5000), 1180));
    assert!(!day_in_window(None, 1180));
    assert!(day_in_window(Some(i32::MAX), i32::MIN));
    assert!(!day_in_window(Some(i32::MIN), i32::MAX));
}

#[test]
fn recent_window_keeps_the_periods_of_the_last_six_months() {
    let periods: Vec<String> = [
        "2024-12-01",
        "2025-01-01",
        "2025-01-04",
        "2025-01-05",
        "2025-02-01",
        "junk",
        "2025-03-01T00:00:00Z",
        "2025-07-04",
        "2025-08-01",
    ]
    .iter()
    .map(|p| p.to_string())
    .collect();
    let window = recent_window(&periods, day("2025-07-04"));
    assert_eq!(window, vec!["2025-01-05", "2025-02-01", "2025-07-04", "2025-08-01"]);
}

#[test]
fn recent_window_of_no_dates_is_empty() {
    let periods = vec!["a".to_string(), "b".to_string()];
    assert!(recent_window(&periods, day("2025-07-04")).is_empty());
    assert!(recent_window(&Vec::new(), day("2025-07-04")).is_empty());
}
