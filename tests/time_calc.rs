use chrono::{Datelike, NaiveDate};
use ticket_dashboard::time_calc::{business_hours_between, WorkDateTime};

fn at(y: i32, m: u32, d: u32, h: u32, min: u32) -> WorkDateTime {
    let day = NaiveDate::from_ymd_opt(y, m, d).unwrap().num_days_from_ce();
    WorkDateTime::from_day_hms(day, h, min, 0).unwrap()
}

fn hours(minutes: u64) -> f64 {
    minutes as f64 / 60.0
}

#[test]
fn test_business_hours_same_day() {
    let start = at(2025, 1, 6, 10, 0);
    let end = at(2025, 1, 6, 15, 0);
    let h = hours(business_hours_between(start, end, 9, 17).ok().unwrap());
    assert_eq!(h, 5.0);
}

#[test]
fn test_business_hours_multi_day() {
    let start = at(2025, 1, 6, 16, 0);
    let end = at(2025, 1, 8, 10, 30);
    let h = hours(business_hours_between(start, end, 9, 17).ok().unwrap());
    assert_eq!(h, 10.5);
}

#[test]
fn test_business_hours_weekend_excluded() {
    let start = at(2025, 1, 10, 16, 0);
    let end = at(2025, 1, 13, 10, 0);
    let h = hours(business_hours_between(start, end, 9, 17).ok().unwrap());
    assert_eq!(h, 2.0);
}

#[test]
fn test_business_hours_zero_if_reversed() {
    let start = at(2025, 1, 6, 15, 0);
    let end = at(2025, 1, 6, 10, 0);
    let h = hours(business_hours_between(start, end, 9, 17).ok().unwrap());
    assert_eq!(h, 0.0);
}

#[test]
fn test_invalid_work_hours() {
    let start = at(2025, 1, 6, 10, 0);
    let end = at(2025, 1, 6, 15, 0);
    assert!(business_hours_between(start, end, 25, 17).is_err());
    assert!(business_hours_between(start, end, 17, 9).is_err());
}

#[test]
fn weekend_only_span_counts_nothing() {
    let start = at(2025, 1, 11, 9, 0);
    let end = at(2025, 1, 12, 18, 0);
    assert_eq!(business_hours_between(start, end, 9, 17).ok().unwrap(), 0);
}

#[test]
fn equal_hours_are_refused() {
    let start = at(2025, 1, 6, 10, 0);
    let end = at(2025, 1, 6, 15, 0);
    assert!(business_hours_between(start, end, 9, 9).is_err());
    assert!(business_hours_between(start, end, 9, 24).is_err());
}

#[test]
fn time_of_day_is_checked() {
    assert!(WorkDateTime::from_day_hms(1, 24, 0, 0).is_none());
    assert_eq!(WorkDateTime::from_day_hms(1, 1, 1, 1).unwrap().second, 3661);
}
