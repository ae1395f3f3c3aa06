use markdown_todo_extractor::dates::{
    date_from_days, date_range, days_in_month, is_leap_year, parse_date, today, validate_date,
};

#[test]
fn test_validate_date() {
    assert!(validate_date("2025-01-20"));
    assert!(validate_date("2024-02-29"));
    assert!(!validate_date("2025-02-29"));
    assert!(!validate_date("2025-13-20"));
    assert!(!validate_date("2025-01-32"));
}

#[test]
fn test_validate_date_valid() {
    assert!(validate_date("2025-01-20"));
    assert!(validate_date("2025-12-31"));
    assert!(validate_date("2000-02-29"));
}

#[test]
fn test_validate_date_invalid() {
    assert!(!validate_date("2025-01"));
    assert!(!validate_date("2025-01-20-extra"));
    assert!(!validate_date("2025/01/20"));
    assert!(!validate_date("25-01-20"));
    assert!(!validate_date("2025-13-20"));
    assert!(!validate_date("2025-01-32"));
    assert!(!validate_date("2025-02-30"));
    assert!(!validate_date("2025-02-29"));
    assert!(!validate_date("not-a-date"));
}

#[test]
fn test_parse_date() {
    assert_eq!(parse_date("2025-01-20"), Some((2025, 1, 20)));
    assert_eq!(parse_date("2025-12-31"), Some((2025, 12, 31)));
    assert_eq!(parse_date("invalid"), None);
}

#[test]
fn test_date_range() {
    let range = date_range("2025-01-20", "2025-01-22");
    assert_eq!(range.len(), 3);
    assert_eq!(range[0], "2025-01-20");
    assert_eq!(range[1], "2025-01-21");
    assert_eq!(range[2], "2025-01-22");
}

#[test]
fn test_date_range_single_day() {
    let range = date_range("2025-01-20", "2025-01-20");
    assert_eq!(range.len(), 1);
    assert_eq!(range[0], "2025-01-20");
}

#[test]
fn test_date_range_invalid_start() {
    let range = date_range("invalid", "2025-01-20");
    assert!(range.is_empty());
}

#[test]
fn test_date_range_invalid_end() {
    let range = date_range("2025-01-20", "invalid");
    assert!(range.is_empty());
}

#[test]
fn test_date_range_start_after_end() {
    let range = date_range("2025-01-22", "2025-01-20");
    assert!(range.is_empty());
}

#[test]
fn test_date_range_cross_month() {
    let range = date_range("2025-01-30", "2025-02-02");
    assert_eq!(range.len(), 4);
    assert_eq!(range[0], "2025-01-30");
    assert_eq!(range[1], "2025-01-31");
    assert_eq!(range[2], "2025-02-01");
    assert_eq!(range[3], "2025-02-02");
}

#[test]
fn test_date_range_cross_year() {
    let range = date_range("2024-12-30", "2025-01-02");
    assert_eq!(range.len(), 4);
    assert_eq!(range[0], "2024-12-30");
    assert_eq!(range[1], "2024-12-31");
    assert_eq!(range[2], "2025-01-01");
    assert_eq!(range[3], "2025-01-02");
}

#[test]
fn test_leap_year() {
    assert!(is_leap_year(2000));
    assert!(is_leap_year(2024));
    assert!(!is_leap_year(2025));
    assert!(!is_leap_year(1900));
}

#[test]
fn test_days_in_month() {
    assert_eq!(days_in_month("2025", 1), 31);
    assert_eq!(days_in_month("2025", 2), 28);
    assert_eq!(days_in_month("2024", 2), 29);
    assert_eq!(days_in_month("2025", 4), 30);
    assert_eq!(days_in_month("2025", 12), 31);
}

#[test]
fn days_in_month_unreadable_year_counts_as_2000() {
    assert_eq!(days_in_month("year", 2), 29);
    assert_eq!(days_in_month("+2023", 2), 28);
    assert_eq!(days_in_month("2025", 13), 0);
}

#[test]
fn date_range_leap_february() {
    let range = date_range("2024-02-28", "2024-03-01");
    assert_eq!(range, vec!["2024-02-28", "2024-02-29", "2024-03-01"]);
}

#[test]
fn date_range_is_capped() {
    let range = date_range("2000-01-01", "2025-01-01");
    assert_eq!(range.len(), 3651);
    assert_eq!(range[0], "2000-01-01");
}

#[test]
fn civil_dates_from_day_numbers() {
    assert_eq!(date_from_days(0), "1970-01-01");
    assert_eq!(date_from_days(59), "1970-03-01");
    assert_eq!(date_from_days(20108), "2025-01-20");
    assert_eq!(date_from_days(11016), "2000-02-29");
}

#[test]
fn today_is_a_valid_date() {
    let t = today();
    assert!(validate_date(&t));
    assert!(t.as_str() > "2020-01-01");
}
