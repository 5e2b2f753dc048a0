use madokami::auth::{basic_auth_header, basic_value, credentials};
use madokami::date::{days_since_epoch, parse_chapter_date, parse_i64, simulate_relative};

#[test]
fn relative_units() {
    assert_eq!(parse_chapter_date("30 sec ago"), -30);
    assert_eq!(parse_chapter_date("5 min ago"), -300);
    assert_eq!(parse_chapter_date("5 minutes ago"), -300);
    assert_eq!(parse_chapter_date("2 hours ago"), -7200);
    assert_eq!(parse_chapter_date("3 days ago"), 0);
}

#[test]
fn malformed_relative_is_zero() {
    assert_eq!(parse_chapter_date("x min ago"), 0);
    assert_eq!(parse_chapter_date("ago"), 0);
    assert_eq!(parse_chapter_date("5min ago"), 0);
    assert_eq!(parse_chapter_date("9223372036854775807 hours ago"), 0);
}

#[test]
fn empty_or_short_is_zero() {
    assert_eq!(parse_chapter_date(""), 0);
    assert_eq!(parse_chapter_date("yesterday"), 0);
}

#[test]
fn absolute_dates() {
    assert_eq!(parse_chapter_date("1970-01-01 00:00"), 0);
    assert_eq!(parse_chapter_date("2000-03-01 00:00"), 951_868_800);
    assert_eq!(parse_chapter_date("2024-01-15 10:30"), 1_705_314_600);
    assert_eq!(parse_chapter_date("1969-12-31 23:59"), -60);
}

#[test]
fn malformed_fields_default_to_epoch() {
    assert_eq!(parse_chapter_date("abcd-ef-gh ij:kl"), 0);
    assert_eq!(parse_chapter_date("2000-xx-01 00:00"), parse_chapter_date("2000-01-01 00:00"));
}

#[test]
fn absolute_dates_increase_with_each_field() {
    let base = parse_chapter_date("2023-02-28 10:30");
    assert!(base < parse_chapter_date("2024-02-28 10:30"));
    assert!(base < parse_chapter_date("2023-03-28 10:30"));
    assert!(base < parse_chapter_date("2023-02-29 10:30"));
    assert!(base < parse_chapter_date("2023-02-28 11:30"));
    assert!(base < parse_chapter_date("2023-02-28 10:31"));
    assert!(parse_chapter_date("2023-12-31 23:59") < parse_chapter_date("2024-01-01 00:00"));
}

#[test]
fn day_count() {
    assert_eq!(days_since_epoch(1970, 1, 1), 0);
    assert_eq!(days_since_epoch(2000, 3, 1), 11_017);
    assert_eq!(days_since_epoch(1969, 12, 31), -1);
    assert_eq!(days_since_epoch(2024, 3, 1) - days_since_epoch(2024, 2, 28), 2);
    assert_eq!(days_since_epoch(2000, 1, 1), 10_957);
}

#[test]
fn day_count_far_from_epoch() {
    assert_eq!(days_since_epoch(1_000_000, 1, 1) - days_since_epoch(999_999, 1, 1), 365);
    assert_eq!(days_since_epoch(-1_000_000, 3, 1) - days_since_epoch(-1_000_000, 2, 28), 2);
    assert_eq!(days_since_epoch(-999_999, 3, 1) - days_since_epoch(-999_999, 2, 28), 1);
    assert_eq!(days_since_epoch(0, 1, 1) - days_since_epoch(-1, 12, 31), 1);
    assert_eq!(days_since_epoch(0, 3, 1) - days_since_epoch(0, 1, 1), 60);
    assert_eq!(days_since_epoch(1, 1, 1) - days_since_epoch(0, 1, 1), 366);
}

#[test]
fn decimal_parsing() {
    assert_eq!(parse_i64(b"-42", 0, 3), Some(-42));
    assert_eq!(parse_i64(b"+7", 0, 2), Some(7));
    assert_eq!(parse_i64(b"+", 0, 1), None);
    assert_eq!(parse_i64(b"", 0, 0), None);
    assert_eq!(parse_i64(b"12a", 0, 3), None);
    assert_eq!(parse_i64(b"9223372036854775807", 0, 19), Some(i64::MAX));
    assert_eq!(parse_i64(b"9223372036854775808", 0, 19), None);
    assert_eq!(parse_i64(b"-9223372036854775808", 0, 20), Some(i64::MIN));
    assert_eq!(parse_i64(b"x123y", 1, 4), Some(123));
}

#[test]
fn relative_offsets() {
    assert_eq!(simulate_relative(b"minutes", 0, 7, 2), -120);
    assert_eq!(simulate_relative(b"hour", 0, 4, 1), -3600);
    assert_eq!(simulate_relative(b"secs", 0, 4, 9), -9);
    assert_eq!(simulate_relative(b"week", 0, 4, 9), 0);
}

#[test]
fn no_credentials_no_header() {
    assert_eq!(basic_auth_header("", ""), None);
}

#[test]
fn basic_header_encodes_credentials() {
    assert_eq!(basic_auth_header("user", "pass"), Some("Basic dXNlcjpwYXNz".to_string()));
    assert_eq!(basic_auth_header("user", ""), Some("Basic dXNlcjo=".to_string()));
    assert_eq!(basic_auth_header("", "pw"), Some("Basic OnB3".to_string()));
}

#[test]
fn header_parts() {
    assert_eq!(credentials("a", "b"), b"a:b".to_vec());
    assert_eq!(basic_value("xyz"), "Basic xyz");
}
