use sls::{format_size, parse_size};

#[test]
fn test_parse_size() {
    assert_eq!(parse_size("10KB"), Some(10 * 1024));
}

#[test]
fn parse_size_megabytes() {
    assert_eq!(parse_size("1MB"), Some(1024 * 1024));
}

#[test]
fn parse_size_fractional_gigabytes() {
    assert_eq!(parse_size("1.5GB"), Some(1610612736));
}

#[test]
fn parse_size_raw_bytes() {
    assert_eq!(parse_size("500"), Some(500));
}

#[test]
fn parse_size_rejects_letters() {
    assert_eq!(parse_size("abc"), None);
}

#[test]
fn parse_size_lowercase_and_spaces() {
    assert_eq!(parse_size(" 10kb "), Some(10 * 1024));
}

#[test]
fn parse_size_two_dots_rejected() {
    assert_eq!(parse_size("1.2.3KB"), None);
}

#[test]
fn parse_size_empty_and_dot_rejected() {
    assert_eq!(parse_size(""), None);
    assert_eq!(parse_size("."), None);
    assert_eq!(parse_size(".KB"), None);
}

#[test]
fn parse_size_fraction_only() {
    assert_eq!(parse_size(".5KB"), Some(512));
    assert_eq!(parse_size("2.KB"), Some(2048));
}

#[test]
fn format_size_whole_kilobyte() {
    assert_eq!(format_size(1024), "1.00KB");
}

#[test]
fn format_size_plain_bytes() {
    assert_eq!(format_size(0), "0B");
    assert_eq!(format_size(500), "500B");
    assert_eq!(format_size(1023), "1023B");
}

#[test]
fn format_size_fractional_kilobytes() {
    assert_eq!(format_size(1588), "1.55KB");
}

#[test]
fn format_size_megabytes() {
    assert_eq!(format_size(1536 * 1024), "1.50MB");
}

#[test]
fn format_size_gigabytes() {
    assert_eq!(format_size(2 * 1024 * 1024 * 1024), "2.00GB");
}

#[test]
fn round_trip_whole_units() {
    for n in [1u64, 2, 10, 999, 1023] {
        let text = format!("{}KB", n);
        assert_eq!(parse_size(&text), Some(n * 1024));
        assert_eq!(format_size(n * 1024), format!("{}.00KB", n));
        let text = format!("{}MB", n);
        assert_eq!(parse_size(&text), Some(n * 1024 * 1024));
        assert_eq!(format_size(n * 1024 * 1024), format!("{}.00MB", n));
        let text = format!("{}GB", n);
        assert_eq!(parse_size(&text), Some(n * 1024 * 1024 * 1024));
        assert_eq!(format_size(n * 1024 * 1024 * 1024), format!("{}.00GB", n));
    }
}
