use sls::dates::{date_le, parse_date_range, Date};

#[test]
fn parse_valid_range() {
    let r = parse_date_range("2025-01-01..2025-08-10");
    assert_eq!(
        r,
        Some((
            Date { year: 2025, month: 1, day: 1 },
            Date { year: 2025, month: 8, day: 10 }
        ))
    );
}

#[test]
fn parse_bad_range() {
    assert_eq!(parse_date_range("badrange"), None);
}

#[test]
fn parse_range_trims_parts() {
    let r = parse_date_range("2025-01-01 .. 2025-08-10");
    assert_eq!(
        r,
        Some((
            Date { year: 2025, month: 1, day: 1 },
            Date { year: 2025, month: 8, day: 10 }
        ))
    );
}

#[test]
fn parse_range_three_parts_rejected() {
    assert_eq!(parse_date_range("2025-01-01..2025-08-10..2026-01-01"), None);
}

#[test]
fn parse_range_invalid_month_rejected() {
    assert_eq!(parse_date_range("2025-13-01..2025-12-31"), None);
}

#[test]
fn parse_range_invalid_day_rejected() {
    assert_eq!(parse_date_range("2025-02-30..2025-12-31"), None);
}

#[test]
fn inverted_range_is_accepted() {
    let r = parse_date_range("2025-08-10..2025-01-01");
    assert!(r.is_some());
    let (start, end) = r.unwrap();
    assert!(!date_le(&start, &end));
}

#[test]
fn date_order_is_chronological() {
    let a = Date { year: 2024, month: 12, day: 31 };
    let b = Date { year: 2025, month: 1, day: 1 };
    assert!(date_le(&a, &b));
    assert!(!date_le(&b, &a));
    assert!(date_le(&a, &a));
}
