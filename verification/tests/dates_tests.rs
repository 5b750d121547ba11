use data_collect::dates::{parse_date, parse_datetime, CalendarDate, DateTimeParts};

#[test]
fn compact_dates_are_read() {
    let d = parse_date("20250530", "%Y%m%d").ok().unwrap();
    assert_eq!((d.year, d.month, d.day), (2025, 5, 30));
    assert_eq!(d.to_text(), "2025-05-30");
    assert_eq!(d.compact_text(), "20250530");
    assert_eq!(d.year_text(), "2025");
    assert_eq!(d.month_text(), "05");
    assert_eq!(d.day_text(), "30");
}

#[test]
fn impossible_dates_are_refused() {
    assert!(parse_date("20250230", "%Y%m%d").is_err());
    assert!(parse_date("2025133", "%Y%m%d").is_err());
    let short = parse_date("2025053", "%Y%m%d").ok().unwrap();
    assert_eq!(short.to_text(), "2025-05-03");
    assert!(parse_date("hello", "%Y%m%d").is_err());
    assert!(parse_date("", "%Y%m%d").is_err());
}

#[test]
fn dates_display_as_chrono_does() {
    for (y, m, d) in [(2025, 5, 30), (7, 1, 2), (-1, 12, 31), (12345, 6, 7), (0, 1, 1), (-12345, 3, 4)] {
        let ours = CalendarDate { year: y, month: m, day: d };
        let theirs = chrono::NaiveDate::from_ymd_opt(y, m, d).unwrap();
        assert_eq!(ours.to_text(), theirs.to_string());
        assert_eq!(ours.compact_text(), theirs.format("%Y%m%d").to_string());
        assert_eq!(ours.year_text(), theirs.format("%Y").to_string());
    }
    assert_eq!(CalendarDate { year: -1, month: 1, day: 1 }.to_text(), "-0001-01-01");
    assert_eq!(CalendarDate { year: 12345, month: 1, day: 1 }.year_text(), "+12345");
}

#[test]
fn timestamps_are_read_and_displayed() {
    let p = parse_datetime("202505301200", "%Y%m%d%H%M").unwrap();
    assert_eq!((p.year, p.month, p.day, p.hour, p.minute, p.second), (2025, 5, 30, 12, 0, 0));
    assert_eq!(p.to_text(), "2025-05-30 12:00:00");
    assert!(parse_datetime("20250530", "%Y%m%d%H%M").is_none());
    assert!(parse_datetime("DP", "%Y%m%d%H%M").is_none());
}

#[test]
fn fractions_and_leap_seconds_display_as_chrono_does() {
    for (s, n) in [(5, 0), (5, 120_000_000), (5, 123_000), (5, 1), (59, 1_000_000_000), (59, 1_500_000_000)] {
        let ours = DateTimeParts {
            year: 2024,
            month: 2,
            day: 29,
            hour: 23,
            minute: 59,
            second: s,
            nanosecond: n,
        };
        let theirs = chrono::NaiveDate::from_ymd_opt(2024, 2, 29)
            .unwrap()
            .and_hms_nano_opt(23, 59, s, n)
            .unwrap();
        assert_eq!(ours.to_text(), theirs.to_string());
    }
}
