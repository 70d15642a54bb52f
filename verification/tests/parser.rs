use chrono::{FixedOffset, TimeZone, Utc};
use log_analyzer::models::LogEntry;
use log_analyzer::parse::parse_log_line;
use log_analyzer::timestamp::Timestamp;
use log_analyzer::fmt::format_hour_label;

#[test]
fn parse_log_line_valid() {
    let line =
        r#"202.32.92.47 - - [01/Jun/1995:00:00:59 -0600] "GET /~scottp/publish.html" 200 271"#;
    let expected_ts = FixedOffset::west_opt(6 * 3600)
        .unwrap()
        .with_ymd_and_hms(1995, 6, 1, 0, 0, 59)
        .unwrap()
        .with_timezone(&Utc);
    assert_eq!(
        parse_log_line(line),
        Some(LogEntry {
            host: "202.32.92.47".into(),
            timestamp: expected_ts.timestamp(),
            path: "/~scottp/publish.html".into(),
            status: 200,
            bytes: 271,
        })
    );
}

#[test]
fn parse_converts_offset_to_utc() {
    let line =
        r#"202.32.92.47 - - [01/Jun/1995:00:00:59 -0600] "GET /~scottp/publish.html" 200 271"#;
    let entry = parse_log_line(line).unwrap();
    // 1995-06-01T06:00:59Z
    assert_eq!(entry.timestamp, 801986459);
}

#[test]
fn parse_strips_trailing_quote_and_keeps_dash_bytes_zero() {
    let line = r#"host.example.com - - [25/Jul/2025:23:59:59 +0000] "GET /api HTTP/1.1" 404 -"#;
    let entry = parse_log_line(line).unwrap();
    assert_eq!(entry.host, "host.example.com");
    assert_eq!(entry.path, "/api");
    assert_eq!(entry.status, 404);
    assert_eq!(entry.bytes, 0);
}

#[test]
fn parse_rejects_missing_byte_count() {
    let line = r#"202.32.92.47 - - [01/Jun/1995:00:00:59 -0600] "GET /x" 200"#;
    assert_eq!(parse_log_line(line), None);
}

#[test]
fn parse_rejects_non_three_digit_status() {
    let short = r#"202.32.92.47 - - [01/Jun/1995:00:00:59 -0600] "GET /x" 20 271"#;
    let long = r#"202.32.92.47 - - [01/Jun/1995:00:00:59 -0600] "GET /x" 2000 271"#;
    let wordy = r#"202.32.92.47 - - [01/Jun/1995:00:00:59 -0600] "GET /x" abc 271"#;
    assert_eq!(parse_log_line(short), None);
    assert_eq!(parse_log_line(long), None);
    assert_eq!(parse_log_line(wordy), None);
}

#[test]
fn parse_rejects_bad_month_name() {
    let line = r#"h - - [01/Juz/1995:00:00:59 -0600] "GET /x" 200 271"#;
    assert_eq!(parse_log_line(line), None);
}

#[test]
fn parse_rejects_out_of_range_calendar_fields() {
    let bad_day = r#"h - - [31/Feb/1995:00:00:59 -0600] "GET /x" 200 271"#;
    let bad_hour = r#"h - - [01/Jun/1995:24:00:59 -0600] "GET /x" 200 271"#;
    let bad_min = r#"h - - [01/Jun/1995:00:60:59 -0600] "GET /x" 200 271"#;
    let bad_sec = r#"h - - [01/Jun/1995:00:00:60 -0600] "GET /x" 200 271"#;
    assert_eq!(parse_log_line(bad_day), None);
    assert_eq!(parse_log_line(bad_hour), None);
    assert_eq!(parse_log_line(bad_min), None);
    assert_eq!(parse_log_line(bad_sec), None);
}

#[test]
fn parse_rejects_broken_brackets_and_bytes() {
    let no_open = r#"h - - 01/Jun/1995:00:00:59 -0600] "GET /x" 200 271"#;
    let no_close = r#"h - - [01/Jun/1995:00:00:59 -0600 "GET /x" 200 271"#;
    let bad_bytes = r#"h - - [01/Jun/1995:00:00:59 -0600] "GET /x" 200 axe"#;
    assert_eq!(parse_log_line(no_open), None);
    assert_eq!(parse_log_line(no_close), None);
    assert_eq!(parse_log_line(bad_bytes), None);
}

#[test]
fn parse_accepts_leap_day() {
    let line = r#"h - - [29/Feb/2024:12:30:00 +0000] "GET /x" 200 1"#;
    let entry = parse_log_line(line).unwrap();
    let expected = Utc.with_ymd_and_hms(2024, 2, 29, 12, 30, 0).unwrap();
    assert_eq!(entry.timestamp, expected.timestamp());

    let not_leap = r#"h - - [29/Feb/2023:12:30:00 +0000] "GET /x" 200 1"#;
    assert_eq!(parse_log_line(not_leap), None);
}

#[test]
fn parse_honours_positive_offsets_with_minutes() {
    let line = r#"h - - [01/Jun/1995:06:30:59 +0530] "GET /x" 200 1"#;
    let entry = parse_log_line(line).unwrap();
    // 01:00:59 UTC
    assert_eq!(entry.timestamp, 801968459);
}

#[test]
fn timestamp_truncates_to_hour() {
    let a = Utc.with_ymd_and_hms(2024, 5, 6, 7, 0, 0).unwrap();
    let b = Utc.with_ymd_and_hms(2024, 5, 6, 7, 59, 59).unwrap();
    let c = Utc.with_ymd_and_hms(2024, 5, 6, 8, 0, 0).unwrap();
    let ta = Timestamp::from_unix_seconds(a.timestamp());
    let tb = Timestamp::from_unix_seconds(b.timestamp());
    let tc = Timestamp::from_unix_seconds(c.timestamp());
    assert_eq!(ta, tb);
    assert_ne!(tb, tc);
    assert_eq!(ta.unix_seconds(), a.timestamp());
}

#[test]
fn timestamp_calendar_fields_round_trip() {
    let ts = Timestamp::from_unix_seconds(801986459);
    let civil = ts.into_utc();
    assert_eq!(civil.year, 1995);
    assert_eq!(civil.month, 6);
    assert_eq!(civil.day, 1);
    assert_eq!(civil.hour, 6);
    assert_eq!(ts.unix_seconds(), 801986400);

    let epoch = Timestamp::from_unix_seconds(59);
    let civil = epoch.into_utc();
    assert_eq!((civil.year, civil.month, civil.day, civil.hour), (1970, 1, 1, 0));
}

#[test]
fn hour_label_is_padded_utc() {
    let ts = Timestamp::from_unix_seconds(801986459);
    assert_eq!(format_hour_label(ts), "1995060106");
    let early = Utc.with_ymd_and_hms(999, 1, 2, 3, 0, 0).unwrap();
    let ts = Timestamp::from_unix_seconds(early.timestamp());
    assert_eq!(format_hour_label(ts), "0999010203");
}
