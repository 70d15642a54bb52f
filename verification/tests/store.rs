use chrono::{Duration, TimeZone, Utc};
use log_analyzer::analytics::Analytics;
use log_analyzer::timestamp::Timestamp;

#[test]
fn record_event_counts_correctly() {
    let mut analytics = Analytics::default();
    analytics.record_event(200);
    analytics.record_event(200);
    analytics.record_event(404);

    let freq = analytics.event_frequency();
    assert_eq!(freq.get(&200), Some(&2));
    assert_eq!(freq.get(&404), Some(&1));
}

#[test]
fn record_path_counts() {
    let mut analytics = Analytics::default();
    analytics.record_path("/foo");
    analytics.record_path("/bar");
    analytics.record_path("/foo");

    let paths = analytics.top_path_frequency(2);
    assert_eq!(paths[0], ("/foo".to_string(), 2));
    assert_eq!(paths[1], ("/bar".to_string(), 1));
}

#[test]
fn record_host_hour_bytes_counts() {
    let mut analytics = Analytics::default();
    let ts = Utc.with_ymd_and_hms(2024, 1, 1, 12, 0, 0).unwrap();
    let key = Timestamp::from_unix_seconds(ts.timestamp());
    analytics.record_host_hour_bytes("host1", key, 100);
    analytics.record_host_hour_bytes("host1", key, 200);

    let result = analytics.bytes_per_hour_per_host();
    assert!(result.contains(&("host1".to_string(), vec![(key, 300)])));
}

#[test]
fn record_host_hour_bytes_doesnt_eat_ram() {
    let mut analytics = Analytics::default();
    let ts = Utc.with_ymd_and_hms(2024, 1, 1, 12, 0, 0).unwrap();
    for i in 0..1000 {
        let ts = ts + Duration::hours(i);
        analytics.record_host_hour_bytes("host1", Timestamp::from_unix_seconds(ts.timestamp()), 200);
    }

    let result = &analytics.bytes_per_hour_per_host()[0].1;
    assert!(result.len() <= 6);
}

#[test]
fn unmapped_codes_never_appear() {
    let mut analytics = Analytics::default();
    analytics.record_event(418);
    analytics.record_event(302);
    analytics.record_event(200);
    analytics.record_event(418);

    let freq = analytics.event_frequency();
    assert_eq!(freq.len(), 1);
    assert_eq!(freq.get(&200), Some(&1));
    assert_eq!(freq.get(&418), None);
}

#[test]
fn event_frequency_only_lists_recorded_events() {
    let analytics = Analytics::default();
    assert!(analytics.event_frequency().is_empty());

    let mut analytics = Analytics::default();
    analytics.record_event(500);
    let freq = analytics.event_frequency();
    assert_eq!(freq.get(&500), Some(&1));
    assert_eq!(freq.get(&200), None);
}

#[test]
fn top_paths_sorted_and_capped() {
    let mut analytics = Analytics::default();
    for _ in 0..3 {
        analytics.record_path("/a");
    }
    for _ in 0..5 {
        analytics.record_path("/b");
    }
    analytics.record_path("/c");

    let top = analytics.top_path_frequency(2);
    assert_eq!(top.len(), 2);
    assert_eq!(top[0], ("/b".to_string(), 5));
    assert_eq!(top[1], ("/a".to_string(), 3));

    let all = analytics.top_path_frequency(10);
    assert_eq!(all.len(), 3);
    assert!(all[0].1 >= all[1].1 && all[1].1 >= all[2].1);
}

#[test]
fn path_map_evicts_least_recently_used() {
    let mut analytics = Analytics::default();
    for i in 0..11 {
        analytics.record_path(&format!("/path{i}"));
    }
    let top = analytics.top_path_frequency(100);
    assert_eq!(top.len(), 10);
    // the first path was the least recently touched and left the map
    assert!(!top.iter().any(|(p, _)| p == "/path0"));
    assert!(top.iter().any(|(p, _)| p == "/path10"));
}

#[test]
fn hour_hits_bounded_by_capacity() {
    let mut analytics = Analytics::default();
    let base = Utc.with_ymd_and_hms(2024, 1, 1, 0, 0, 0).unwrap();
    for i in 0..1000 {
        let ts = base + Duration::hours(i);
        analytics.record_hour_hit(Timestamp::from_unix_seconds(ts.timestamp()));
    }
    assert!(analytics.hour_hits().len() <= 6);
}

#[test]
fn hour_hits_counts_same_hour_once() {
    let mut analytics = Analytics::default();
    let base = Utc.with_ymd_and_hms(2024, 1, 1, 5, 10, 0).unwrap();
    let later = Utc.with_ymd_and_hms(2024, 1, 1, 5, 59, 59).unwrap();
    analytics.record_hour_hit(Timestamp::from_unix_seconds(base.timestamp()));
    analytics.record_hour_hit(Timestamp::from_unix_seconds(later.timestamp()));

    let hits = analytics.hour_hits();
    assert_eq!(hits.len(), 1);
    assert_eq!(hits[0].1, 2);
}

#[test]
fn host_counts_accumulate_unbounded() {
    let mut analytics = Analytics::default();
    for i in 0..50 {
        analytics.record_host(&format!("host{i}"));
    }
    analytics.record_host("host7");
    let mut metrics = log_analyzer::prometheus::PromMetrics::new();
    analytics.export_to_prometheus(&mut metrics);
    // the top ten hosts by count, host7 leading with two hits
    assert_eq!(metrics.host_hits.len(), 10);
    assert_eq!(metrics.host_hits[0], ("host7".to_string(), 2));
}

#[test]
fn truncates_long_paths_to_hundred_chars() {
    let mut analytics = Analytics::default();
    let long = "/".repeat(150);
    analytics.record_path(&long);
    let top = analytics.top_path_frequency(1);
    assert_eq!(top[0].0.chars().count(), 100);
    assert_eq!(top[0].1, 1);
}
