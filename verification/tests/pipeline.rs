use log_analyzer::analytics::Analytics;
use log_analyzer::args::{CliArgs, LogFormat};
use log_analyzer::generator::{generate_apache_log, generate_json_log};
use log_analyzer::prometheus::PromMetrics;
use log_analyzer::worker::{Batcher, Metric};
use log_analyzer::Event;

fn line(host: &str, hhmmss: &str, path: &str, status: u16, bytes: u64) -> String {
    format!("{host} - - [01/Jun/1995:{hhmmss} +0000] \"GET {path} HTTP/1.1\" {status} {bytes}")
}

#[test]
fn event_round_trips_through_status_codes() {
    for status in [200u16, 301, 404, 500] {
        let e = Event::try_from_status(status).unwrap();
        assert_eq!(e.to_status(), status);
    }
    assert_eq!(Event::try_from_status(201), None);
    assert_eq!(Event::try_from_status(0), None);
}

#[test]
fn batch_flushes_at_size_threshold() {
    let mut batcher = Batcher::new(5);
    let chunk = format!("{}\n{}", line("a", "10:00:00", "/x", 200, 1), line("b", "11:00:00", "/y", 404, 2));
    let batches = batcher.on_chunk(&chunk);
    // each parsed record fills the five-fact threshold at once
    assert_eq!(batches.len(), 2);
    assert_eq!(batches[0].len(), 5);
    assert_eq!(batches[1].len(), 5);
    assert!(batcher.on_timer().is_none());
}

#[test]
fn batch_waits_below_threshold() {
    let mut batcher = Batcher::new(7);
    let chunk = format!("{}\n{}", line("a", "10:00:00", "/x", 200, 1), line("b", "11:00:00", "/y", 404, 2));
    let batches = batcher.on_chunk(&chunk);
    // the second record pushes the buffer to ten facts, past the threshold
    assert_eq!(batches.len(), 1);
    assert_eq!(batches[0].len(), 10);
}

#[test]
fn timer_flushes_partial_buffer() {
    let mut batcher = Batcher::new(1000);
    let batches = batcher.on_chunk(&line("a", "10:00:00", "/x", 200, 1));
    assert!(batches.is_empty());
    // the flush interval elapses with only one record buffered
    let flushed = batcher.on_timer().expect("timer must flush a non-empty buffer");
    assert_eq!(flushed.len(), 5);
    assert!(batcher.on_timer().is_none());
}

#[test]
fn close_flushes_remaining_buffer_once() {
    let mut batcher = Batcher::new(1000);
    batcher.on_chunk(&line("a", "10:00:00", "/x", 200, 1));
    let flushed = batcher.on_close().expect("end of input must flush");
    assert_eq!(flushed.len(), 5);
    assert!(batcher.on_close().is_none());
}

#[test]
fn malformed_lines_change_nothing() {
    let mut batcher = Batcher::new(1000);
    let chunk = "garbage\n\nnot a log line\n";
    let batches = batcher.on_chunk(chunk);
    assert!(batches.is_empty());
    assert!(batcher.on_timer().is_none());
}

#[test]
fn facts_are_emitted_in_fixed_order() {
    let mut batcher = Batcher::new(5);
    let batches = batcher.on_chunk(&line("a", "10:00:00", "/x", 200, 7));
    let batch = &batches[0];
    assert!(matches!(batch[0], Metric::Event(200)));
    assert!(matches!(batch[1], Metric::Path(_)));
    assert!(matches!(batch[2], Metric::Host(_)));
    assert!(matches!(batch[3], Metric::Hit(_)));
    assert!(matches!(batch[4], Metric::HostBytes { bytes: 7, .. }));
}

#[test]
fn end_to_end_three_hours_for_one_host() {
    let mut batcher = Batcher::new(1_000_000);
    let chunk = [
        line("alpha", "10:00:01", "/x", 200, 100),
        line("alpha", "10:30:00", "/x", 200, 50),
        line("alpha", "11:00:01", "/y", 200, 200),
        line("alpha", "12:00:01", "/z", 200, 300),
    ]
    .join("\n");
    let mut analytics = Analytics::default();
    for batch in batcher.on_chunk(&chunk) {
        analytics.apply_batch(&batch);
    }
    if let Some(batch) = batcher.on_close() {
        analytics.apply_batch(&batch);
    }

    let mut metrics = PromMetrics::new();
    analytics.export_to_prometheus(&mut metrics);
    let alpha: Vec<_> = metrics
        .bytes_per_hour_per_host
        .iter()
        .filter(|(h, _, _)| h == "alpha")
        .collect();
    assert_eq!(alpha.len(), 3);
    // most recent hour first, byte values are the per-hour sums
    assert_eq!(*alpha[0], ("alpha".to_string(), "1995060112".to_string(), 300));
    assert_eq!(*alpha[1], ("alpha".to_string(), "1995060111".to_string(), 200));
    assert_eq!(*alpha[2], ("alpha".to_string(), "1995060110".to_string(), 150));

    assert_eq!(metrics.event_counts, vec![("200".to_string(), 4)]);
    assert_eq!(metrics.host_hits, vec![("alpha".to_string(), 4)]);
}

#[test]
fn export_caps_hosts_and_hours() {
    let mut analytics = Analytics::default();
    let base = 801964800i64; // 1995-06-01T00:00:00Z
    for h in 0..8 {
        let host = format!("host{h}");
        for hour in 0..6 {
            let ts = log_analyzer::timestamp::Timestamp::from_unix_seconds(base + hour * 3600);
            analytics.record_host_hour_bytes(&host, ts, (h + 1) as u64);
        }
    }
    let mut metrics = PromMetrics::new();
    analytics.export_to_prometheus(&mut metrics);
    // five hosts with the largest totals, four most recent hours each
    let hosts: Vec<_> = metrics
        .bytes_per_hour_per_host
        .iter()
        .map(|(h, _, _)| h.clone())
        .collect();
    assert_eq!(metrics.bytes_per_hour_per_host.len(), 20);
    assert!(!hosts.contains(&"host0".to_string()));
    assert!(!hosts.contains(&"host1".to_string()));
    assert!(!hosts.contains(&"host2".to_string()));
    assert!(hosts.contains(&"host7".to_string()));
}

#[test]
fn render_writes_exposition_format() {
    let mut analytics = Analytics::default();
    analytics.record_event(200);
    analytics.record_host("h");
    analytics.record_path("/a");
    let ts = log_analyzer::timestamp::Timestamp::from_unix_seconds(801986459);
    analytics.record_host_hour_bytes("h", ts, 271);
    let mut metrics = PromMetrics::new();
    analytics.export_to_prometheus(&mut metrics);
    let text = metrics.render();
    let expected = "# HELP event_count Number of HTTP status code events\n# TYPE event_count counter\nevent_count{status=\"200\"} 1\n# HELP host_hits Hits per host\n# TYPE host_hits counter\nhost_hits{host=\"h\"} 1\n# HELP host_hour_bytes Bytes served per hour per host\n# TYPE host_hour_bytes gauge\nhost_hour_bytes{host=\"h\",hour=\"1995060106\"} 271\n# HELP path_hits Hits per path\n# TYPE path_hits counter\npath_hits{path=\"/a\"} 1\n";
    assert_eq!(text, expected);
}

#[test]
fn render_escapes_label_values() {
    let mut metrics = PromMetrics::new();
    metrics.path_hits.push(("/a\"b\\c\nd".to_string(), 1));
    let text = metrics.render();
    assert_eq!(
        text,
        "# HELP path_hits Hits per path\n# TYPE path_hits counter\npath_hits{path=\"/a\\\"b\\\\c\\nd\"} 1\n"
    );
}

#[test]
fn render_skips_empty_families() {
    let metrics = PromMetrics::new();
    assert_eq!(metrics.render(), "");
}

#[test]
fn generates_apache_lines_that_parse_back() {
    let text = generate_apache_log(7, 9, "01/Jun/1995:00:00:59 -0600", 0, 20, 0, 512);
    assert_eq!(
        text,
        "192.168.7.9 - - [01/Jun/1995:00:00:59 -0600] \"GET /api HTTP/1.1\" 200 512"
    );
    let entry = log_analyzer::parse::parse_log_line(&text).unwrap();
    assert_eq!(entry.host, "192.168.7.9");
    assert_eq!(entry.status, 200);
    assert_eq!(entry.bytes, 512);
}

#[test]
fn weighted_choices_follow_cumulative_bounds() {
    let text = generate_apache_log(0, 0, "t", 9, 104, 144, 0);
    assert_eq!(text, "192.168.0.0 - - [t] \"DELETE gallery HTTP/1.1\" 500 0");
    let text = generate_apache_log(0, 0, "t", 6, 10, 50, 0);
    assert_eq!(text, "192.168.0.0 - - [t] \"POST /login HTTP/1.1\" 201 0");
}

#[test]
fn generates_json_lines() {
    let text = generate_json_log("2025-07-25T23:59:59Z", 0, 35, 4);
    assert_eq!(
        text,
        "{\"ts\":\"2025-07-25T23:59:59Z\",\"service\":\"auth\",\"level\":\"ERROR\",\"msg\":\"User logged in\"}"
    );
}

#[test]
fn cli_args_hand_back_their_fields() {
    let args = CliArgs::new(
        "nats://127.0.0.1:4222".to_string(),
        "logs".to_string(),
        10,
        10000,
        LogFormat::Apache,
        "server.log".to_string(),
    );
    assert_eq!(args.nats_url().as_str(), "nats://127.0.0.1:4222");
    assert_eq!(args.subject().as_str(), "logs");
    assert_eq!(args.rate(), 10);
    assert_eq!(args.batch_size(), 10000);
    assert_eq!(args.format(), LogFormat::Apache);
    assert_eq!(args.log_file().as_str(), "server.log");
}
