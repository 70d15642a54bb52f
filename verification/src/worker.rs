//! The batching stage: raw multi-line chunks are split into lines, each
//! line parsed, and each valid record exploded into five metric facts in
//! a fixed order. The buffer is handed off when it reaches the size
//! threshold; the flush timer and end of input hand off whatever is
//! buffered.

use vstd::prelude::*;
use crate::models::{LogEntry, LogEntryView};
use crate::parse::{parse_log_line, spec_parse_log_line, lemma_parsed_timestamp_in_range};
use crate::timestamp::Timestamp;

verus! {

/// One atomic, independently applicable aggregation update.
pub enum Metric {
    Event(u16),
    Path(String),
    Host(String),
    Hit(Timestamp),
    HostBytes { host: String, timestamp: Timestamp, bytes: u64 },
}

/// The mathematical shape of a metric fact.
pub ghost enum MetricView {
    Event(u16),
    Path(Seq<char>),
    Host(Seq<char>),
    Hit(Timestamp),
    HostBytes { host: Seq<char>, timestamp: Timestamp, bytes: u64 },
}

impl View for Metric {
    type V = MetricView;

    open spec fn view(&self) -> MetricView {
        match self {
            Metric::Event(c) => MetricView::Event(*c),
            Metric::Path(p) => MetricView::Path(p@),
            Metric::Host(h) => MetricView::Host(h@),
            Metric::Hit(t) => MetricView::Hit(*t),
            Metric::HostBytes { host, timestamp, bytes } => MetricView::HostBytes {
                host: host@,
                timestamp: *timestamp,
                bytes: *bytes,
            },
        }
    }
}

/// The views of a buffer of metric facts.
pub open spec fn metrics_view(s: Seq<Metric>) -> Seq<MetricView> {
    s.map_values(|m: Metric| m@)
}

/// The five facts one parsed record explodes into, in their fixed order.
pub open spec fn facts_of(e: LogEntryView) -> Seq<MetricView> {
    seq![
        MetricView::Event(e.status),
        MetricView::Path(e.path),
        MetricView::Host(e.host),
        MetricView::Hit(Timestamp::spec_from_unix(e.timestamp)),
        MetricView::HostBytes {
            host: e.host,
            timestamp: Timestamp::spec_from_unix(e.timestamp),
            bytes: e.bytes,
        },
    ]
}

/// The facts one raw line contributes: five for a parsed record, none
/// for a rejected line.
pub open spec fn record_facts(l: Seq<char>) -> Seq<MetricView> {
    match spec_parse_log_line(l) {
        Some(e) => facts_of(e),
        None => Seq::empty(),
    }
}

/// The first newline at or after `i`, or the end.
pub open spec fn find_nl(s: Seq<char>, i: int) -> int
    decreases s.len() - i,
{
    if i < 0 || i >= s.len() {
        i
    } else if s[i] == '\n' {
        i
    } else {
        find_nl(s, i + 1)
    }
}

proof fn lemma_find_nl_props(s: Seq<char>, i: int)
    requires
        0 <= i <= s.len(),
    ensures
        i <= find_nl(s, i) <= s.len(),
    decreases s.len() - i,
{
    if i < s.len() && s[i] != '\n' {
        lemma_find_nl_props(s, i + 1);
    }
}

/// The non-empty lines of the text from position `i` on, split at
/// newlines.
pub open spec fn lines_from(s: Seq<char>, i: int) -> Seq<Seq<char>>
    decreases s.len() - i,
    via lines_from_decreases
{
    if i < 0 || i >= s.len() {
        Seq::empty()
    } else {
        let e = find_nl(s, i);
        let rest = if e >= s.len() {
            Seq::<Seq<char>>::empty()
        } else {
            lines_from(s, e + 1)
        };
        if e > i {
            seq![s.subrange(i, e)] + rest
        } else {
            rest
        }
    }
}

#[via_fn]
proof fn lines_from_decreases(s: Seq<char>, i: int) {
    if 0 <= i && i < s.len() {
        lemma_find_nl_props(s, i);
    }
}

/// What running the stage over a list of lines does to a buffer: each
/// line's facts are appended; whenever a parsed record fills the buffer
/// to the threshold, the buffer is emitted as one batch and replaced.
pub open spec fn run_lines(buf: Seq<MetricView>, lines: Seq<Seq<char>>, thr: int) -> (
    Seq<Seq<MetricView>>,
    Seq<MetricView>,
)
    decreases lines.len(),
{
    if lines.len() == 0 {
        (Seq::empty(), buf)
    } else {
        let b1 = buf + record_facts(lines[0]);
        if spec_parse_log_line(lines[0]) is Some && b1.len() >= thr {
            let (bs, bf) = run_lines(Seq::empty(), lines.drop_first(), thr);
            (seq![b1] + bs, bf)
        } else {
            run_lines(b1, lines.drop_first(), thr)
        }
    }
}

proof fn lemma_run_lines_snoc(buf: Seq<MetricView>, lines: Seq<Seq<char>>, l: Seq<char>, thr: int)
    ensures
        run_lines(buf, lines.push(l), thr) == ({
            let (bs, bf) = run_lines(buf, lines, thr);
            let b1 = bf + record_facts(l);
            if spec_parse_log_line(l) is Some && b1.len() >= thr {
                (bs.push(b1), Seq::<MetricView>::empty())
            } else {
                (bs, b1)
            }
        }),
    decreases lines.len(),
{
    reveal_with_fuel(run_lines, 3);
    let ext = lines.push(l);
    let lhs = run_lines(buf, ext, thr);
    let prev = run_lines(buf, lines, thr);
    let b1t = prev.1 + record_facts(l);
    if lines.len() == 0 {
        assert(ext[0] == l);
        assert(ext.drop_first() =~= Seq::<Seq<char>>::empty());
        assert(prev == (Seq::<Seq<MetricView>>::empty(), buf));
        if spec_parse_log_line(l) is Some && b1t.len() >= thr {
            assert(lhs.0 =~= prev.0.push(b1t));
            assert(lhs.1 =~= Seq::<MetricView>::empty());
        }
    } else {
        assert(ext[0] == lines[0]);
        assert(ext.drop_first() =~= lines.drop_first().push(l));
        let b1 = buf + record_facts(lines[0]);
        if spec_parse_log_line(lines[0]) is Some && b1.len() >= thr {
            lemma_run_lines_snoc(Seq::empty(), lines.drop_first(), l, thr);
            let sub_prev = run_lines(Seq::empty(), lines.drop_first(), thr);
            assert(prev == (seq![b1] + sub_prev.0, sub_prev.1));
            let b2 = sub_prev.1 + record_facts(l);
            if spec_parse_log_line(l) is Some && b2.len() >= thr {
                assert(lhs.0 =~= prev.0.push(b2));
                assert(lhs.1 =~= Seq::<MetricView>::empty());
            } else {
                assert(lhs.0 =~= prev.0);
            }
        } else {
            lemma_run_lines_snoc(b1, lines.drop_first(), l, thr);
        }
    }
}

fn find_nl_x(s: &str, i: usize, n: usize) -> (r: usize)
    requires
        n == s@.len(),
        i <= n,
    ensures
        r as int == find_nl(s@, i as int),
        i <= r <= n,
{
    let mut j = i;
    while j < n && s.get_char(j) != '\n'
        invariant
            i <= j <= n,
            n == s@.len(),
            find_nl(s@, i as int) == find_nl(s@, j as int),
        decreases n - j,
    {
        j = j + 1;
    }
    j
}

/// Splits a chunk at newlines, dropping empty lines.
fn split_nonempty_lines(chunk: &str) -> (r: Vec<String>)
    ensures
        r@.len() == lines_from(chunk@, 0).len(),
        forall|i: int|
            0 <= i < r@.len() ==> (#[trigger] r@[i])@ == lines_from(chunk@, 0)[i],
{
    let n = chunk.unicode_len();
    let mut out: Vec<String> = Vec::new();
    let mut pos: usize = 0;
    proof {
        assert(lines_from(chunk@, 0) =~= out@.map_values(|l: String| l@) + lines_from(
            chunk@,
            0,
        ));
    }
    while pos < n
        invariant
            0 <= pos <= n,
            n == chunk@.len(),
            lines_from(chunk@, 0) == out@.map_values(|l: String| l@) + lines_from(
                chunk@,
                pos as int,
            ),
        decreases n - pos,
    {
        let e = find_nl_x(chunk, pos, n);
        let ghost prev = out@;
        if e > pos {
            let piece = String::from_str(chunk.substring_char(pos, e));
            out.push(piece);
        }
        let next = if e < n {
            e + 1
        } else {
            n
        };
        proof {
            let lf = lines_from(chunk@, pos as int);
            if e > pos {
                assert(lf == seq![chunk@.subrange(pos as int, e as int)] + lines_from(
                    chunk@,
                    next as int,
                ));
                assert(out@.map_values(|l: String| l@) =~= prev.map_values(|l: String| l@)
                    + seq![chunk@.subrange(pos as int, e as int)]);
                assert(prev.map_values(|l: String| l@) + lf =~= out@.map_values(|l: String| l@)
                    + lines_from(chunk@, next as int));
            } else {
                assert(e == pos);
                assert(lf == lines_from(chunk@, next as int));
            }
        }
        pos = next;
    }
    proof {
        assert(lines_from(chunk@, pos as int) =~= Seq::<Seq<char>>::empty());
        assert(lines_from(chunk@, 0) =~= out@.map_values(|l: String| l@));
    }
    out
}

/// The batching stage's state: the fact buffer and the size threshold
/// at which a batch is handed off.
pub struct Batcher {
    buffer: Vec<Metric>,
    threshold: usize,
}

impl Batcher {
    pub closed spec fn spec_buffer(self) -> Seq<MetricView> {
        metrics_view(self.buffer@)
    }

    pub closed spec fn spec_threshold(self) -> int {
        self.threshold as int
    }

    /// A fresh stage with an empty buffer.
    pub fn new(threshold: usize) -> (r: Batcher)
        ensures
            r.spec_buffer() == Seq::<MetricView>::empty(),
            r.spec_threshold() == threshold,
    {
        let r = Batcher { buffer: Vec::new(), threshold };
        proof {
            assert(r.spec_buffer() =~= Seq::<MetricView>::empty());
        }
        r
    }

    /// Feeds one chunk of raw text: every non-empty line is parsed, each
    /// valid record appends its five facts, and each time the buffer
    /// reaches the threshold it is returned as one batch. Malformed
    /// lines change nothing.
    pub fn on_chunk(&mut self, chunk: &str) -> (batches: Vec<Vec<Metric>>)
        ensures
            ({
                let (bs, bf) = run_lines(
                    old(self).spec_buffer(),
                    lines_from(chunk@, 0),
                    old(self).spec_threshold(),
                );
                &&& final(self).spec_buffer() == bf
                &&& batches@.len() == bs.len()
                &&& forall|i: int|
                    0 <= i < bs.len() ==> metrics_view((#[trigger] batches@[i])@) == bs[i]
            }),
            final(self).spec_threshold() == old(self).spec_threshold(),
    {
        let ghost buf0 = self.spec_buffer();
        let ghost thr = self.spec_threshold();
        let ghost all_lines = lines_from(chunk@, 0);
        let lines = split_nonempty_lines(chunk);
        let mut batches: Vec<Vec<Metric>> = Vec::new();
        let mut i: usize = 0;
        proof {
            assert(all_lines.take(0) =~= Seq::<Seq<char>>::empty());
        }
        while i < lines.len()
            invariant
                0 <= i <= lines@.len(),
                lines@.len() == all_lines.len(),
                forall|t: int|
                    0 <= t < lines@.len() ==> (#[trigger] lines@[t])@ == all_lines[t],
                self.threshold as int == thr,
                ({
                    let (bs, bf) = run_lines(buf0, all_lines.take(i as int), thr);
                    &&& metrics_view(self.buffer@) == bf
                    &&& batches@.len() == bs.len()
                    &&& forall|t: int|
                        0 <= t < bs.len() ==> metrics_view((#[trigger] batches@[t])@) == bs[t]
                }),
            decreases lines@.len() - i,
        {
            let ghost pre_buf = metrics_view(self.buffer@);
            let ghost line_view = all_lines[i as int];
            let entry_opt = parse_log_line(lines[i].as_str());
            match entry_opt {
                Some(entry) => {
                    proof {
                        lemma_parsed_timestamp_in_range(line_view);
                    }
                    let ts = Timestamp::from_unix_seconds(entry.timestamp);
                    let LogEntry { host, timestamp: _, path, status, bytes } = entry;
                    self.buffer.push(Metric::Event(status));
                    self.buffer.push(Metric::Path(path));
                    self.buffer.push(Metric::Host(host.clone()));
                    self.buffer.push(Metric::Hit(ts));
                    self.buffer.push(Metric::HostBytes { host, timestamp: ts, bytes });
                    proof {
                        assert(metrics_view(self.buffer@) =~= pre_buf + record_facts(line_view));
                    }
                    if self.buffer.len() >= self.threshold {
                        let batch = self.buffer.split_off(0);
                        proof {
                            assert(metrics_view(self.buffer@) =~= Seq::<MetricView>::empty());
                            assert(metrics_view(batch@) == pre_buf + record_facts(line_view));
                        }
                        batches.push(batch);
                    }
                },
                None => {
                    proof {
                        assert(record_facts(line_view) =~= Seq::<MetricView>::empty());
                        assert(metrics_view(self.buffer@) =~= pre_buf + record_facts(line_view));
                    }
                },
            }
            proof {
                assert(all_lines.take(i + 1) =~= all_lines.take(i as int).push(line_view));
                lemma_run_lines_snoc(buf0, all_lines.take(i as int), line_view, thr);
            }
            i = i + 1;
        }
        proof {
            assert(all_lines.take(i as int) =~= all_lines);
        }
        batches
    }

    /// The flush timer fired: a non-empty buffer is handed off whole,
    /// whatever its size; an empty buffer emits nothing.
    pub fn on_timer(&mut self) -> (r: Option<Vec<Metric>>)
        ensures
            final(self).spec_threshold() == old(self).spec_threshold(),
            old(self).spec_buffer().len() == 0 ==> r is None && final(self).spec_buffer()
                == old(self).spec_buffer(),
            old(self).spec_buffer().len() > 0 ==> match r {
                Some(batch) => metrics_view(batch@) == old(self).spec_buffer()
                    && final(self).spec_buffer() == Seq::<MetricView>::empty(),
                None => false,
            },
    {
        if self.buffer.len() == 0 {
            proof {
                assert(metrics_view(self.buffer@).len() == 0);
            }
            None
        } else {
            let batch = self.buffer.split_off(0);
            proof {
                assert(metrics_view(self.buffer@) =~= Seq::<MetricView>::empty());
                assert(metrics_view(batch@) =~= old(self).spec_buffer());
            }
            Some(batch)
        }
    }

    /// The input is exhausted: any remaining buffered facts are handed
    /// off once, and the stage is done.
    pub fn on_close(&mut self) -> (r: Option<Vec<Metric>>)
        ensures
            final(self).spec_threshold() == old(self).spec_threshold(),
            old(self).spec_buffer().len() == 0 ==> r is None && final(self).spec_buffer()
                == old(self).spec_buffer(),
            old(self).spec_buffer().len() > 0 ==> match r {
                Some(batch) => metrics_view(batch@) == old(self).spec_buffer()
                    && final(self).spec_buffer() == Seq::<MetricView>::empty(),
                None => false,
            },
    {
        self.on_timer()
    }
}

} // verus!
