//! The published series that an export request fills, and the text
//! exposition rendering that a scrape handler writes out.

use vstd::prelude::*;
use crate::fmt::{dec_digits, escape_label, escape_label_x, fmt_u64, push_char};

verus! {

/// The bounded set of published series: counters labelled by status,
/// path and host, and a gauge labelled by host and hour.
pub struct PromMetrics {
    pub event_counts: Vec<(String, u64)>,
    pub path_hits: Vec<(String, u64)>,
    pub host_hits: Vec<(String, u64)>,
    pub bytes_per_hour_per_host: Vec<(String, String, u64)>,
}

/// The view of a labelled series list.
pub open spec fn series_view(s: Seq<(String, u64)>) -> Seq<(Seq<char>, u64)> {
    s.map_values(|p: (String, u64)| (p.0@, p.1))
}

/// The view of a two-label series list.
pub open spec fn series2_view(s: Seq<(String, String, u64)>) -> Seq<(Seq<char>, Seq<char>, u64)> {
    s.map_values(|p: (String, String, u64)| (p.0@, p.1@, p.2))
}

impl PromMetrics {
    /// An empty registry: no series published yet.
    pub fn new() -> (r: PromMetrics)
        ensures
            r.event_counts@ == Seq::<(String, u64)>::empty(),
            r.path_hits@ == Seq::<(String, u64)>::empty(),
            r.host_hits@ == Seq::<(String, u64)>::empty(),
            r.bytes_per_hour_per_host@ == Seq::<(String, String, u64)>::empty(),
    {
        PromMetrics {
            event_counts: Vec::new(),
            path_hits: Vec::new(),
            host_hits: Vec::new(),
            bytes_per_hour_per_host: Vec::new(),
        }
    }
}

/// One line of a one-label series: `name{label="value"} count`.
pub open spec fn series_line(name: Seq<char>, label: Seq<char>, v: (Seq<char>, u64)) -> Seq<char> {
    name + seq!['{'] + label + seq!['=', '"'] + escape_label(v.0) + seq!['"', '}', ' ']
        + dec_digits(v.1 as int) + seq!['\n']
}

/// The lines of a one-label series list.
pub open spec fn series_lines(name: Seq<char>, label: Seq<char>, s: Seq<(Seq<char>, u64)>) -> Seq<
    char,
>
    decreases s.len(),
{
    if s.len() == 0 {
        Seq::empty()
    } else {
        series_lines(name, label, s.drop_last()) + series_line(name, label, s.last())
    }
}

/// One line of the two-label gauge: `name{host="h",hour="l"} value`.
pub open spec fn gauge_line(name: Seq<char>, v: (Seq<char>, Seq<char>, u64)) -> Seq<char> {
    name + seq!['{'] + "host"@ + seq!['=', '"'] + escape_label(v.0) + seq!['"', ','] + "hour"@
        + seq!['=', '"'] + escape_label(v.1) + seq!['"', '}', ' '] + dec_digits(v.2 as int)
        + seq!['\n']
}

/// The lines of the two-label gauge series list.
pub open spec fn gauge_lines(name: Seq<char>, s: Seq<(Seq<char>, Seq<char>, u64)>) -> Seq<char>
    decreases s.len(),
{
    if s.len() == 0 {
        Seq::empty()
    } else {
        gauge_lines(name, s.drop_last()) + gauge_line(name, s.last())
    }
}

/// The header lines of a family: `# HELP` and `# TYPE`.
pub open spec fn family_header(name: Seq<char>, help: Seq<char>, kind: Seq<char>) -> Seq<char> {
    "# HELP "@ + name + seq![' '] + help + seq!['\n'] + "# TYPE "@ + name + seq![' '] + kind
        + seq!['\n']
}

/// A whole family block; a family with no series prints nothing.
pub open spec fn family_block(
    name: Seq<char>,
    help: Seq<char>,
    kind: Seq<char>,
    label: Seq<char>,
    s: Seq<(Seq<char>, u64)>,
) -> Seq<char> {
    if s.len() == 0 {
        Seq::empty()
    } else {
        family_header(name, help, kind) + series_lines(name, label, s)
    }
}

/// The gauge family block.
pub open spec fn gauge_block(
    name: Seq<char>,
    help: Seq<char>,
    s: Seq<(Seq<char>, Seq<char>, u64)>,
) -> Seq<char> {
    if s.len() == 0 {
        Seq::empty()
    } else {
        family_header(name, help, "gauge"@) + gauge_lines(name, s)
    }
}

/// The full text exposition of a registry: the families in name order.
pub open spec fn spec_render(m: PromMetrics) -> Seq<char> {
    family_block(
        "event_count"@,
        "Number of HTTP status code events"@,
        "counter"@,
        "status"@,
        series_view(m.event_counts@),
    ) + family_block(
        "host_hits"@,
        "Hits per host"@,
        "counter"@,
        "host"@,
        series_view(m.host_hits@),
    ) + gauge_block(
        "host_hour_bytes"@,
        "Bytes served per hour per host"@,
        series2_view(m.bytes_per_hour_per_host@),
    ) + family_block(
        "path_hits"@,
        "Hits per path"@,
        "counter"@,
        "path"@,
        series_view(m.path_hits@),
    )
}

fn append_series_lines(out: &mut String, name: &str, label: &str, s: &Vec<(String, u64)>)
    ensures
        final(out)@ == old(out)@ + series_lines(name@, label@, series_view(s@)),
{
    let ghost base = out@;
    let ghost model = series_view(s@);
    let mut i: usize = 0;
    proof {
        assert(series_lines(name@, label@, model.take(0)) =~= Seq::<char>::empty());
        assert(out@ =~= base + series_lines(name@, label@, model.take(0)));
    }
    while i < s.len()
        invariant
            0 <= i <= s@.len(),
            model == series_view(s@),
            model.len() == s@.len(),
            out@ == base + series_lines(name@, label@, model.take(i as int)),
        decreases s@.len() - i,
    {
        out.append(name);
        push_char(out, '{');
        out.append(label);
        push_char(out, '=');
        push_char(out, '"');
        let esc = escape_label_x(s[i].0.as_str());
        out.append(esc.as_str());
        push_char(out, '"');
        push_char(out, '}');
        push_char(out, ' ');
        let num = fmt_u64(s[i].1);
        out.append(num.as_str());
        push_char(out, '\n');
        proof {
            assert(model[i as int] == (s@[i as int].0@, s@[i as int].1));
            assert(model.take(i + 1).drop_last() =~= model.take(i as int));
            assert(model.take(i + 1).last() == model[i as int]);
            assert(out@ =~= base + series_lines(name@, label@, model.take(i + 1)));
        }
        i = i + 1;
    }
    proof {
        assert(model.take(i as int) =~= model);
    }
}

fn append_gauge_lines(out: &mut String, name: &str, s: &Vec<(String, String, u64)>)
    ensures
        final(out)@ == old(out)@ + gauge_lines(name@, series2_view(s@)),
{
    let ghost base = out@;
    let ghost model = series2_view(s@);
    let mut i: usize = 0;
    proof {
        assert(gauge_lines(name@, model.take(0)) =~= Seq::<char>::empty());
        assert(out@ =~= base + gauge_lines(name@, model.take(0)));
    }
    while i < s.len()
        invariant
            0 <= i <= s@.len(),
            model == series2_view(s@),
            model.len() == s@.len(),
            out@ == base + gauge_lines(name@, model.take(i as int)),
        decreases s@.len() - i,
    {
        out.append(name);
        push_char(out, '{');
        out.append("host");
        push_char(out, '=');
        push_char(out, '"');
        let esc = escape_label_x(s[i].0.as_str());
        out.append(esc.as_str());
        push_char(out, '"');
        push_char(out, ',');
        out.append("hour");
        push_char(out, '=');
        push_char(out, '"');
        let esc2 = escape_label_x(s[i].1.as_str());
        out.append(esc2.as_str());
        push_char(out, '"');
        push_char(out, '}');
        push_char(out, ' ');
        let num = fmt_u64(s[i].2);
        out.append(num.as_str());
        push_char(out, '\n');
        proof {
            assert(model[i as int] == (s@[i as int].0@, s@[i as int].1@, s@[i as int].2));
            assert(model.take(i + 1).drop_last() =~= model.take(i as int));
            assert(model.take(i + 1).last() == model[i as int]);
            assert(out@ =~= base + gauge_lines(name@, model.take(i + 1)));
        }
        i = i + 1;
    }
    proof {
        assert(model.take(i as int) =~= model);
    }
}

fn append_header(out: &mut String, name: &str, help: &str, kind: &str)
    ensures
        final(out)@ == old(out)@ + family_header(name@, help@, kind@),
{
    out.append("# HELP ");
    out.append(name);
    push_char(out, ' ');
    out.append(help);
    push_char(out, '\n');
    out.append("# TYPE ");
    out.append(name);
    push_char(out, ' ');
    out.append(kind);
    push_char(out, '\n');
    proof {
        assert(out@ =~= old(out)@ + family_header(name@, help@, kind@));
    }
}

impl PromMetrics {
    /// Writes the registry in the text exposition format: `# HELP` and
    /// `# TYPE` header lines per family, then one line per label set.
    #[verifier::rlimit(60)]
    pub fn render(&self) -> (r: String)
        ensures
            r@ == spec_render(*self),
    {
        let ghost b1 = family_block(
            "event_count"@,
            "Number of HTTP status code events"@,
            "counter"@,
            "status"@,
            series_view(self.event_counts@),
        );
        let ghost b2 = family_block(
            "host_hits"@,
            "Hits per host"@,
            "counter"@,
            "host"@,
            series_view(self.host_hits@),
        );
        let ghost b3 = gauge_block(
            "host_hour_bytes"@,
            "Bytes served per hour per host"@,
            series2_view(self.bytes_per_hour_per_host@),
        );
        let ghost b4 = family_block(
            "path_hits"@,
            "Hits per path"@,
            "counter"@,
            "path"@,
            series_view(self.path_hits@),
        );
        let mut out = String::new();
        if self.event_counts.len() > 0 {
            append_header(&mut out, "event_count", "Number of HTTP status code events", "counter");
            append_series_lines(&mut out, "event_count", "status", &self.event_counts);
        }
        proof {
            if self.event_counts@.len() == 0 {
                assert(series_view(self.event_counts@).len() == 0);
            }
            assert(out@ =~= b1);
        }
        if self.host_hits.len() > 0 {
            append_header(&mut out, "host_hits", "Hits per host", "counter");
            append_series_lines(&mut out, "host_hits", "host", &self.host_hits);
        }
        proof {
            if self.host_hits@.len() == 0 {
                assert(series_view(self.host_hits@).len() == 0);
            }
            assert(out@ =~= b1 + b2);
        }
        if self.bytes_per_hour_per_host.len() > 0 {
            append_header(&mut out, "host_hour_bytes", "Bytes served per hour per host", "gauge");
            append_gauge_lines(&mut out, "host_hour_bytes", &self.bytes_per_hour_per_host);
        }
        proof {
            if self.bytes_per_hour_per_host@.len() == 0 {
                assert(series2_view(self.bytes_per_hour_per_host@).len() == 0);
            }
            assert(out@ =~= b1 + b2 + b3);
        }
        if self.path_hits.len() > 0 {
            append_header(&mut out, "path_hits", "Hits per path", "counter");
            append_series_lines(&mut out, "path_hits", "path", &self.path_hits);
        }
        proof {
            if self.path_hits@.len() == 0 {
                assert(series_view(self.path_hits@).len() == 0);
            }
            assert(out@ =~= b1 + b2 + b3 + b4);
            assert(spec_render(*self) == b1 + b2 + b3 + b4);
        }
        out
    }
}

} // verus!
