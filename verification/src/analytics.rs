//! The aggregation store: classified status events and the bounded
//! per-statistic counters fed by the aggregator loop.

use vstd::prelude::*;
use std::collections::HashMap;
use crate::cache::{
    cache_has_key, cache_index_of, cache_lookup, cache_put_model, cache_keys_distinct,
    lemma_cache_put_model_distinct, lemma_cache_put_model_len, lemma_cache_put_model_elements,
    lemma_cache_index_unique,
    path_cache_view, path_cache_cap, path_cache_new, path_cache_peek, path_cache_put,
    path_cache_entries, hour_cache_view, hour_cache_cap, hour_cache_new, hour_cache_peek,
    hour_cache_put, hour_cache_entries,
};
use crate::keys::{Hostname, Endpoint, truncated_path};
use crate::prometheus::PromMetrics;
use crate::timestamp::{Timestamp, MIN_UNIX_SECS, MAX_UNIX_SECS, hour_floor};

verus! {

broadcast use vstd::std_specs::hash::group_hash_axioms;

/// How many hour buckets each bounded hour map keeps.
pub const MAX_HOURS: usize = 6;

/// How many paths the bounded path map keeps.
pub const MAX_PATHS: usize = 10;

/// One of the four canonical classified outcomes derived from an HTTP
/// status code. Any other status code is unclassified and yields no event.
#[derive(Debug, Clone, Copy, PartialEq, Eq, Hash, Structural)]
pub enum Event {
    Success,
    NotFound,
    InternalError,
    Redirect,
}

impl Event {
    /// Classifies a numeric status code; only 200, 301, 404 and 500 map
    /// to an event.
    pub fn try_from_status(status: u16) -> (r: Option<Event>)
        ensures
            r == Event::spec_from_status(status),
    {
        match status {
            200u16 => Some(Event::Success),
            301u16 => Some(Event::Redirect),
            404u16 => Some(Event::NotFound),
            500u16 => Some(Event::InternalError),
            _ => None,
        }
    }

    /// The numeric status code an event stands for.
    pub fn to_status(self) -> (r: u16)
        ensures
            r == self.spec_status(),
    {
        match self {
            Event::Success => 200u16,
            Event::Redirect => 301u16,
            Event::NotFound => 404u16,
            Event::InternalError => 500u16,
        }
    }

    pub open spec fn spec_from_status(status: u16) -> Option<Event> {
        if status == 200 {
            Some(Event::Success)
        } else if status == 301 {
            Some(Event::Redirect)
        } else if status == 404 {
            Some(Event::NotFound)
        } else if status == 500 {
            Some(Event::InternalError)
        } else {
            None
        }
    }

    pub open spec fn spec_status(self) -> u16 {
        match self {
            Event::Success => 200u16,
            Event::Redirect => 301u16,
            Event::NotFound => 404u16,
            Event::InternalError => 500u16,
        }
    }
}

/// An hour key as the bounded hour maps store it: the Unix seconds of an
/// hour boundary in the representable range.
pub open spec fn is_hour_key(k: i64) -> bool {
    MIN_UNIX_SECS <= k <= MAX_UNIX_SECS && (k as int) % 3600 == 0
}

/// The key under which a timestamp is counted.
pub open spec fn hour_key(t: Timestamp) -> i64 {
    t.spec_secs() as i64
}

pub open spec fn hour_keys_wf(m: Seq<(i64, u64)>) -> bool {
    forall|i: int| 0 <= i < m.len() ==> is_hour_key((#[trigger] m[i]).0)
}

/// The count stored under a key, or zero where the key is absent.
pub open spec fn count_or_zero_usize(m: Seq<(Seq<char>, usize)>, k: Seq<char>) -> usize {
    match cache_lookup(m, k) {
        Some(c) => c,
        None => 0,
    }
}

/// The total stored under a key, or zero where the key is absent.
pub open spec fn count_or_zero_u64(m: Seq<(i64, u64)>, k: i64) -> u64 {
    match cache_lookup(m, k) {
        Some(c) => c,
        None => 0,
    }
}

/// An unbounded counting map after one more hit on `k`: the count under
/// `k` grows by one (saturating), a new key is appended with count one,
/// and the order of entries is kept.
pub open spec fn host_bump(m: Seq<(Seq<char>, usize)>, k: Seq<char>) -> Seq<(Seq<char>, usize)> {
    if cache_has_key(m, k) {
        let i = cache_index_of(m, k);
        m.update(i, (k, m[i].1.saturating_add(1)))
    } else {
        m.push((k, 1))
    }
}

/// The per-host hour totals after `b` more bytes for `(h, k)`: the
/// host's bounded hour map accumulates under `k` (saturating), touching
/// recency; an unseen host is appended with a fresh one-entry map.
pub open spec fn bytes_bump(
    m: Seq<(Seq<char>, Seq<(i64, u64)>)>,
    h: Seq<char>,
    k: i64,
    b: u64,
) -> Seq<(Seq<char>, Seq<(i64, u64)>)> {
    if cache_has_key(m, h) {
        let i = cache_index_of(m, h);
        m.update(
            i,
            (h, cache_put_model(m[i].1, MAX_HOURS, k, count_or_zero_u64(m[i].1, k).saturating_add(b))),
        )
    } else {
        m.push((h, seq![(k, b)]))
    }
}

/// The aggregation store: one structure per statistic. The hour-shaped
/// structures are bounded least-recently-used maps, which is what keeps
/// memory bounded for time-series data however long the stream runs;
/// the host map is deliberately unbounded.
pub struct Analytics {
    success_count: usize,
    redirect_count: usize,
    not_found_count: usize,
    internal_error_count: usize,
    paths: lru::LruCache<String, usize>,
    hosts: Vec<(String, usize)>,
    by_hour: lru::LruCache<i64, u64>,
    bytes_by_hour_per_host: Vec<(String, lru::LruCache<i64, u64>)>,
}

impl Analytics {
    /// How often the event `e` has been recorded.
    pub closed spec fn spec_event_count(self, e: Event) -> usize {
        match e {
            Event::Success => self.success_count,
            Event::Redirect => self.redirect_count,
            Event::NotFound => self.not_found_count,
            Event::InternalError => self.internal_error_count,
        }
    }

    /// The bounded path map: pairs of path and count, most recently
    /// touched first.
    pub closed spec fn spec_paths(self) -> Seq<(Seq<char>, usize)> {
        path_cache_view(self.paths)
    }

    /// The host map: pairs of host and count, in first-seen order.
    pub closed spec fn spec_hosts(self) -> Seq<(Seq<char>, usize)> {
        self.hosts@.map_values(|p: (String, usize)| (p.0@, p.1))
    }

    /// The bounded hour map: pairs of hour key and count, most recently
    /// touched first.
    pub closed spec fn spec_hours(self) -> Seq<(i64, u64)> {
        hour_cache_view(self.by_hour)
    }

    /// Per host, in first-seen order, the bounded hour map of byte
    /// totals, most recently touched first.
    pub closed spec fn spec_bytes(self) -> Seq<(Seq<char>, Seq<(i64, u64)>)> {
        self.bytes_by_hour_per_host@.map_values(
            |p: (String, lru::LruCache<i64, u64>)| (p.0@, hour_cache_view(p.1)),
        )
    }

    /// The store's invariant: each bounded map holds at most its fixed
    /// capacity of entries, keys are unique, and hour keys are hour
    /// boundaries in range.
    pub closed spec fn wf(self) -> bool {
        &&& path_cache_cap(self.paths) == MAX_PATHS
        &&& cache_keys_distinct(self.spec_paths())
        &&& self.spec_paths().len() <= MAX_PATHS
        &&& cache_keys_distinct(self.spec_hosts())
        &&& hour_cache_cap(self.by_hour) == MAX_HOURS
        &&& cache_keys_distinct(self.spec_hours())
        &&& self.spec_hours().len() <= MAX_HOURS
        &&& hour_keys_wf(self.spec_hours())
        &&& cache_keys_distinct(self.spec_bytes())
        &&& forall|i: int|
            0 <= i < self.bytes_by_hour_per_host@.len() ==> {
                let c = (#[trigger] self.bytes_by_hour_per_host@[i]).1;
                &&& hour_cache_cap(c) == MAX_HOURS
                &&& cache_keys_distinct(hour_cache_view(c))
                &&& hour_cache_view(c).len() <= MAX_HOURS
                &&& hour_keys_wf(hour_cache_view(c))
            }
    }

    /// Classifies the status code and counts the event; an unclassified
    /// code changes nothing.
    pub fn record_event(&mut self, code: u16)
        requires
            old(self).wf(),
        ensures
            final(self).wf(),
            forall|x: Event|
                final(self).spec_event_count(x) == (if Event::spec_from_status(code) == Some(x) {
                    old(self).spec_event_count(x).saturating_add(1)
                } else {
                    old(self).spec_event_count(x)
                }),
            final(self).spec_paths() == old(self).spec_paths(),
            final(self).spec_hosts() == old(self).spec_hosts(),
            final(self).spec_hours() == old(self).spec_hours(),
            final(self).spec_bytes() == old(self).spec_bytes(),
    {
        match Event::try_from_status(code) {
            Some(Event::Success) => {
                self.success_count = self.success_count.saturating_add(1);
            },
            Some(Event::Redirect) => {
                self.redirect_count = self.redirect_count.saturating_add(1);
            },
            Some(Event::NotFound) => {
                self.not_found_count = self.not_found_count.saturating_add(1);
            },
            Some(Event::InternalError) => {
                self.internal_error_count = self.internal_error_count.saturating_add(1);
            },
            None => {},
        }
    }

    /// Counts a hit on a path, truncated to its key form, touching
    /// recency in the bounded path map.
    pub fn record_path(&mut self, path: &str)
        requires
            old(self).wf(),
        ensures
            final(self).wf(),
            final(self).spec_paths() == cache_put_model(
                old(self).spec_paths(),
                MAX_PATHS,
                truncated_path(path@),
                count_or_zero_usize(old(self).spec_paths(), truncated_path(path@)).saturating_add(
                    1,
                ),
            ),
            forall|x: Event|
                final(self).spec_event_count(x) == old(self).spec_event_count(x),
            final(self).spec_hosts() == old(self).spec_hosts(),
            final(self).spec_hours() == old(self).spec_hours(),
            final(self).spec_bytes() == old(self).spec_bytes(),
    {
        let key = Endpoint::new(path).into_string();
        let cur = match path_cache_peek(&self.paths, &key) {
            Some(c) => c,
            None => 0,
        };
        proof {
            lemma_cache_put_model_distinct(
                old(self).spec_paths(),
                MAX_PATHS,
                key@,
                cur.saturating_add(1),
            );
            lemma_cache_put_model_len(
                old(self).spec_paths(),
                MAX_PATHS,
                key@,
                cur.saturating_add(1),
            );
        }
        let next = cur.saturating_add(1);
        path_cache_put(&mut self.paths, key, next);
    }

    /// Counts a hit on a host in the unbounded host map.
    pub fn record_host(&mut self, host: &str)
        requires
            old(self).wf(),
        ensures
            final(self).wf(),
            final(self).spec_hosts() == host_bump(old(self).spec_hosts(), host@),
            forall|x: Event|
                final(self).spec_event_count(x) == old(self).spec_event_count(x),
            final(self).spec_paths() == old(self).spec_paths(),
            final(self).spec_hours() == old(self).spec_hours(),
            final(self).spec_bytes() == old(self).spec_bytes(),
    {
        let key = Hostname::new(String::from_str(host)).into_string();
        let ghost m = old(self).spec_hosts();
        let mut i: usize = 0;
        while i < self.hosts.len()
            invariant
                old(self).wf(),
                0 <= i <= self.hosts@.len(),
                *self == *old(self),
                m == self.spec_hosts(),
                key@ == host@,
                forall|j: int| 0 <= j < i ==> (#[trigger] m[j]).0 != key@,
            decreases self.hosts@.len() - i,
        {
            if self.hosts[i].0 == key {
                proof {
                    assert(m[i as int].0 == key@);
                    lemma_cache_index_unique(m, key@, i as int);
                }
                let c = self.hosts[i].1;
                let pair = self.hosts.remove(i);
                self.hosts.insert(i, (pair.0, c.saturating_add(1)));
                proof {
                    assert(self.hosts@ =~= old(self).hosts@.update(
                        i as int,
                        (pair.0, c.saturating_add(1)),
                    ));
                    assert(self.spec_hosts() =~= host_bump(m, host@));
                    assert(cache_keys_distinct(self.spec_hosts())) by {
                        assert forall|a: int, b: int|
                            0 <= a < b < self.spec_hosts().len() implies self.spec_hosts()[a].0
                            != self.spec_hosts()[b].0 by {
                            assert(self.spec_hosts()[a].0 == m[a].0);
                            assert(self.spec_hosts()[b].0 == m[b].0);
                        }
                    }
                }
                return ;
            }
            i = i + 1;
        }
        proof {
            assert(!cache_has_key(m, key@));
        }
        self.hosts.push((key, 1));
        proof {
            assert(self.spec_hosts() =~= host_bump(m, host@));
            assert(cache_keys_distinct(self.spec_hosts())) by {
                assert forall|a: int, b: int|
                    0 <= a < b < self.spec_hosts().len() implies self.spec_hosts()[a].0
                    != self.spec_hosts()[b].0 by {
                    if b < m.len() {
                        assert(m[a].0 == self.spec_hosts()[a].0);
                        assert(m[b].0 == self.spec_hosts()[b].0);
                    } else {
                        assert(m[a].0 == self.spec_hosts()[a].0);
                        assert(self.spec_hosts()[b].0 == key@);
                    }
                }
            }
        }
    }

    /// Counts a hit on an hour bucket, touching recency in the bounded
    /// hour map.
    pub fn record_hour_hit(&mut self, hour: Timestamp)
        requires
            old(self).wf(),
        ensures
            final(self).wf(),
            final(self).spec_hours() == cache_put_model(
                old(self).spec_hours(),
                MAX_HOURS,
                hour_key(hour),
                count_or_zero_u64(old(self).spec_hours(), hour_key(hour)).saturating_add(1),
            ),
            forall|x: Event|
                final(self).spec_event_count(x) == old(self).spec_event_count(x),
            final(self).spec_paths() == old(self).spec_paths(),
            final(self).spec_hosts() == old(self).spec_hosts(),
            final(self).spec_bytes() == old(self).spec_bytes(),
    {
        proof {
            use_type_invariant(hour);
        }
        let k = hour.unix_seconds();
        let cur = match hour_cache_peek(&self.by_hour, k) {
            Some(c) => c,
            None => 0,
        };
        let next = cur.saturating_add(1);
        proof {
            lemma_cache_put_model_distinct(old(self).spec_hours(), MAX_HOURS, k, next);
            lemma_cache_put_model_len(old(self).spec_hours(), MAX_HOURS, k, next);
            lemma_cache_put_model_elements(old(self).spec_hours(), MAX_HOURS, k, next);
        }
        hour_cache_put(&mut self.by_hour, k, next);
        proof {
            let m0 = old(self).spec_hours();
            let m1 = self.spec_hours();
            let pm = cache_put_model(m0, MAX_HOURS, k, next);
            assert(m1 == pm);
            assert forall|i: int| 0 <= i < m1.len() implies is_hour_key((#[trigger] m1[i]).0) by {
                assert(pm[i] == (k, next) || exists|j: int| 0 <= j < m0.len() && pm[i] == m0[j]);
                if m1[i] != (k, next) {
                    let j = choose|j: int| 0 <= j < m0.len() && pm[i] == m0[j];
                    assert(is_hour_key(m0[j].0));
                }
            }
        }
    }

    /// Adds bytes to the hour bucket of a host, creating the host's
    /// bounded hour map when the host is new, touching recency.
    pub fn record_host_hour_bytes(&mut self, host: &str, hour: Timestamp, bytes: u64)
        requires
            old(self).wf(),
        ensures
            final(self).wf(),
            final(self).spec_bytes() == bytes_bump(
                old(self).spec_bytes(),
                host@,
                hour_key(hour),
                bytes,
            ),
            forall|x: Event|
                final(self).spec_event_count(x) == old(self).spec_event_count(x),
            final(self).spec_paths() == old(self).spec_paths(),
            final(self).spec_hosts() == old(self).spec_hosts(),
            final(self).spec_hours() == old(self).spec_hours(),
    {
        proof {
            use_type_invariant(hour);
        }
        let key = Hostname::new(String::from_str(host)).into_string();
        let k = hour.unix_seconds();
        let ghost m = old(self).spec_bytes();
        let mut i: usize = 0;
        while i < self.bytes_by_hour_per_host.len()
            invariant
                old(self).wf(),
                hour.wf(),
                k == hour_key(hour),
                0 <= i <= self.bytes_by_hour_per_host@.len(),
                *self == *old(self),
                m == self.spec_bytes(),
                key@ == host@,
                forall|j: int| 0 <= j < i ==> (#[trigger] m[j]).0 != key@,
            decreases self.bytes_by_hour_per_host@.len() - i,
        {
            if self.bytes_by_hour_per_host[i].0 == key {
                proof {
                    assert(m[i as int].0 == key@);
                    lemma_cache_index_unique(m, key@, i as int);
                    let entry = self.bytes_by_hour_per_host@[i as int];
                    assert(hour_cache_cap(entry.1) == MAX_HOURS);
                    assert(m[i as int].1 == hour_cache_view(entry.1));
                }
                let mut pair = self.bytes_by_hour_per_host.remove(i);
                let ghost inner0 = hour_cache_view(pair.1);
                let cur = match hour_cache_peek(&pair.1, k) {
                    Some(c) => c,
                    None => 0,
                };
                let next = cur.saturating_add(bytes);
                proof {
                    lemma_cache_put_model_distinct(inner0, MAX_HOURS, k, next);
                    lemma_cache_put_model_len(inner0, MAX_HOURS, k, next);
                    lemma_cache_put_model_elements(inner0, MAX_HOURS, k, next);
                }
                hour_cache_put(&mut pair.1, k, next);
                proof {
                    let m1 = hour_cache_view(pair.1);
                    let pm = cache_put_model(inner0, MAX_HOURS, k, next);
                    assert(m1 == pm);
                    assert forall|t: int| 0 <= t < m1.len() implies is_hour_key(
                        (#[trigger] m1[t]).0,
                    ) by {
                        assert(pm[t] == (k, next) || exists|j: int|
                            0 <= j < inner0.len() && pm[t] == inner0[j]);
                        if m1[t] != (k, next) {
                            let j = choose|j: int| 0 <= j < inner0.len() && pm[t] == inner0[j];
                            assert(is_hour_key(inner0[j].0));
                        }
                    }
                }
                self.bytes_by_hour_per_host.insert(i, pair);
                proof {
                    assert(self.bytes_by_hour_per_host@ =~= old(
                        self,
                    ).bytes_by_hour_per_host@.update(i as int, pair));
                    assert(self.spec_bytes() =~= bytes_bump(m, host@, hour_key(hour), bytes));
                    assert(cache_keys_distinct(self.spec_bytes())) by {
                        assert forall|a: int, b: int|
                            0 <= a < b < self.spec_bytes().len() implies self.spec_bytes()[a].0
                            != self.spec_bytes()[b].0 by {
                            assert(self.spec_bytes()[a].0 == m[a].0);
                            assert(self.spec_bytes()[b].0 == m[b].0);
                        }
                    }
                }
                return ;
            }
            i = i + 1;
        }
        proof {
            assert(!cache_has_key(m, key@));
        }
        let mut fresh = hour_cache_new(MAX_HOURS);
        hour_cache_put(&mut fresh, k, bytes);
        proof {
            assert(hour_cache_view(fresh) =~= seq![(k, bytes)]);
        }
        self.bytes_by_hour_per_host.push((key, fresh));
        proof {
            assert(self.spec_bytes() =~= bytes_bump(m, host@, hour_key(hour), bytes));
            assert(cache_keys_distinct(self.spec_bytes())) by {
                assert forall|a: int, b: int|
                    0 <= a < b < self.spec_bytes().len() implies self.spec_bytes()[a].0
                    != self.spec_bytes()[b].0 by {
                    if b < m.len() {
                        assert(m[a].0 == self.spec_bytes()[a].0);
                        assert(m[b].0 == self.spec_bytes()[b].0);
                    } else {
                        assert(m[a].0 == self.spec_bytes()[a].0);
                        assert(self.spec_bytes()[b].0 == key@);
                    }
                }
            }
        }
    }
}

/// The pairs of hour key and value as timestamp-labelled pairs.
pub open spec fn ts_pairs_view(s: Seq<(Timestamp, u64)>) -> Seq<(i64, u64)> {
    s.map_values(|p: (Timestamp, u64)| (hour_key(p.0), p.1))
}

/// The smaller of two lengths.
pub open spec fn min_len(n: int, len: int) -> int {
    if n <= len {
        n
    } else {
        len
    }
}

impl Analytics {
    /// The recorded counts keyed by their numeric status code: a code
    /// appears exactly when its event has been recorded at least once.
    pub fn event_frequency(&self) -> (r: HashMap<u16, usize>)
        ensures
            forall|s: u16| r@.contains_key(s) ==> s == 200 || s == 301 || s == 404 || s == 500,
            r@.contains_key(200) <==> self.spec_event_count(Event::Success) > 0,
            r@.contains_key(301) <==> self.spec_event_count(Event::Redirect) > 0,
            r@.contains_key(404) <==> self.spec_event_count(Event::NotFound) > 0,
            r@.contains_key(500) <==> self.spec_event_count(Event::InternalError) > 0,
            r@.contains_key(200) ==> r@[200] == self.spec_event_count(Event::Success),
            r@.contains_key(301) ==> r@[301] == self.spec_event_count(Event::Redirect),
            r@.contains_key(404) ==> r@[404] == self.spec_event_count(Event::NotFound),
            r@.contains_key(500) ==> r@[500] == self.spec_event_count(Event::InternalError),
    {
        let mut r: HashMap<u16, usize> = HashMap::new();
        if self.success_count > 0 {
            r.insert(200, self.success_count);
        }
        if self.redirect_count > 0 {
            r.insert(301, self.redirect_count);
        }
        if self.not_found_count > 0 {
            r.insert(404, self.not_found_count);
        }
        if self.internal_error_count > 0 {
            r.insert(500, self.internal_error_count);
        }
        r
    }

    /// The first `n` paths by count, descending; paths of equal count
    /// keep the most-recently-touched-first order of the store.
    pub fn top_path_frequency(&self, n: usize) -> (r: Vec<(String, usize)>)
        ensures
            crate::sort::pairs_view_usize(r@) == crate::sort::sort_desc_usize(
                self.spec_paths(),
            ).take(min_len(n as int, self.spec_paths().len() as int)),
            r@.len() == min_len(n as int, self.spec_paths().len() as int),
    {
        let entries = path_cache_entries(&self.paths);
        proof {
            assert(crate::sort::pairs_view_usize(entries@) =~= self.spec_paths());
            crate::sort::lemma_sort_desc_usize_len(self.spec_paths());
        }
        let mut sorted = crate::sort::sort_pairs_desc_usize(entries);
        let ghost full = crate::sort::sort_desc_usize(self.spec_paths());
        while sorted.len() > n
            invariant
                crate::sort::pairs_view_usize(sorted@) == full.take(sorted@.len() as int),
                n <= sorted@.len() || crate::sort::pairs_view_usize(sorted@) == full.take(
                    min_len(n as int, full.len() as int),
                ),
                sorted@.len() <= full.len(),
            decreases sorted@.len(),
        {
            let ghost before = sorted@;
            sorted.pop();
            proof {
                assert(crate::sort::pairs_view_usize(sorted@) =~= crate::sort::pairs_view_usize(
                    before,
                ).drop_last());
                assert(full.take(before.len() as int).drop_last() =~= full.take(
                    before.len() - 1,
                ));
            }
        }
        proof {
            if n >= sorted@.len() {
                assert(sorted@.len() as int == min_len(n as int, full.len() as int));
            }
        }
        sorted
    }

    /// Per host, in first-seen order, its retained hour buckets in
    /// hour-ascending order.
    pub fn bytes_per_hour_per_host(&self) -> (r: Vec<(String, Vec<(Timestamp, u64)>)>)
        requires
            self.wf(),
        ensures
            r@.len() == self.spec_bytes().len(),
            forall|i: int|
                0 <= i < r@.len() ==> (#[trigger] r@[i]).0@ == self.spec_bytes()[i].0
                    && ts_pairs_view(r@[i].1@) == crate::sort::sort_asc_hour(
                    self.spec_bytes()[i].1,
                ) && (forall|j: int| 0 <= j < r@[i].1@.len() ==> (#[trigger] r@[i].1@[j]).0.wf()),
    {
        let ghost m = self.spec_bytes();
        let mut r: Vec<(String, Vec<(Timestamp, u64)>)> = Vec::new();
        let mut i: usize = 0;
        while i < self.bytes_by_hour_per_host.len()
            invariant
                self.wf(),
                m == self.spec_bytes(),
                0 <= i <= self.bytes_by_hour_per_host@.len(),
                m.len() == self.bytes_by_hour_per_host@.len(),
                r@.len() == i,
                forall|t: int|
                    0 <= t < i ==> (#[trigger] r@[t]).0@ == m[t].0 && ts_pairs_view(r@[t].1@)
                        == crate::sort::sort_asc_hour(m[t].1) && (forall|j: int|
                        0 <= j < r@[t].1@.len() ==> (#[trigger] r@[t].1@[j]).0.wf()),
            decreases self.bytes_by_hour_per_host@.len() - i,
        {
            let host = self.bytes_by_hour_per_host[i].0.clone();
            let entries = hour_cache_entries(&self.bytes_by_hour_per_host[i].1);
            proof {
                assert(self.bytes_by_hour_per_host@[i as int]
                    == self.bytes_by_hour_per_host@.index(i as int));
                assert(entries@ == m[i as int].1);
            }
            let sorted = crate::sort::sort_hours_asc(entries);
            let mut labelled: Vec<(Timestamp, u64)> = Vec::new();
            let mut j: usize = 0;
            proof {
                crate::sort::lemma_sort_asc_hour_len(m[i as int].1);
                assert forall|t: int| 0 <= t < sorted@.len() implies is_hour_key(
                    (#[trigger] sorted@[t]).0,
                ) by {
                    crate::sort::lemma_sort_asc_hour_elements(m[i as int].1);
                }
            }
            while j < sorted.len()
                invariant
                    0 <= j <= sorted@.len(),
                    labelled@.len() == j,
                    forall|t: int|
                        0 <= t < sorted@.len() ==> is_hour_key((#[trigger] sorted@[t]).0),
                    forall|t: int|
                        0 <= t < j ==> (#[trigger] labelled@[t]) == (
                        Timestamp::spec_from_unix(sorted@[t].0 as int),
                        sorted@[t].1,
                    ) && labelled@[t].0.wf() && hour_key(labelled@[t].0) == sorted@[t].0,
                decreases sorted@.len() - j,
            {
                let (k, b) = sorted[j];
                let ts = Timestamp::from_unix_seconds(k);
                proof {
                    assert(is_hour_key(sorted@[j as int].0));
                    assert(hour_floor(k as int) == k as int);
                }
                labelled.push((ts, b));
                j = j + 1;
            }
            proof {
                assert(ts_pairs_view(labelled@) =~= crate::sort::sort_asc_hour(m[i as int].1));
            }
            r.push((host, labelled));
            i = i + 1;
        }
        r
    }

    /// A snapshot of the bounded hour map: hour buckets and hit counts,
    /// most recently touched first.
    pub fn hour_hits(&self) -> (r: Vec<(Timestamp, u64)>)
        requires
            self.wf(),
        ensures
            ts_pairs_view(r@) == self.spec_hours(),
            forall|j: int| 0 <= j < r@.len() ==> (#[trigger] r@[j]).0.wf(),
    {
        let entries = hour_cache_entries(&self.by_hour);
        let mut labelled: Vec<(Timestamp, u64)> = Vec::new();
        let mut j: usize = 0;
        while j < entries.len()
            invariant
                self.wf(),
                entries@ == self.spec_hours(),
                0 <= j <= entries@.len(),
                labelled@.len() == j,
                forall|t: int|
                    0 <= t < j ==> (#[trigger] labelled@[t]) == (
                    Timestamp::spec_from_unix(entries@[t].0 as int),
                    entries@[t].1,
                ) && labelled@[t].0.wf() && hour_key(labelled@[t].0) == entries@[t].0,
            decreases entries@.len() - j,
        {
            let (k, b) = entries[j];
            proof {
                assert(is_hour_key(self.spec_hours()[j as int].0));
                assert(hour_floor(k as int) == k as int);
            }
            let ts = Timestamp::from_unix_seconds(k);
            labelled.push((ts, b));
            j = j + 1;
        }
        proof {
            assert(ts_pairs_view(labelled@) =~= self.spec_hours());
        }
        labelled
    }
}

/// The mathematical state of the whole store: the four event counters
/// and the four maps.
pub ghost struct StoreModel {
    pub success: usize,
    pub redirect: usize,
    pub not_found: usize,
    pub internal_error: usize,
    pub paths: Seq<(Seq<char>, usize)>,
    pub hosts: Seq<(Seq<char>, usize)>,
    pub hours: Seq<(i64, u64)>,
    pub bytes: Seq<(Seq<char>, Seq<(i64, u64)>)>,
}

/// The store state after one metric fact is applied.
pub open spec fn apply_fact(m: StoreModel, f: crate::worker::MetricView) -> StoreModel {
    match f {
        crate::worker::MetricView::Event(c) => match Event::spec_from_status(c) {
            Some(Event::Success) => StoreModel { success: m.success.saturating_add(1), ..m },
            Some(Event::Redirect) => StoreModel { redirect: m.redirect.saturating_add(1), ..m },
            Some(Event::NotFound) => StoreModel { not_found: m.not_found.saturating_add(1), ..m },
            Some(Event::InternalError) => StoreModel {
                internal_error: m.internal_error.saturating_add(1),
                ..m
            },
            None => m,
        },
        crate::worker::MetricView::Path(p) => StoreModel {
            paths: cache_put_model(
                m.paths,
                MAX_PATHS,
                truncated_path(p),
                count_or_zero_usize(m.paths, truncated_path(p)).saturating_add(1),
            ),
            ..m
        },
        crate::worker::MetricView::Host(h) => StoreModel { hosts: host_bump(m.hosts, h), ..m },
        crate::worker::MetricView::Hit(t) => StoreModel {
            hours: cache_put_model(
                m.hours,
                MAX_HOURS,
                hour_key(t),
                count_or_zero_u64(m.hours, hour_key(t)).saturating_add(1),
            ),
            ..m
        },
        crate::worker::MetricView::HostBytes { host, timestamp, bytes } => StoreModel {
            bytes: bytes_bump(m.bytes, host, hour_key(timestamp), bytes),
            ..m
        },
    }
}

/// The store state after a list of facts is applied in order.
pub open spec fn apply_facts(m: StoreModel, fs: Seq<crate::worker::MetricView>) -> StoreModel
    decreases fs.len(),
{
    if fs.len() == 0 {
        m
    } else {
        apply_facts(apply_fact(m, fs[0]), fs.drop_first())
    }
}

/// Applying one more fact after a list applies the list, then the fact.
pub proof fn lemma_apply_facts_snoc(
    m: StoreModel,
    fs: Seq<crate::worker::MetricView>,
    f: crate::worker::MetricView,
)
    ensures
        apply_facts(m, fs.push(f)) == apply_fact(apply_facts(m, fs), f),
    decreases fs.len(),
{
    reveal_with_fuel(apply_facts, 3);
    let ext = fs.push(f);
    if fs.len() == 0 {
        assert(ext[0] == f);
        assert(ext.drop_first() =~= Seq::<crate::worker::MetricView>::empty());
    } else {
        assert(ext[0] == fs[0]);
        assert(ext.drop_first() =~= fs.drop_first().push(f));
        lemma_apply_facts_snoc(apply_fact(m, fs[0]), fs.drop_first(), f);
    }
}

impl Analytics {
    /// The store's whole mathematical state.
    pub open spec fn model(self) -> StoreModel {
        StoreModel {
            success: self.spec_event_count(Event::Success),
            redirect: self.spec_event_count(Event::Redirect),
            not_found: self.spec_event_count(Event::NotFound),
            internal_error: self.spec_event_count(Event::InternalError),
            paths: self.spec_paths(),
            hosts: self.spec_hosts(),
            hours: self.spec_hours(),
            bytes: self.spec_bytes(),
        }
    }

    /// Applies one metric fact through the recording operation of its
    /// kind. Recording cannot fail.
    pub fn apply_metric(&mut self, m: &crate::worker::Metric)
        requires
            old(self).wf(),
        ensures
            final(self).wf(),
            final(self).model() == apply_fact(old(self).model(), m@),
    {
        match m {
            crate::worker::Metric::Event(c) => self.record_event(*c),
            crate::worker::Metric::Path(p) => self.record_path(p.as_str()),
            crate::worker::Metric::Host(h) => self.record_host(h.as_str()),
            crate::worker::Metric::Hit(t) => self.record_hour_hit(*t),
            crate::worker::Metric::HostBytes { host, timestamp, bytes } => self
                .record_host_hour_bytes(host.as_str(), *timestamp, *bytes),
        }
    }

    /// Applies every fact of one batch, in order.
    pub fn apply_batch(&mut self, batch: &Vec<crate::worker::Metric>)
        requires
            old(self).wf(),
        ensures
            final(self).wf(),
            final(self).model() == apply_facts(
                old(self).model(),
                crate::worker::metrics_view(batch@),
            ),
    {
        let ghost facts = crate::worker::metrics_view(batch@);
        let ghost m0 = old(self).model();
        let mut i: usize = 0;
        proof {
            assert(facts.take(0) =~= Seq::<crate::worker::MetricView>::empty());
        }
        while i < batch.len()
            invariant
                0 <= i <= batch@.len(),
                facts == crate::worker::metrics_view(batch@),
                facts.len() == batch@.len(),
                self.wf(),
                self.model() == apply_facts(m0, facts.take(i as int)),
            decreases batch@.len() - i,
        {
            self.apply_metric(&batch[i]);
            proof {
                assert(facts[i as int] == batch@[i as int]@);
                assert(facts.take(i + 1) =~= facts.take(i as int).push(facts[i as int]));
                lemma_apply_facts_snoc(m0, facts.take(i as int), facts[i as int]);
            }
            i = i + 1;
        }
        proof {
            assert(facts.take(i as int) =~= facts);
        }
    }
}


/// How often a status code occurs in a sequence of codes.
pub open spec fn count_code(codes: Seq<u16>, c: u16) -> int
    decreases codes.len(),
{
    if codes.len() == 0 {
        0
    } else {
        count_code(codes.drop_last(), c) + if codes.last() == c {
            1int
        } else {
            0int
        }
    }
}

proof fn lemma_count_code_bounds(codes: Seq<u16>, c: u16)
    ensures
        0 <= count_code(codes, c) <= codes.len(),
    decreases codes.len(),
{
    if codes.len() > 0 {
        lemma_count_code_bounds(codes.drop_last(), c);
    }
}

/// The event facts of a sequence of recorded status codes.
pub open spec fn event_facts(codes: Seq<u16>) -> Seq<crate::worker::MetricView> {
    codes.map_values(|c: u16| crate::worker::MetricView::Event(c))
}

/// For every sequence of recorded status codes, the event counters hold
/// the exact per-status counts; codes that map to no event never appear
/// and never disturb the other counters or the other maps.
pub proof fn lemma_event_frequency_exact(m0: StoreModel, codes: Seq<u16>)
    requires
        m0.success + codes.len() <= usize::MAX,
        m0.redirect + codes.len() <= usize::MAX,
        m0.not_found + codes.len() <= usize::MAX,
        m0.internal_error + codes.len() <= usize::MAX,
    ensures
        ({
            let m1 = apply_facts(m0, event_facts(codes));
            &&& m1.success == m0.success + count_code(codes, 200)
            &&& m1.redirect == m0.redirect + count_code(codes, 301)
            &&& m1.not_found == m0.not_found + count_code(codes, 404)
            &&& m1.internal_error == m0.internal_error + count_code(codes, 500)
            &&& m1.paths == m0.paths
            &&& m1.hosts == m0.hosts
            &&& m1.hours == m0.hours
            &&& m1.bytes == m0.bytes
        }),
    decreases codes.len(),
{
    if codes.len() == 0 {
        assert(event_facts(codes) =~= Seq::<crate::worker::MetricView>::empty());
    } else {
        let pre = codes.drop_last();
        let c = codes.last();
        lemma_event_frequency_exact(m0, pre);
        lemma_count_code_bounds(pre, 200u16);
        lemma_count_code_bounds(pre, 301u16);
        lemma_count_code_bounds(pre, 404u16);
        lemma_count_code_bounds(pre, 500u16);
        assert(event_facts(codes) =~= event_facts(pre).push(crate::worker::MetricView::Event(c)));
        lemma_apply_facts_snoc(m0, event_facts(pre), crate::worker::MetricView::Event(c));
    }
}

/// The bounded maps never hold more entries than their fixed capacity,
/// whatever was inserted and however often.
pub proof fn lemma_bounded_maps(a: Analytics)
    requires
        a.wf(),
    ensures
        a.spec_hours().len() <= MAX_HOURS,
        a.spec_paths().len() <= MAX_PATHS,
        forall|i: int|
            0 <= i < a.spec_bytes().len() ==> (#[trigger] a.spec_bytes()[i]).1.len() <= MAX_HOURS,
{
    assert forall|i: int|
        0 <= i < a.spec_bytes().len() implies (#[trigger] a.spec_bytes()[i]).1.len()
        <= MAX_HOURS by {
        assert(a.spec_bytes()[i].1 == hour_cache_view(a.bytes_by_hour_per_host@[i].1));
    }
}

/// What the store's per-host hour totals promise of their shape: hosts
/// are unique, and each host's bounded hour map has unique keys and at
/// most its capacity of entries.
pub open spec fn bytes_component_wf(m: Seq<(Seq<char>, Seq<(i64, u64)>)>) -> bool {
    &&& cache_keys_distinct(m)
    &&& forall|i: int|
        0 <= i < m.len() ==> cache_keys_distinct((#[trigger] m[i]).1) && m[i].1.len() <= MAX_HOURS
}

/// A well-formed store's per-host hour totals have that shape.
pub proof fn lemma_store_bytes_wf(a: Analytics)
    requires
        a.wf(),
    ensures
        bytes_component_wf(a.model().bytes),
{
    assert forall|i: int|
        0 <= i < a.spec_bytes().len() implies cache_keys_distinct((#[trigger] a.spec_bytes()[i]).1)
        && a.spec_bytes()[i].1.len() <= MAX_HOURS by {
        assert(a.spec_bytes()[i].1 == hour_cache_view(a.bytes_by_hour_per_host@[i].1));
    }
}

/// The byte total a store holds for a host and hour, zero when absent.
pub open spec fn bytes_total_of(
    m: Seq<(Seq<char>, Seq<(i64, u64)>)>,
    h: Seq<char>,
    k: i64,
) -> u64 {
    if cache_has_key(m, h) {
        count_or_zero_u64(m[cache_index_of(m, h)].1, k)
    } else {
        0u64
    }
}

/// Recording bytes twice for the same host and hour accumulates: the
/// total becomes the old total plus both amounts, not the last amount.
pub proof fn lemma_host_hour_bytes_accumulate(
    m0: StoreModel,
    h: Seq<char>,
    t: Timestamp,
    b1: u64,
    b2: u64,
)
    requires
        bytes_component_wf(m0.bytes),
        bytes_total_of(m0.bytes, h, hour_key(t)) + b1 + b2 <= u64::MAX,
    ensures
        ({
            let f1 = crate::worker::MetricView::HostBytes { host: h, timestamp: t, bytes: b1 };
            let f2 = crate::worker::MetricView::HostBytes { host: h, timestamp: t, bytes: b2 };
            let m2 = apply_fact(apply_fact(m0, f1), f2);
            bytes_total_of(m2.bytes, h, hour_key(t)) == bytes_total_of(m0.bytes, h, hour_key(t))
                + b1 + b2
        }),
{
    let k = hour_key(t);
    let mb0 = m0.bytes;
    let mb1 = bytes_bump(mb0, h, k, b1);
    let mb2 = bytes_bump(mb1, h, k, b2);
    if cache_has_key(mb0, h) {
        let i = cache_index_of(mb0, h);
        let inner0 = mb0[i].1;
        let prior = count_or_zero_u64(inner0, k);
        let inner1 = cache_put_model(inner0, MAX_HOURS, k, prior.saturating_add(b1));
        assert(mb1 == mb0.update(i, (h, inner1)));
        crate::cache::lemma_update_same_key_distinct(mb0, i, (h, inner1));
        assert(mb1[i].0 == h);
        lemma_cache_index_unique(mb1, h, i);
        crate::cache::lemma_cache_put_lookup(inner0, MAX_HOURS, k, prior.saturating_add(b1));
        lemma_cache_put_model_distinct(inner0, MAX_HOURS, k, prior.saturating_add(b1));
        assert(count_or_zero_u64(inner1, k) == prior + b1);
        let v2 = count_or_zero_u64(inner1, k).saturating_add(b2);
        let inner2 = cache_put_model(inner1, MAX_HOURS, k, v2);
        assert(mb2 == mb1.update(i, (h, inner2)));
        crate::cache::lemma_update_same_key_distinct(mb1, i, (h, inner2));
        assert(mb2[i].0 == h);
        lemma_cache_index_unique(mb2, h, i);
        crate::cache::lemma_cache_put_lookup(inner1, MAX_HOURS, k, v2);
        assert(count_or_zero_u64(inner2, k) == prior + b1 + b2);
    } else {
        let inner1 = seq![(k, b1)];
        assert(mb1 == mb0.push((h, inner1)));
        crate::cache::lemma_push_new_key_distinct(mb0, (h, inner1));
        let i = mb0.len() as int;
        assert(mb1[i].0 == h);
        lemma_cache_index_unique(mb1, h, i);
        assert(cache_keys_distinct(inner1));
        assert(inner1[0].0 == k);
        assert(cache_has_key(inner1, k));
        lemma_cache_index_unique(inner1, k, 0);
        assert(count_or_zero_u64(inner1, k) == b1);
        let v2 = count_or_zero_u64(inner1, k).saturating_add(b2);
        let inner2 = cache_put_model(inner1, MAX_HOURS, k, v2);
        assert(mb2 == mb1.update(i, (h, inner2)));
        crate::cache::lemma_update_same_key_distinct(mb1, i, (h, inner2));
        assert(mb2[i].0 == h);
        lemma_cache_index_unique(mb2, h, i);
        crate::cache::lemma_cache_put_lookup(inner1, MAX_HOURS, k, v2);
        assert(count_or_zero_u64(inner2, k) == b1 + b2);
    }
}

/// The byte total of a host's retained hour buckets, saturating.
pub open spec fn sat_sum_u64(s: Seq<(i64, u64)>) -> u64
    decreases s.len(),
{
    if s.len() == 0 {
        0u64
    } else {
        sat_sum_u64(s.drop_last()).saturating_add(s.last().1)
    }
}

/// The exported event series: each recorded event, relabelled to its
/// numeric status code, in fixed status order.
pub open spec fn event_series(a: Analytics) -> Seq<(Seq<char>, u64)> {
    (if a.spec_event_count(Event::Success) > 0 {
        seq![(crate::fmt::dec_digits(200), a.spec_event_count(Event::Success) as u64)]
    } else {
        Seq::empty()
    }) + (if a.spec_event_count(Event::Redirect) > 0 {
        seq![(crate::fmt::dec_digits(301), a.spec_event_count(Event::Redirect) as u64)]
    } else {
        Seq::empty()
    }) + (if a.spec_event_count(Event::NotFound) > 0 {
        seq![(crate::fmt::dec_digits(404), a.spec_event_count(Event::NotFound) as u64)]
    } else {
        Seq::empty()
    }) + (if a.spec_event_count(Event::InternalError) > 0 {
        seq![(crate::fmt::dec_digits(500), a.spec_event_count(Event::InternalError) as u64)]
    } else {
        Seq::empty()
    })
}

/// The exported host series: the top ten hosts by count, descending.
pub open spec fn host_series(a: Analytics) -> Seq<(Seq<char>, u64)> {
    crate::sort::sort_desc_usize(a.spec_hosts()).take(
        min_len(10, a.spec_hosts().len() as int),
    ).map_values(|p: (Seq<char>, usize)| (p.0, p.1 as u64))
}

/// The exported path series: the top five paths by count, descending.
pub open spec fn path_series(a: Analytics) -> Seq<(Seq<char>, u64)> {
    crate::sort::sort_desc_usize(a.spec_paths()).take(
        min_len(5, a.spec_paths().len() as int),
    ).map_values(|p: (Seq<char>, usize)| (p.0, p.1 as u64))
}

/// Each host with the byte total of its retained hour buckets.
pub open spec fn byte_sums(m: Seq<(Seq<char>, Seq<(i64, u64)>)>) -> Seq<(Seq<char>, u64)> {
    m.map_values(|p: (Seq<char>, Seq<(i64, u64)>)| (p.0, sat_sum_u64(p.1)))
}

/// The five hosts with the largest byte totals, descending.
pub open spec fn top_byte_hosts(a: Analytics) -> Seq<(Seq<char>, u64)> {
    crate::sort::sort_desc_u64(byte_sums(a.spec_bytes())).take(
        min_len(5, a.spec_bytes().len() as int),
    )
}

/// The last `4` entries of an hour-ascending bucket list, most recent
/// first.
pub open spec fn last4_desc(s: Seq<(i64, u64)>) -> Seq<(i64, u64)> {
    Seq::new(min_len(4, s.len() as int) as nat, |i: int| s[s.len() - 1 - i])
}

/// The gauge entries one host contributes: nothing unless it is among
/// the selected hosts, else its four most recent hour buckets, labelled
/// `YYYYMMDDHH`.
pub open spec fn host_block(
    p: (Seq<char>, Seq<(i64, u64)>),
    top: Seq<(Seq<char>, u64)>,
) -> Seq<(Seq<char>, Seq<char>, u64)> {
    if cache_has_key(top, p.0) {
        last4_desc(crate::sort::sort_asc_hour(p.1)).map_values(
            |q: (i64, u64)| (p.0, crate::fmt::hour_label_of(q.0 as int), q.1),
        )
    } else {
        Seq::empty()
    }
}

/// The exported gauge series: hosts in first-seen order, each
/// contributing its block.
pub open spec fn hhb_series(
    m: Seq<(Seq<char>, Seq<(i64, u64)>)>,
    top: Seq<(Seq<char>, u64)>,
) -> Seq<(Seq<char>, Seq<char>, u64)>
    decreases m.len(),
{
    if m.len() == 0 {
        Seq::empty()
    } else {
        hhb_series(m.drop_last(), top) + host_block(m.last(), top)
    }
}

impl Analytics {
    /// Computes the fresh reduction of the store into the published
    /// series: every recorded event, the top ten hosts, the top five
    /// paths, and for the five hosts with the largest byte totals their
    /// four most recent hour buckets.
    pub fn export_to_prometheus(&self, metrics: &mut PromMetrics)
        requires
            self.wf(),
        ensures
            crate::prometheus::series_view(final(metrics).event_counts@) == event_series(*self),
            crate::prometheus::series_view(final(metrics).host_hits@) == host_series(*self),
            crate::prometheus::series_view(final(metrics).path_hits@) == path_series(*self),
            crate::prometheus::series2_view(final(metrics).bytes_per_hour_per_host@)
                == hhb_series(self.spec_bytes(), top_byte_hosts(*self)),
    {
        // events, in fixed status order
        let mut events: Vec<(String, u64)> = Vec::new();
        if self.success_count > 0 {
            events.push((crate::fmt::fmt_u64(200), self.success_count as u64));
        }
        if self.redirect_count > 0 {
            events.push((crate::fmt::fmt_u64(301), self.redirect_count as u64));
        }
        if self.not_found_count > 0 {
            events.push((crate::fmt::fmt_u64(404), self.not_found_count as u64));
        }
        if self.internal_error_count > 0 {
            events.push((crate::fmt::fmt_u64(500), self.internal_error_count as u64));
        }
        proof {
            assert(crate::prometheus::series_view(events@) =~= event_series(*self));
        }
        metrics.event_counts = events;

        // top ten hosts by count
        let mut host_entries: Vec<(String, usize)> = Vec::new();
        let mut i: usize = 0;
        while i < self.hosts.len()
            invariant
                0 <= i <= self.hosts@.len(),
                host_entries@.len() == i,
                forall|t: int|
                    0 <= t < i ==> (#[trigger] host_entries@[t]).0@ == self.spec_hosts()[t].0
                        && host_entries@[t].1 == self.spec_hosts()[t].1,
            decreases self.hosts@.len() - i,
        {
            let h = self.hosts[i].0.clone();
            let c = self.hosts[i].1;
            host_entries.push((h, c));
            i = i + 1;
        }
        proof {
            assert(crate::sort::pairs_view_usize(host_entries@) =~= self.spec_hosts());
            crate::sort::lemma_sort_desc_usize_len(self.spec_hosts());
        }
        let mut sorted_hosts = crate::sort::sort_pairs_desc_usize(host_entries);
        let ghost full_hosts = crate::sort::sort_desc_usize(self.spec_hosts());
        let ghost pre_trunc = sorted_hosts@;
        sorted_hosts.truncate(10);
        proof {
            if 10 <= pre_trunc.len() {
                assert(crate::sort::pairs_view_usize(sorted_hosts@) =~= full_hosts.take(
                    min_len(10, self.spec_hosts().len() as int),
                ));
            } else {
                assert(crate::sort::pairs_view_usize(sorted_hosts@) =~= full_hosts.take(
                    min_len(10, self.spec_hosts().len() as int),
                ));
            }
        }
        let mut hosts_out: Vec<(String, u64)> = Vec::new();
        let ghost host_model = crate::sort::pairs_view_usize(sorted_hosts@);
        let mut i: usize = 0;
        while i < sorted_hosts.len()
            invariant
                0 <= i <= sorted_hosts@.len(),
                host_model == crate::sort::pairs_view_usize(sorted_hosts@),
                host_model.len() == sorted_hosts@.len(),
                hosts_out@.len() == i,
                forall|t: int|
                    0 <= t < i ==> (#[trigger] hosts_out@[t]).0@ == host_model[t].0
                        && hosts_out@[t].1 == host_model[t].1 as u64,
            decreases sorted_hosts@.len() - i,
        {
            let h = sorted_hosts[i].0.clone();
            let c = sorted_hosts[i].1;
            hosts_out.push((h, c as u64));
            proof {
                let si = sorted_hosts@[i as int];
                assert(host_model[i as int] == (si.0@, si.1));
            }
            i = i + 1;
        }
        proof {
            assert(crate::prometheus::series_view(hosts_out@) =~= host_series(*self));
        }
        metrics.host_hits = hosts_out;

        // top five paths by count
        let top_paths = self.top_path_frequency(5);
        let mut paths_out: Vec<(String, u64)> = Vec::new();
        let ghost path_model = crate::sort::pairs_view_usize(top_paths@);
        let mut i: usize = 0;
        while i < top_paths.len()
            invariant
                0 <= i <= top_paths@.len(),
                path_model == crate::sort::pairs_view_usize(top_paths@),
                path_model.len() == top_paths@.len(),
                paths_out@.len() == i,
                forall|t: int|
                    0 <= t < i ==> (#[trigger] paths_out@[t]).0@ == path_model[t].0
                        && paths_out@[t].1 == path_model[t].1 as u64,
            decreases top_paths@.len() - i,
        {
            let p = top_paths[i].0.clone();
            let c = top_paths[i].1;
            paths_out.push((p, c as u64));
            proof {
                assert(path_model[i as int] == (top_paths@[i as int].0@, top_paths@[i as int].1));
            }
            i = i + 1;
        }
        proof {
            assert(crate::prometheus::series_view(paths_out@) =~= path_series(*self));
        }
        metrics.path_hits = paths_out;

        // byte totals per host, then the top five hosts
        let ghost m = self.spec_bytes();
        let mut sums: Vec<(String, u64)> = Vec::new();
        let mut i: usize = 0;
        while i < self.bytes_by_hour_per_host.len()
            invariant
                self.wf(),
                m == self.spec_bytes(),
                0 <= i <= self.bytes_by_hour_per_host@.len(),
                m.len() == self.bytes_by_hour_per_host@.len(),
                sums@.len() == i,
                forall|t: int|
                    0 <= t < i ==> (#[trigger] sums@[t]).0@ == m[t].0 && sums@[t].1 == sat_sum_u64(
                        m[t].1,
                    ),
            decreases self.bytes_by_hour_per_host@.len() - i,
        {
            let h = self.bytes_by_hour_per_host[i].0.clone();
            let entries = hour_cache_entries(&self.bytes_by_hour_per_host[i].1);
            proof {
                assert(entries@ == m[i as int].1);
            }
            let mut total: u64 = 0;
            let mut j: usize = 0;
            while j < entries.len()
                invariant
                    0 <= j <= entries@.len(),
                    total == sat_sum_u64(entries@.take(j as int)),
                decreases entries@.len() - j,
            {
                let ghost before = entries@.take(j as int);
                total = total.saturating_add(entries[j].1);
                proof {
                    assert(entries@.take(j + 1).drop_last() =~= before);
                    assert(entries@.take(j + 1).last() == entries@[j as int]);
                }
                j = j + 1;
            }
            proof {
                assert(entries@.take(entries@.len() as int) =~= entries@);
            }
            sums.push((h, total));
            i = i + 1;
        }
        proof {
            assert(crate::sort::pairs_view_u64(sums@) =~= byte_sums(m));
            crate::sort::lemma_sort_desc_u64_len(byte_sums(m));
        }
        let mut top5 = crate::sort::sort_pairs_desc_u64(sums);
        let ghost full_sums = crate::sort::sort_desc_u64(byte_sums(m));
        let ghost pre5 = top5@;
        top5.truncate(5);
        proof {
            assert(crate::sort::pairs_view_u64(top5@) =~= full_sums.take(
                min_len(5, m.len() as int),
            ));
            assert(crate::sort::pairs_view_u64(top5@) == top_byte_hosts(*self));
        }
        let ghost top = top_byte_hosts(*self);

        // the gauge series: each selected host's four most recent buckets
        let mut gauge: Vec<(String, String, u64)> = Vec::new();
        let mut i: usize = 0;
        proof {
            assert(crate::prometheus::series2_view(gauge@) =~= hhb_series(m.take(0), top));
        }
        while i < self.bytes_by_hour_per_host.len()
            invariant
                self.wf(),
                m == self.spec_bytes(),
                top == crate::sort::pairs_view_u64(top5@),
                top5@.len() == top.len(),
                0 <= i <= self.bytes_by_hour_per_host@.len(),
                m.len() == self.bytes_by_hour_per_host@.len(),
                crate::prometheus::series2_view(gauge@) == hhb_series(m.take(i as int), top),
            decreases self.bytes_by_hour_per_host@.len() - i,
        {
            let host = self.bytes_by_hour_per_host[i].0.clone();
            proof {
                assert(host@ == m[i as int].0);
            }
            let mut found = false;
            let mut w: usize = 0;
            while w < top5.len()
                invariant
                    0 <= w <= top5@.len(),
                    top == crate::sort::pairs_view_u64(top5@),
                    top5@.len() == top.len(),
                    0 <= i < m.len(),
                    host@ == m[i as int].0,
                    found ==> cache_has_key(top, m[i as int].0),
                    !found ==> forall|t: int| 0 <= t < w ==> (#[trigger] top[t]).0 != host@,
                decreases top5@.len() - w,
            {
                proof {
                    assert(top[w as int].0 == top5@[w as int].0@);
                }
                if top5[w].0 == host {
                    found = true;
                }
                w = w + 1;
            }
            let ghost before_gauge = crate::prometheus::series2_view(gauge@);
            if found {
                proof {
                    assert(cache_has_key(top, m[i as int].0));
                }
                let entries = hour_cache_entries(&self.bytes_by_hour_per_host[i].1);
                proof {
                    assert(entries@ == m[i as int].1);
                    crate::sort::lemma_sort_asc_hour_len(m[i as int].1);
                    assert forall|t: int| 0 <= t < crate::sort::sort_asc_hour(
                        m[i as int].1,
                    ).len() implies is_hour_key(
                        (#[trigger] crate::sort::sort_asc_hour(m[i as int].1)[t]).0,
                    ) by {
                        crate::sort::lemma_sort_asc_hour_elements(m[i as int].1);
                    }
                }
                let sorted = crate::sort::sort_hours_asc(entries);
                let ghost block = host_block(m[i as int], top);
                let n = sorted.len();
                let count = if n < 4 {
                    n
                } else {
                    4
                };
                let mut t: usize = 0;
                while t < count
                    invariant
                        self.wf(),
                        m == self.spec_bytes(),
                        0 <= i < m.len(),
                        sorted@ == crate::sort::sort_asc_hour(m[i as int].1),
                        n == sorted@.len(),
                        count == min_len(4, sorted@.len() as int),
                        host@ == m[i as int].0,
                        cache_has_key(top, m[i as int].0),
                        block == host_block(m[i as int], top),
                        block.len() == count,
                        forall|q: int|
                            0 <= q < sorted@.len() ==> is_hour_key((#[trigger] sorted@[q]).0),
                        0 <= t <= count,
                        crate::prometheus::series2_view(gauge@) == before_gauge + block.take(
                            t as int,
                        ),
                    decreases count - t,
                {
                    let idx = n - 1 - t;
                    let (k, b) = sorted[idx];
                    proof {
                        assert(is_hour_key(sorted@[idx as int].0));
                        assert(hour_floor(k as int) == k as int);
                    }
                    let ts = Timestamp::from_unix_seconds(k);
                    let label = crate::fmt::format_hour_label(ts);
                    proof {
                        assert(ts.spec_secs() == k as int);
                        assert(label@ == crate::fmt::hour_label_of(k as int));
                        assert(last4_desc(sorted@)[t as int] == sorted@[idx as int]);
                        assert(block[t as int] == (
                            m[i as int].0,
                            crate::fmt::hour_label_of(sorted@[idx as int].0 as int),
                            sorted@[idx as int].1,
                        ));
                    }
                    let hc = host.clone();
                    let ghost prevg = gauge@;
                    gauge.push((hc, label, b));
                    proof {
                        assert(block.take(t + 1).drop_last() =~= block.take(t as int));
                        assert(block.take(t + 1).last() == block[t as int]);
                        let target = before_gauge + block.take(t + 1);
                        let got = crate::prometheus::series2_view(gauge@);
                        assert(gauge@.len() == prevg.len() + 1);
                        assert(crate::prometheus::series2_view(prevg).len() == prevg.len());
                        assert(prevg.len() == before_gauge.len() + t);
                        assert forall|q: int| 0 <= q < got.len() implies got[q] == target[q] by {
                            if q < prevg.len() {
                                assert(gauge@[q] == prevg[q]);
                                assert(got[q] == crate::prometheus::series2_view(prevg)[q]);
                                assert(crate::prometheus::series2_view(prevg)[q] == (before_gauge
                                    + block.take(t as int))[q]);
                                if q >= before_gauge.len() {
                                    assert(block.take(t as int)[q - before_gauge.len()]
                                        == block[q - before_gauge.len()]);
                                    assert(block.take(t + 1)[q - before_gauge.len()] == block[q
                                        - before_gauge.len()]);
                                }
                                assert(target[q] == (before_gauge + block.take(t as int))[q]);
                            } else {
                                assert(q == prevg.len());
                                assert(gauge@[q] == (hc, label, b));
                                assert(got[q] == (hc@, label@, b));
                                assert(target[q] == block.take(t + 1)[t as int]);
                                assert(block.take(t + 1)[t as int] == block[t as int]);
                            }
                        }
                        assert(got.len() == target.len());
                        assert(got =~= target);
                    }
                    t = t + 1;
                }
                proof {
                    assert(block.take(count as int) =~= block);
                    assert(m.take(i + 1).drop_last() =~= m.take(i as int));
                    assert(m.take(i + 1).last() == m[i as int]);
                    assert(crate::prometheus::series2_view(gauge@) =~= hhb_series(
                        m.take(i + 1),
                        top,
                    ));
                }
            } else {
                proof {
                    assert(!cache_has_key(top, m[i as int].0));
                    assert(host_block(m[i as int], top) =~= Seq::<(
                        Seq<char>,
                        Seq<char>,
                        u64,
                    )>::empty());
                    assert(m.take(i + 1).drop_last() =~= m.take(i as int));
                    assert(m.take(i + 1).last() == m[i as int]);
                    assert(crate::prometheus::series2_view(gauge@) =~= hhb_series(
                        m.take(i + 1),
                        top,
                    ));
                }
            }
            i = i + 1;
        }
        proof {
            assert(m.take(m.len() as int) =~= m);
        }
        metrics.bytes_per_hour_per_host = gauge;
    }
}

impl Default for Analytics {
    /// A fresh store: nothing recorded, bounded maps at their fixed
    /// capacities.
    fn default() -> (r: Analytics)
        ensures
            r.wf(),
            forall|x: Event| r.spec_event_count(x) == 0,
            r.spec_paths() == Seq::<(Seq<char>, usize)>::empty(),
            r.spec_hosts() == Seq::<(Seq<char>, usize)>::empty(),
            r.spec_hours() == Seq::<(i64, u64)>::empty(),
            r.spec_bytes() == Seq::<(Seq<char>, Seq<(i64, u64)>)>::empty(),
    {
        let r = Analytics {
            success_count: 0,
            redirect_count: 0,
            not_found_count: 0,
            internal_error_count: 0,
            paths: path_cache_new(MAX_PATHS),
            hosts: Vec::new(),
            by_hour: hour_cache_new(MAX_HOURS),
            bytes_by_hour_per_host: Vec::new(),
        };
        proof {
            assert(r.spec_hosts() =~= Seq::<(Seq<char>, usize)>::empty());
            assert(r.spec_bytes() =~= Seq::<(Seq<char>, Seq<(i64, u64)>)>::empty());
        }
        r
    }
}

} // verus!
