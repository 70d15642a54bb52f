//! Stable insertion sorts used by the read-side reductions: count-descending
//! orders for top-N selection, and key-ascending order for hour buckets.

use vstd::prelude::*;

verus! {

// ---- pairs ordered by a usize count, descending ----

pub open spec fn insert_desc_usize<K>(x: (K, usize), s: Seq<(K, usize)>) -> Seq<(K, usize)>
    decreases s.len(),
{
    if s.len() == 0 {
        seq![x]
    } else if s[0].1 >= x.1 {
        seq![s[0]] + insert_desc_usize(x, s.drop_first())
    } else {
        seq![x] + s
    }
}

/// The entries in count-descending order; entries of equal count keep
/// their original order.
pub open spec fn sort_desc_usize<K>(s: Seq<(K, usize)>) -> Seq<(K, usize)>
    decreases s.len(),
{
    if s.len() == 0 {
        Seq::empty()
    } else {
        insert_desc_usize(s.last(), sort_desc_usize(s.drop_last()))
    }
}

pub open spec fn sorted_desc_usize<K>(s: Seq<(K, usize)>) -> bool {
    forall|i: int, j: int| 0 <= i < j < s.len() ==> s[i].1 >= s[j].1
}

proof fn lemma_insert_desc_usize_at<K>(x: (K, usize), s: Seq<(K, usize)>, p: int)
    requires
        0 <= p <= s.len(),
        forall|i: int| 0 <= i < p ==> s[i].1 >= x.1,
        p < s.len() ==> s[p].1 < x.1,
    ensures
        insert_desc_usize(x, s) == s.take(p) + seq![x] + s.skip(p),
    decreases s.len(),
{
    if p == 0 {
        if s.len() == 0 {
            assert(insert_desc_usize(x, s) =~= s.take(0) + seq![x] + s.skip(0));
        } else {
            assert(s[0].1 < x.1);
            assert(insert_desc_usize(x, s) =~= s.take(0) + seq![x] + s.skip(0));
        }
    } else {
        assert(s[0].1 >= x.1);
        let df = s.drop_first();
        assert(forall|i: int| 0 <= i < p - 1 ==> #[trigger] df[i].1 == s[i + 1].1);
        lemma_insert_desc_usize_at(x, df, p - 1);
        assert(insert_desc_usize(x, s) =~= s.take(p) + seq![x] + s.skip(p));
    }
}

proof fn lemma_insert_desc_usize_len<K>(x: (K, usize), s: Seq<(K, usize)>)
    ensures
        insert_desc_usize(x, s).len() == s.len() + 1,
    decreases s.len(),
{
    if s.len() > 0 && s[0].1 >= x.1 {
        lemma_insert_desc_usize_len(x, s.drop_first());
    }
}

pub proof fn lemma_sort_desc_usize_len<K>(s: Seq<(K, usize)>)
    ensures
        sort_desc_usize(s).len() == s.len(),
    decreases s.len(),
{
    if s.len() > 0 {
        lemma_sort_desc_usize_len(s.drop_last());
        lemma_insert_desc_usize_len(s.last(), sort_desc_usize(s.drop_last()));
    }
}

proof fn lemma_insert_desc_usize_bound<K>(x: (K, usize), s: Seq<(K, usize)>, b: int)
    requires
        x.1 <= b,
        forall|i: int| 0 <= i < s.len() ==> (#[trigger] s[i]).1 <= b,
    ensures
        forall|i: int|
            0 <= i < insert_desc_usize(x, s).len() ==> (#[trigger] insert_desc_usize(x, s)[i]).1
                <= b,
    decreases s.len(),
{
    if s.len() > 0 && s[0].1 >= x.1 {
        let df = s.drop_first();
        assert(forall|i: int| 0 <= i < df.len() ==> (#[trigger] df[i]).1 <= b);
        lemma_insert_desc_usize_bound(x, df, b);
        let r = insert_desc_usize(x, s);
        let rr = insert_desc_usize(x, df);
        assert forall|i: int| 0 <= i < r.len() implies (#[trigger] r[i]).1 <= b by {
            if i > 0 {
                assert(r[i] == rr[i - 1]);
            }
        }
    }
}

proof fn lemma_insert_desc_usize_sorted<K>(x: (K, usize), s: Seq<(K, usize)>)
    requires
        sorted_desc_usize(s),
    ensures
        sorted_desc_usize(insert_desc_usize(x, s)),
    decreases s.len(),
{
    if s.len() == 0 {
    } else if s[0].1 >= x.1 {
        let df = s.drop_first();
        assert(forall|i: int| 0 <= i < df.len() ==> (#[trigger] df[i]).1 <= s[0].1);
        lemma_insert_desc_usize_sorted(x, df);
        lemma_insert_desc_usize_bound(x, df, s[0].1 as int);
        let r = insert_desc_usize(x, s);
        let rr = insert_desc_usize(x, df);
        assert forall|i: int, j: int| 0 <= i < j < r.len() implies r[i].1 >= r[j].1 by {
            if i > 0 {
                assert(r[i] == rr[i - 1]);
                assert(r[j] == rr[j - 1]);
            } else {
                assert(r[j] == rr[j - 1]);
            }
        }
    }
}

/// The count-descending sort is sorted and keeps the length.
pub proof fn lemma_sort_desc_usize_sorted<K>(s: Seq<(K, usize)>)
    ensures
        sorted_desc_usize(sort_desc_usize(s)),
        sort_desc_usize(s).len() == s.len(),
    decreases s.len(),
{
    lemma_sort_desc_usize_len(s);
    if s.len() > 0 {
        lemma_sort_desc_usize_sorted(s.drop_last());
        lemma_insert_desc_usize_sorted(s.last(), sort_desc_usize(s.drop_last()));
    }
}

/// A top-N selection is sorted by count, descending, and no longer
/// than N.
pub proof fn lemma_top_frequency_sorted<K>(m: Seq<(K, usize)>, n: int)
    requires
        0 <= n,
    ensures
        ({
            let k = if n <= m.len() {
                n
            } else {
                m.len() as int
            };
            &&& sorted_desc_usize(sort_desc_usize(m).take(k))
            &&& sort_desc_usize(m).take(k).len() <= n
        }),
{
    lemma_sort_desc_usize_sorted(m);
    let k = if n <= m.len() {
        n
    } else {
        m.len() as int
    };
    let full = sort_desc_usize(m);
    let t = full.take(k);
    assert forall|i: int, j: int| 0 <= i < j < t.len() implies t[i].1 >= t[j].1 by {
        assert(t[i] == full[i]);
        assert(t[j] == full[j]);
    }
}

/// The view of a vector of labelled counts.
pub open spec fn pairs_view_usize(s: Seq<(String, usize)>) -> Seq<(Seq<char>, usize)> {
    s.map_values(|p: (String, usize)| (p.0@, p.1))
}

/// Sorts labelled counts by count, descending; entries of equal count
/// keep their order.
pub(crate) fn sort_pairs_desc_usize(v: Vec<(String, usize)>) -> (r: Vec<(String, usize)>)
    ensures
        pairs_view_usize(r@) == sort_desc_usize(pairs_view_usize(v@)),
        r@.len() == v@.len(),
{
    let ghost orig = pairs_view_usize(v@);
    let mut v = v;
    let mut out: Vec<(String, usize)> = Vec::new();
    let ghost mut done: int = 0;
    proof {
        assert(pairs_view_usize(out@) =~= sort_desc_usize(orig.take(0)));
    }
    while v.len() > 0
        invariant
            0 <= done <= orig.len(),
            orig.len() == done + v@.len(),
            pairs_view_usize(v@) =~= orig.skip(done),
            pairs_view_usize(out@) == sort_desc_usize(orig.take(done)),
            out@.len() == done,
        decreases v@.len(),
    {
        let ghost vpre = v@;
        let x = v.remove(0);
        let ghost xv = (x.0@, x.1);
        let ghost prev = pairs_view_usize(out@);
        proof {
            assert(pairs_view_usize(vpre)[0] == xv);
            assert(xv == orig[done]);
            assert forall|i: int|
                0 <= i < v@.len() implies pairs_view_usize(v@)[i] == orig.skip(done + 1)[i] by {
                assert(v@[i] == vpre[i + 1]);
                assert(pairs_view_usize(vpre)[i + 1] == orig.skip(done)[i + 1]);
            }
            assert(pairs_view_usize(v@) =~= orig.skip(done + 1));
        }
        let mut idx: usize = 0;
        while idx < out.len() && out[idx].1 >= x.1
            invariant
                0 <= idx <= out.len(),
                forall|i: int| 0 <= i < idx ==> (#[trigger] out@[i]).1 >= x.1,
            decreases out.len() - idx,
        {
            idx = idx + 1;
        }
        let ghost stop = idx as int;
        proof {
            assert forall|i: int| 0 <= i < stop implies (#[trigger] prev[i]).1 >= xv.1 by {
                assert(prev[i].1 == out@[i].1);
            }
            if stop < prev.len() {
                assert(prev[stop].1 == out@[stop].1);
            }
        }
        out.insert(idx, x);
        proof {
            lemma_insert_desc_usize_at(xv, prev, stop);
            assert(pairs_view_usize(out@) =~= prev.take(idx as int) + seq![xv] + prev.skip(
                idx as int,
            ));
            assert(orig.take(done + 1).drop_last() =~= orig.take(done));
            assert(orig.take(done + 1).last() == orig[done]);
            assert(xv == orig[done]);
            done = done + 1;
        }
    }
    proof {
        assert(orig.take(done) =~= orig);
    }
    out
}

// ---- pairs ordered by a u64 total, descending ----

pub open spec fn insert_desc_u64<K>(x: (K, u64), s: Seq<(K, u64)>) -> Seq<(K, u64)>
    decreases s.len(),
{
    if s.len() == 0 {
        seq![x]
    } else if s[0].1 >= x.1 {
        seq![s[0]] + insert_desc_u64(x, s.drop_first())
    } else {
        seq![x] + s
    }
}

/// The entries in total-descending order; entries of equal total keep
/// their original order.
pub open spec fn sort_desc_u64<K>(s: Seq<(K, u64)>) -> Seq<(K, u64)>
    decreases s.len(),
{
    if s.len() == 0 {
        Seq::empty()
    } else {
        insert_desc_u64(s.last(), sort_desc_u64(s.drop_last()))
    }
}

proof fn lemma_insert_desc_u64_at<K>(x: (K, u64), s: Seq<(K, u64)>, p: int)
    requires
        0 <= p <= s.len(),
        forall|i: int| 0 <= i < p ==> s[i].1 >= x.1,
        p < s.len() ==> s[p].1 < x.1,
    ensures
        insert_desc_u64(x, s) == s.take(p) + seq![x] + s.skip(p),
    decreases s.len(),
{
    if p == 0 {
        if s.len() == 0 {
            assert(insert_desc_u64(x, s) =~= s.take(0) + seq![x] + s.skip(0));
        } else {
            assert(insert_desc_u64(x, s) =~= s.take(0) + seq![x] + s.skip(0));
        }
    } else {
        let df = s.drop_first();
        assert(forall|i: int| 0 <= i < p - 1 ==> #[trigger] df[i].1 == s[i + 1].1);
        lemma_insert_desc_u64_at(x, df, p - 1);
        assert(insert_desc_u64(x, s) =~= s.take(p) + seq![x] + s.skip(p));
    }
}

pub proof fn lemma_sort_desc_u64_len<K>(s: Seq<(K, u64)>)
    ensures
        sort_desc_u64(s).len() == s.len(),
    decreases s.len(),
{
    if s.len() > 0 {
        lemma_sort_desc_u64_len(s.drop_last());
        let m = sort_desc_u64(s.drop_last());
        assert forall|y: (K, u64)| true implies insert_desc_u64(y, m).len() == m.len() + 1 by {
            lemma_insert_desc_u64_len_inner(y, m);
        }
    }
}

proof fn lemma_insert_desc_u64_len_inner<K>(x: (K, u64), s: Seq<(K, u64)>)
    ensures
        insert_desc_u64(x, s).len() == s.len() + 1,
    decreases s.len(),
{
    if s.len() > 0 && s[0].1 >= x.1 {
        lemma_insert_desc_u64_len_inner(x, s.drop_first());
    }
}

/// The view of a vector of labelled totals.
pub open spec fn pairs_view_u64(s: Seq<(String, u64)>) -> Seq<(Seq<char>, u64)> {
    s.map_values(|p: (String, u64)| (p.0@, p.1))
}

/// Sorts labelled totals by total, descending; entries of equal total
/// keep their order.
pub(crate) fn sort_pairs_desc_u64(v: Vec<(String, u64)>) -> (r: Vec<(String, u64)>)
    ensures
        pairs_view_u64(r@) == sort_desc_u64(pairs_view_u64(v@)),
        r@.len() == v@.len(),
{
    let ghost orig = pairs_view_u64(v@);
    let mut v = v;
    let mut out: Vec<(String, u64)> = Vec::new();
    let ghost mut done: int = 0;
    proof {
        assert(pairs_view_u64(out@) =~= sort_desc_u64(orig.take(0)));
    }
    while v.len() > 0
        invariant
            0 <= done <= orig.len(),
            orig.len() == done + v@.len(),
            pairs_view_u64(v@) =~= orig.skip(done),
            pairs_view_u64(out@) == sort_desc_u64(orig.take(done)),
            out@.len() == done,
        decreases v@.len(),
    {
        let ghost vpre = v@;
        let x = v.remove(0);
        let ghost xv = (x.0@, x.1);
        let ghost prev = pairs_view_u64(out@);
        proof {
            assert(pairs_view_u64(vpre)[0] == xv);
            assert(xv == orig[done]);
            assert forall|i: int|
                0 <= i < v@.len() implies pairs_view_u64(v@)[i] == orig.skip(done + 1)[i] by {
                assert(v@[i] == vpre[i + 1]);
                assert(pairs_view_u64(vpre)[i + 1] == orig.skip(done)[i + 1]);
            }
            assert(pairs_view_u64(v@) =~= orig.skip(done + 1));
        }
        let mut idx: usize = 0;
        while idx < out.len() && out[idx].1 >= x.1
            invariant
                0 <= idx <= out.len(),
                forall|i: int| 0 <= i < idx ==> (#[trigger] out@[i]).1 >= x.1,
            decreases out.len() - idx,
        {
            idx = idx + 1;
        }
        let ghost stop = idx as int;
        proof {
            assert forall|i: int| 0 <= i < stop implies (#[trigger] prev[i]).1 >= xv.1 by {
                assert(prev[i].1 == out@[i].1);
            }
            if stop < prev.len() {
                assert(prev[stop].1 == out@[stop].1);
            }
        }
        out.insert(idx, x);
        proof {
            lemma_insert_desc_u64_at(xv, prev, stop);
            assert(pairs_view_u64(out@) =~= prev.take(idx as int) + seq![xv] + prev.skip(
                idx as int,
            ));
            assert(orig.take(done + 1).drop_last() =~= orig.take(done));
            assert(orig.take(done + 1).last() == orig[done]);
            assert(xv == orig[done]);
            done = done + 1;
        }
    }
    proof {
        assert(orig.take(done) =~= orig);
    }
    out
}

// ---- hour buckets ordered by key, ascending ----

pub open spec fn insert_asc_hour(x: (i64, u64), s: Seq<(i64, u64)>) -> Seq<(i64, u64)>
    decreases s.len(),
{
    if s.len() == 0 {
        seq![x]
    } else if s[0].0 <= x.0 {
        seq![s[0]] + insert_asc_hour(x, s.drop_first())
    } else {
        seq![x] + s
    }
}

/// The hour buckets in hour-ascending order.
pub open spec fn sort_asc_hour(s: Seq<(i64, u64)>) -> Seq<(i64, u64)>
    decreases s.len(),
{
    if s.len() == 0 {
        Seq::empty()
    } else {
        insert_asc_hour(s.last(), sort_asc_hour(s.drop_last()))
    }
}

pub open spec fn sorted_asc_hour(s: Seq<(i64, u64)>) -> bool {
    forall|i: int, j: int| 0 <= i < j < s.len() ==> s[i].0 <= s[j].0
}

proof fn lemma_insert_asc_hour_at(x: (i64, u64), s: Seq<(i64, u64)>, p: int)
    requires
        0 <= p <= s.len(),
        forall|i: int| 0 <= i < p ==> s[i].0 <= x.0,
        p < s.len() ==> s[p].0 > x.0,
    ensures
        insert_asc_hour(x, s) == s.take(p) + seq![x] + s.skip(p),
    decreases s.len(),
{
    if p == 0 {
        if s.len() == 0 {
            assert(insert_asc_hour(x, s) =~= s.take(0) + seq![x] + s.skip(0));
        } else {
            assert(insert_asc_hour(x, s) =~= s.take(0) + seq![x] + s.skip(0));
        }
    } else {
        let df = s.drop_first();
        assert(forall|i: int| 0 <= i < p - 1 ==> #[trigger] df[i].0 == s[i + 1].0);
        lemma_insert_asc_hour_at(x, df, p - 1);
        assert(insert_asc_hour(x, s) =~= s.take(p) + seq![x] + s.skip(p));
    }
}

proof fn lemma_insert_asc_hour_len(x: (i64, u64), s: Seq<(i64, u64)>)
    ensures
        insert_asc_hour(x, s).len() == s.len() + 1,
    decreases s.len(),
{
    if s.len() > 0 && s[0].0 <= x.0 {
        lemma_insert_asc_hour_len(x, s.drop_first());
    }
}

pub proof fn lemma_sort_asc_hour_len(s: Seq<(i64, u64)>)
    ensures
        sort_asc_hour(s).len() == s.len(),
    decreases s.len(),
{
    if s.len() > 0 {
        lemma_sort_asc_hour_len(s.drop_last());
        lemma_insert_asc_hour_len(s.last(), sort_asc_hour(s.drop_last()));
    }
}

proof fn lemma_insert_asc_hour_elements(x: (i64, u64), s: Seq<(i64, u64)>)
    ensures
        forall|i: int|
            0 <= i < insert_asc_hour(x, s).len() ==> (#[trigger] insert_asc_hour(x, s)[i]) == x
                || exists|j: int| 0 <= j < s.len() && insert_asc_hour(x, s)[i] == s[j],
    decreases s.len(),
{
    let r = insert_asc_hour(x, s);
    if s.len() == 0 {
    } else if s[0].0 <= x.0 {
        let df = s.drop_first();
        lemma_insert_asc_hour_elements(x, df);
        let rr = insert_asc_hour(x, df);
        assert forall|i: int| 0 <= i < r.len() implies r[i] == x || exists|j: int|
            0 <= j < s.len() && r[i] == s[j] by {
            if i == 0 {
                assert(r[0] == s[0]);
            } else {
                assert(r[i] == rr[i - 1]);
                if rr[i - 1] != x {
                    let j = choose|j: int| 0 <= j < df.len() && rr[i - 1] == df[j];
                    assert(df[j] == s[j + 1]);
                }
            }
        }
    } else {
        assert forall|i: int| 0 <= i < r.len() implies r[i] == x || exists|j: int|
            0 <= j < s.len() && r[i] == s[j] by {
            if i > 0 {
                assert(r[i] == s[i - 1]);
            }
        }
    }
}

/// Every entry of the sorted bucket list is one of the input buckets.
pub proof fn lemma_sort_asc_hour_elements(s: Seq<(i64, u64)>)
    ensures
        forall|i: int|
            0 <= i < sort_asc_hour(s).len() ==> exists|j: int|
                0 <= j < s.len() && #[trigger] sort_asc_hour(s)[i] == s[j],
    decreases s.len(),
{
    let r = sort_asc_hour(s);
    if s.len() > 0 {
        let dl = s.drop_last();
        lemma_sort_asc_hour_elements(dl);
        lemma_insert_asc_hour_elements(s.last(), sort_asc_hour(dl));
        let m = sort_asc_hour(dl);
        assert forall|i: int| 0 <= i < r.len() implies exists|j: int|
            0 <= j < s.len() && #[trigger] r[i] == s[j] by {
            assert(r[i] == s.last() || exists|t: int| 0 <= t < m.len() && r[i] == m[t]);
            if r[i] == s.last() {
                assert(r[i] == s[s.len() - 1]);
            } else {
                let t = choose|t: int| 0 <= t < m.len() && r[i] == m[t];
                let j = choose|j: int| 0 <= j < dl.len() && m[t] == dl[j];
                assert(dl[j] == s[j]);
            }
        }
    }
}

/// Sorts hour buckets by hour, ascending.
pub(crate) fn sort_hours_asc(v: Vec<(i64, u64)>) -> (r: Vec<(i64, u64)>)
    ensures
        r@ == sort_asc_hour(v@),
        r@.len() == v@.len(),
{
    let ghost orig = v@;
    let mut v = v;
    let mut out: Vec<(i64, u64)> = Vec::new();
    let ghost mut done: int = 0;
    proof {
        assert(out@ =~= sort_asc_hour(orig.take(0)));
    }
    while v.len() > 0
        invariant
            0 <= done <= orig.len(),
            orig.len() == done + v@.len(),
            v@ =~= orig.skip(done),
            out@ == sort_asc_hour(orig.take(done)),
            out@.len() == done,
        decreases v@.len(),
    {
        let x = v.remove(0);
        let ghost prev = out@;
        let mut idx: usize = 0;
        while idx < out.len() && out[idx].0 <= x.0
            invariant
                0 <= idx <= out.len(),
                forall|i: int| 0 <= i < idx ==> (#[trigger] prev[i]).0 <= x.0,
                prev == out@,
            decreases out.len() - idx,
        {
            idx = idx + 1;
        }
        out.insert(idx, x);
        proof {
            lemma_insert_asc_hour_at(x, prev, idx as int);
            assert(out@ =~= prev.take(idx as int) + seq![x] + prev.skip(idx as int));
            assert(orig.take(done + 1).drop_last() =~= orig.take(done));
            assert(orig.take(done + 1).last() == orig[done]);
            done = done + 1;
        }
    }
    proof {
        assert(orig.take(done) =~= orig);
    }
    out
}

} // verus!
