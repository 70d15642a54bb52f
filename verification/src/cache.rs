//! Bounded least-recently-used maps, backed by `lru::LruCache`.
//!
//! A cache is modelled as a sequence of key/value pairs ordered from most
//! to least recently touched. Insertion beyond capacity evicts the last
//! (least recently touched) entry.

use vstd::prelude::*;

verus! {

#[verifier::external_type_specification]
#[verifier::external_body]
#[verifier::reject_recursive_types(K)]
#[verifier::reject_recursive_types(V)]
#[verifier::reject_recursive_types(S)]
pub struct ExLruCache<K, V, S>(lru::LruCache<K, V, S>);

#[verifier::external_type_specification]
#[verifier::external_body]
pub struct ExLruDefaultHasher(lru::DefaultHasher);

/// Whether some entry of `m` carries the key `k`.
pub open spec fn cache_has_key<K, V>(m: Seq<(K, V)>, k: K) -> bool {
    exists|i: int| 0 <= i < m.len() && m[i].0 == k
}

/// The position of the entry carrying `k` (unique when keys are distinct).
pub open spec fn cache_index_of<K, V>(m: Seq<(K, V)>, k: K) -> int {
    choose|i: int| 0 <= i < m.len() && m[i].0 == k
}

/// The value stored under `k`, if any.
pub open spec fn cache_lookup<K, V>(m: Seq<(K, V)>, k: K) -> Option<V> {
    if cache_has_key(m, k) {
        Some(m[cache_index_of(m, k)].1)
    } else {
        None
    }
}

/// The contents after writing `v` under `k` into a cache of capacity `cap`:
/// the entry moves to the most-recent position; a new key on a full cache
/// evicts the least-recent entry.
pub open spec fn cache_put_model<K, V>(m: Seq<(K, V)>, cap: usize, k: K, v: V) -> Seq<(K, V)> {
    if cache_has_key(m, k) {
        seq![(k, v)] + m.remove(cache_index_of(m, k))
    } else if m.len() < cap {
        seq![(k, v)] + m
    } else {
        seq![(k, v)] + m.drop_last()
    }
}

/// No two entries carry the same key.
pub open spec fn cache_keys_distinct<K, V>(m: Seq<(K, V)>) -> bool {
    forall|i: int, j: int| 0 <= i < j < m.len() ==> m[i].0 != m[j].0
}

pub uninterp spec fn path_cache_view(c: lru::LruCache<String, usize>) -> Seq<(Seq<char>, usize)>;

pub uninterp spec fn path_cache_cap(c: lru::LruCache<String, usize>) -> usize;

/// Relies on `lru::LruCache::new`: an empty cache with the given capacity.
#[verifier::external_body]
pub(crate) fn path_cache_new(cap: usize) -> (c: lru::LruCache<String, usize>)
    requires
        1 <= cap,
    ensures
        path_cache_view(c) == Seq::<(Seq<char>, usize)>::empty(),
        path_cache_cap(c) == cap,
{
    lru::LruCache::new(std::num::NonZeroUsize::new(cap).unwrap())
}

/// Relies on `lru::LruCache::peek`: the value under the key, found without
/// touching recency.
#[verifier::external_body]
pub(crate) fn path_cache_peek(c: &lru::LruCache<String, usize>, k: &String) -> (r: Option<usize>)
    ensures
        r == cache_lookup(path_cache_view(*c), k@),
{
    c.peek(k).copied()
}

/// Relies on `lru::LruCache::put`: writes the value under the key at the
/// most-recent position, evicting the least-recent entry when a new key
/// arrives at a full cache.
#[verifier::external_body]
pub(crate) fn path_cache_put(c: &mut lru::LruCache<String, usize>, k: String, v: usize)
    ensures
        path_cache_cap(*final(c)) == path_cache_cap(*old(c)),
        path_cache_view(*final(c)) == cache_put_model(
            path_cache_view(*old(c)),
            path_cache_cap(*old(c)),
            k@,
            v,
        ),
{
    c.put(k, v);
}

/// Relies on `lru::LruCache::iter`: yields the entries from most to least
/// recently touched.
#[verifier::external_body]
pub(crate) fn path_cache_entries(c: &lru::LruCache<String, usize>) -> (r: Vec<(String, usize)>)
    ensures
        r@.len() == path_cache_view(*c).len(),
        forall|i: int|
            0 <= i < r@.len() ==> (#[trigger] r@[i]).0@ == path_cache_view(*c)[i].0 && r@[i].1
                == path_cache_view(*c)[i].1,
{
    c.iter().map(|(k, v)| (k.clone(), *v)).collect()
}

pub uninterp spec fn hour_cache_view(c: lru::LruCache<i64, u64>) -> Seq<(i64, u64)>;

pub uninterp spec fn hour_cache_cap(c: lru::LruCache<i64, u64>) -> usize;

/// Relies on `lru::LruCache::new`: an empty cache with the given capacity.
#[verifier::external_body]
pub(crate) fn hour_cache_new(cap: usize) -> (c: lru::LruCache<i64, u64>)
    requires
        1 <= cap,
    ensures
        hour_cache_view(c) == Seq::<(i64, u64)>::empty(),
        hour_cache_cap(c) == cap,
{
    lru::LruCache::new(std::num::NonZeroUsize::new(cap).unwrap())
}

/// Relies on `lru::LruCache::peek`: the value under the key, found without
/// touching recency.
#[verifier::external_body]
pub(crate) fn hour_cache_peek(c: &lru::LruCache<i64, u64>, k: i64) -> (r: Option<u64>)
    ensures
        r == cache_lookup(hour_cache_view(*c), k),
{
    c.peek(&k).copied()
}

/// Relies on `lru::LruCache::put`: writes the value under the key at the
/// most-recent position, evicting the least-recent entry when a new key
/// arrives at a full cache.
#[verifier::external_body]
pub(crate) fn hour_cache_put(c: &mut lru::LruCache<i64, u64>, k: i64, v: u64)
    ensures
        hour_cache_cap(*final(c)) == hour_cache_cap(*old(c)),
        hour_cache_view(*final(c)) == cache_put_model(
            hour_cache_view(*old(c)),
            hour_cache_cap(*old(c)),
            k,
            v,
        ),
{
    c.put(k, v);
}

/// Relies on `lru::LruCache::iter`: yields the entries from most to least
/// recently touched.
#[verifier::external_body]
pub(crate) fn hour_cache_entries(c: &lru::LruCache<i64, u64>) -> (r: Vec<(i64, u64)>)
    ensures
        r@ == hour_cache_view(*c),
{
    c.iter().map(|(k, v)| (*k, *v)).collect()
}

/// Writing under a key keeps the keys of a cache distinct.
pub proof fn lemma_cache_put_model_distinct<K, V>(m: Seq<(K, V)>, cap: usize, k: K, v: V)
    requires
        cache_keys_distinct(m),
        1 <= cap,
    ensures
        cache_keys_distinct(cache_put_model(m, cap, k, v)),
{
    let m1 = cache_put_model(m, cap, k, v);
    if cache_has_key(m, k) {
        let idx = cache_index_of(m, k);
        assert(0 <= idx < m.len() && m[idx].0 == k);
        let rest = m.remove(idx);
        assert forall|i: int, j: int| 0 <= i < j < m1.len() implies m1[i].0 != m1[j].0 by {
            if i == 0 {
                let jr = j - 1;
                let jo = if jr < idx {
                    jr
                } else {
                    jr + 1
                };
                assert(m1[j] == rest[jr]);
                assert(rest[jr] == m[jo]);
                assert(jo != idx);
            } else {
                let ir = i - 1;
                let jr = j - 1;
                let io = if ir < idx {
                    ir
                } else {
                    ir + 1
                };
                let jo = if jr < idx {
                    jr
                } else {
                    jr + 1
                };
                assert(m1[i] == rest[ir]);
                assert(m1[j] == rest[jr]);
                assert(rest[ir] == m[io]);
                assert(rest[jr] == m[jo]);
                assert(io < jo);
            }
        }
    } else {
        assert forall|i: int, j: int| 0 <= i < j < m1.len() implies m1[i].0 != m1[j].0 by {
            if m.len() < cap {
                assert(m1 == seq![(k, v)] + m);
                if i == 0 {
                    assert(m1[j] == m[j - 1]);
                    if m[j - 1].0 == k {
                        assert(cache_has_key(m, k));
                    }
                } else {
                    assert(m1[i] == m[i - 1]);
                    assert(m1[j] == m[j - 1]);
                }
            } else {
                assert(m1 == seq![(k, v)] + m.drop_last());
                if i == 0 {
                    assert(m1[j] == m.drop_last()[j - 1]);
                    assert(m.drop_last()[j - 1] == m[j - 1]);
                    if m[j - 1].0 == k {
                        assert(cache_has_key(m, k));
                    }
                } else {
                    assert(m1[i] == m.drop_last()[i - 1]);
                    assert(m1[j] == m.drop_last()[j - 1]);
                    assert(m.drop_last()[i - 1] == m[i - 1]);
                    assert(m.drop_last()[j - 1] == m[j - 1]);
                }
            }
        }
    }
}

/// With distinct keys, an entry's position is the position its key is
/// found at.
pub proof fn lemma_cache_index_unique<K, V>(m: Seq<(K, V)>, k: K, i: int)
    requires
        cache_keys_distinct(m),
        0 <= i < m.len(),
        m[i].0 == k,
    ensures
        cache_has_key(m, k),
        cache_index_of(m, k) == i,
{
    assert(cache_has_key(m, k));
    let w = cache_index_of(m, k);
    assert(0 <= w < m.len() && m[w].0 == k);
    if w < i {
        assert(m[w].0 != m[i].0);
    }
    if i < w {
        assert(m[i].0 != m[w].0);
    }
}

/// Every entry after a write is the written pair or one of the old entries.
pub proof fn lemma_cache_put_model_elements<K, V>(m: Seq<(K, V)>, cap: usize, k: K, v: V)
    requires
        1 <= cap,
    ensures
        forall|i: int|
            0 <= i < cache_put_model(m, cap, k, v).len() ==> (#[trigger] cache_put_model(
                m,
                cap,
                k,
                v,
            )[i]) == (k, v) || exists|j: int|
                0 <= j < m.len() && cache_put_model(m, cap, k, v)[i] == m[j],
{
    let m1 = cache_put_model(m, cap, k, v);
    if cache_has_key(m, k) {
        let idx = cache_index_of(m, k);
        assert(0 <= idx < m.len() && m[idx].0 == k);
        let rest = m.remove(idx);
        assert forall|i: int| 0 <= i < m1.len() implies m1[i] == (k, v) || exists|j: int|
            0 <= j < m.len() && m1[i] == m[j] by {
            if i > 0 {
                let ir = i - 1;
                let io = if ir < idx {
                    ir
                } else {
                    ir + 1
                };
                assert(m1[i] == rest[ir]);
                assert(rest[ir] == m[io]);
            }
        }
    } else {
        assert forall|i: int| 0 <= i < m1.len() implies m1[i] == (k, v) || exists|j: int|
            0 <= j < m.len() && m1[i] == m[j] by {
            if i > 0 {
                if m.len() < cap {
                    assert(m1[i] == m[i - 1]);
                } else {
                    assert(m1[i] == m.drop_last()[i - 1]);
                    assert(m.drop_last()[i - 1] == m[i - 1]);
                }
            }
        }
    }
}

/// Replacing an entry's value in place keeps the keys distinct.
pub proof fn lemma_update_same_key_distinct<K, V>(m: Seq<(K, V)>, i: int, p: (K, V))
    requires
        cache_keys_distinct(m),
        0 <= i < m.len(),
        p.0 == m[i].0,
    ensures
        cache_keys_distinct(m.update(i, p)),
{
    let m1 = m.update(i, p);
    assert forall|a: int, b: int| 0 <= a < b < m1.len() implies m1[a].0 != m1[b].0 by {
        assert(m1[a].0 == m[a].0);
        assert(m1[b].0 == m[b].0);
    }
}

/// Appending an unseen key keeps the keys distinct.
pub proof fn lemma_push_new_key_distinct<K, V>(m: Seq<(K, V)>, p: (K, V))
    requires
        cache_keys_distinct(m),
        !cache_has_key(m, p.0),
    ensures
        cache_keys_distinct(m.push(p)),
{
    let m1 = m.push(p);
    assert forall|a: int, b: int| 0 <= a < b < m1.len() implies m1[a].0 != m1[b].0 by {
        if b < m.len() {
            assert(m1[a].0 == m[a].0);
            assert(m1[b].0 == m[b].0);
        } else {
            assert(m1[a].0 == m[a].0);
            if m[a].0 == p.0 {
                assert(cache_has_key(m, p.0));
            }
        }
    }
}

/// After a write, the written key reads back as the written value.
pub proof fn lemma_cache_put_lookup<K, V>(m: Seq<(K, V)>, cap: usize, k: K, v: V)
    requires
        cache_keys_distinct(m),
        1 <= cap,
    ensures
        cache_lookup(cache_put_model(m, cap, k, v), k) == Some(v),
{
    let m1 = cache_put_model(m, cap, k, v);
    lemma_cache_put_model_distinct(m, cap, k, v);
    assert(m1[0] == (k, v));
    lemma_cache_index_unique(m1, k, 0);
}

/// The size of a cache never passes its capacity.
pub proof fn lemma_cache_put_model_len<K, V>(m: Seq<(K, V)>, cap: usize, k: K, v: V)
    requires
        m.len() <= cap,
        1 <= cap,
    ensures
        cache_put_model(m, cap, k, v).len() <= cap,
        cache_put_model(m, cap, k, v).len() >= 1,
{
}

} // verus!
