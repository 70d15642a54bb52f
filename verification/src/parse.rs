//! The line parser: one raw text line to a structured access-log record,
//! or rejection. Any missing token, unknown month name, out-of-range
//! calendar field or non-numeric status or byte field rejects the line.

use vstd::prelude::*;
use vstd::arithmetic::div_mod::*;
use crate::models::{LogEntry, LogEntryView};
use crate::timestamp::{
    civil_to_unix, civil_to_unix_x, valid_civil, spec_days_in_month, days_in_month_x,
    MIN_UNIX_SECS, MAX_UNIX_SECS,
};

verus! {

/// ASCII whitespace: the token separators of a log line.
pub open spec fn is_ws(c: char) -> bool {
    c == ' ' || c == '\t' || c == '\n' || c == '\r' || c == '\u{000c}'
}

/// The first position at or after `i` holding a non-space character.
pub open spec fn skip_ws(s: Seq<char>, i: int) -> int
    decreases s.len() - i,
{
    if i < 0 || i >= s.len() {
        i
    } else if is_ws(s[i]) {
        skip_ws(s, i + 1)
    } else {
        i
    }
}

/// The first position at or after `i` holding a space, or the end.
pub open spec fn token_end(s: Seq<char>, i: int) -> int
    decreases s.len() - i,
{
    if i < 0 || i >= s.len() {
        i
    } else if is_ws(s[i]) {
        i
    } else {
        token_end(s, i + 1)
    }
}

proof fn lemma_skip_ws_props(s: Seq<char>, i: int)
    requires
        0 <= i <= s.len(),
    ensures
        i <= skip_ws(s, i) <= s.len(),
        skip_ws(s, i) < s.len() ==> !is_ws(s[skip_ws(s, i)]),
    decreases s.len() - i,
{
    if i < s.len() && is_ws(s[i]) {
        lemma_skip_ws_props(s, i + 1);
    }
}

proof fn lemma_token_end_props(s: Seq<char>, i: int)
    requires
        0 <= i <= s.len(),
    ensures
        i <= token_end(s, i) <= s.len(),
        (i < s.len() && !is_ws(s[i])) ==> token_end(s, i) > i,
    decreases s.len() - i,
{
    if i < s.len() && !is_ws(s[i]) {
        lemma_token_end_props(s, i + 1);
    }
}

fn is_ws_x(c: char) -> (r: bool)
    ensures
        r == is_ws(c),
{
    c == ' ' || c == '\t' || c == '\n' || c == '\r' || c == '\u{000c}'
}

fn skip_ws_x(s: &str, i: usize, n: usize) -> (r: usize)
    requires
        n == s@.len(),
        i <= n,
    ensures
        r as int == skip_ws(s@, i as int),
        i <= r <= n,
{
    let mut j = i;
    while j < n && is_ws_x(s.get_char(j))
        invariant
            i <= j <= n,
            n == s@.len(),
            skip_ws(s@, i as int) == skip_ws(s@, j as int),
        decreases n - j,
    {
        j = j + 1;
    }
    j
}

fn token_end_x(s: &str, i: usize, n: usize) -> (r: usize)
    requires
        n == s@.len(),
        i <= n,
    ensures
        r as int == token_end(s@, i as int),
        i <= r <= n,
{
    let mut j = i;
    while j < n && !is_ws_x(s.get_char(j))
        invariant
            i <= j <= n,
            n == s@.len(),
            token_end(s@, i as int) == token_end(s@, j as int),
        decreases n - j,
    {
        j = j + 1;
    }
    j
}

/// A decimal digit.
pub open spec fn is_digit(c: char) -> bool {
    48 <= c as u32 <= 57
}

pub open spec fn digit_val(c: char) -> int {
    c as u32 - 48
}

pub open spec fn all_digits(t: Seq<char>) -> bool {
    forall|i: int| 0 <= i < t.len() ==> is_digit(#[trigger] t[i])
}

/// The number the digits spell, most significant first.
pub open spec fn uint_val(t: Seq<char>) -> int
    decreases t.len(),
{
    if t.len() == 0 {
        0
    } else {
        uint_val(t.drop_last()) * 10 + digit_val(t.last())
    }
}

/// An unsigned decimal field: at least one character, digits only.
pub open spec fn spec_parse_uint(t: Seq<char>) -> Option<int> {
    if t.len() == 0 || !all_digits(t) {
        None
    } else {
        Some(uint_val(t))
    }
}

proof fn lemma_uint_val_nonneg(t: Seq<char>)
    requires
        all_digits(t),
    ensures
        uint_val(t) >= 0,
    decreases t.len(),
{
    if t.len() > 0 {
        assert(all_digits(t.drop_last()));
        lemma_uint_val_nonneg(t.drop_last());
    }
}

proof fn lemma_uint_val_prefix(t: Seq<char>, j: int)
    requires
        all_digits(t),
        0 <= j <= t.len(),
    ensures
        uint_val(t.take(j)) <= uint_val(t),
    decreases t.len() - j,
{
    if j == t.len() {
        assert(t.take(j) =~= t);
    } else {
        lemma_uint_val_prefix(t, j + 1);
        assert(all_digits(t.take(j)));
        assert(t.take(j + 1).drop_last() =~= t.take(j));
        assert(t.take(j + 1).last() == t[j]);
        lemma_uint_val_nonneg(t.take(j));
        assert(uint_val(t.take(j)) <= uint_val(t.take(j + 1)));
    }
}

fn parse_uint_x(s: &str, from: usize, to: usize, n: usize) -> (r: Option<u64>)
    requires
        n == s@.len(),
        from <= to <= n,
    ensures
        match spec_parse_uint(s@.subrange(from as int, to as int)) {
            Some(v) => 0 <= v && (if v <= u64::MAX {
                r == Some(v as u64)
            } else {
                r is None
            }),
            None => r is None,
        },
{
    let ghost t = s@.subrange(from as int, to as int);
    proof {
        if t.len() > 0 && all_digits(t) {
            lemma_uint_val_nonneg(t);
        }
    }
    if from == to {
        return None;
    }
    let mut acc: u64 = 0;
    let mut j = from;
    while j < to
        invariant
            from <= j <= to <= n,
            n == s@.len(),
            t == s@.subrange(from as int, to as int),
            t.len() == to - from,
            all_digits(t.take(j - from)),
            acc as int == uint_val(t.take(j - from)),
        decreases to - j,
    {
        let c = s.get_char(j);
        let cv = c as u32;
        proof {
            assert(t[j - from] == s@[j as int]);
        }
        if cv < 48 || cv > 57 {
            proof {
                assert(!is_digit(t[j - from]));
                assert(!all_digits(t));
            }
            return None;
        }
        let d = (cv - 48) as u64;
        proof {
            assert(t.take(j - from + 1).drop_last() =~= t.take(j - from));
            assert(t.take(j - from + 1).last() == t[j - from]);
        }
        if acc > (u64::MAX - d) / 10 {
            proof {
                let q = ((u64::MAX - d) as int) / 10;
                lemma_fundamental_div_mod((u64::MAX - d) as int, 10);
                lemma_mod_bound((u64::MAX - d) as int, 10);
                assert(acc as int * 10 + d as int > u64::MAX);
                assert(uint_val(t.take(j - from + 1)) > u64::MAX);
                if all_digits(t) {
                    lemma_uint_val_prefix(t, j - from + 1);
                    assert(uint_val(t) > u64::MAX);
                }
            }
            return None;
        }
        acc = acc * 10 + d;
        j = j + 1;
    }
    proof {
        assert(t.take(to - from) =~= t);
    }
    Some(acc)
}

/// The month number of a three-letter month name.
pub open spec fn month_num(t: Seq<char>) -> Option<int> {
    if t.len() != 3 {
        None
    } else if t[0] == 'J' && t[1] == 'a' && t[2] == 'n' {
        Some(1)
    } else if t[0] == 'F' && t[1] == 'e' && t[2] == 'b' {
        Some(2)
    } else if t[0] == 'M' && t[1] == 'a' && t[2] == 'r' {
        Some(3)
    } else if t[0] == 'A' && t[1] == 'p' && t[2] == 'r' {
        Some(4)
    } else if t[0] == 'M' && t[1] == 'a' && t[2] == 'y' {
        Some(5)
    } else if t[0] == 'J' && t[1] == 'u' && t[2] == 'n' {
        Some(6)
    } else if t[0] == 'J' && t[1] == 'u' && t[2] == 'l' {
        Some(7)
    } else if t[0] == 'A' && t[1] == 'u' && t[2] == 'g' {
        Some(8)
    } else if t[0] == 'S' && t[1] == 'e' && t[2] == 'p' {
        Some(9)
    } else if t[0] == 'O' && t[1] == 'c' && t[2] == 't' {
        Some(10)
    } else if t[0] == 'N' && t[1] == 'o' && t[2] == 'v' {
        Some(11)
    } else if t[0] == 'D' && t[1] == 'e' && t[2] == 'c' {
        Some(12)
    } else {
        None
    }
}

fn month_num_x(s: &str, from: usize, to: usize, n: usize) -> (r: Option<u64>)
    requires
        n == s@.len(),
        from <= to <= n,
    ensures
        match month_num(s@.subrange(from as int, to as int)) {
            Some(v) => r == Some(v as u64),
            None => r is None,
        },
{
    if to - from != 3 {
        return None;
    }
    let c0 = s.get_char(from);
    let c1 = s.get_char(from + 1);
    let c2 = s.get_char(from + 2);
    proof {
        let t = s@.subrange(from as int, to as int);
        assert(t[0] == s@[from as int]);
        assert(t[1] == s@[from as int + 1]);
        assert(t[2] == s@[from as int + 2]);
    }
    if c0 == 'J' && c1 == 'a' && c2 == 'n' {
        Some(1)
    } else if c0 == 'F' && c1 == 'e' && c2 == 'b' {
        Some(2)
    } else if c0 == 'M' && c1 == 'a' && c2 == 'r' {
        Some(3)
    } else if c0 == 'A' && c1 == 'p' && c2 == 'r' {
        Some(4)
    } else if c0 == 'M' && c1 == 'a' && c2 == 'y' {
        Some(5)
    } else if c0 == 'J' && c1 == 'u' && c2 == 'n' {
        Some(6)
    } else if c0 == 'J' && c1 == 'u' && c2 == 'l' {
        Some(7)
    } else if c0 == 'A' && c1 == 'u' && c2 == 'g' {
        Some(8)
    } else if c0 == 'S' && c1 == 'e' && c2 == 'p' {
        Some(9)
    } else if c0 == 'O' && c1 == 'c' && c2 == 't' {
        Some(10)
    } else if c0 == 'N' && c1 == 'o' && c2 == 'v' {
        Some(11)
    } else if c0 == 'D' && c1 == 'e' && c2 == 'c' {
        Some(12)
    } else {
        None
    }
}

/// A timestamp field separator.
pub open spec fn is_sep(c: char) -> bool {
    c == '/' || c == ':' || c == ' '
}

/// The first position at or after `i` holding a separator, or the end.
pub open spec fn find_sep(s: Seq<char>, i: int) -> int
    decreases s.len() - i,
{
    if i < 0 || i >= s.len() {
        i
    } else if is_sep(s[i]) {
        i
    } else {
        find_sep(s, i + 1)
    }
}

fn find_sep_x(s: &str, i: usize, n: usize) -> (r: usize)
    requires
        n == s@.len(),
        i <= n,
    ensures
        r as int == find_sep(s@, i as int),
        i <= r <= n,
{
    let mut j = i;
    while j < n && !(s.get_char(j) == '/' || s.get_char(j) == ':' || s.get_char(j) == ' ')
        invariant
            i <= j <= n,
            n == s@.len(),
            find_sep(s@, i as int) == find_sep(s@, j as int),
        decreases n - j,
    {
        j = j + 1;
    }
    j
}

/// The zone offset in seconds: an optional sign and exactly four digits,
/// hours then minutes.
pub open spec fn spec_parse_offset(t: Seq<char>) -> Option<int> {
    if t.len() == 5 && (t[0] == '+' || t[0] == '-') && all_digits(t.subrange(1, 5)) {
        let v = uint_val(t.subrange(1, 3)) * 3600 + uint_val(t.subrange(3, 5)) * 60;
        if t[0] == '-' {
            Some(-v)
        } else {
            Some(v)
        }
    } else if t.len() == 4 && all_digits(t) {
        Some(uint_val(t.subrange(0, 2)) * 3600 + uint_val(t.subrange(2, 4)) * 60)
    } else {
        None
    }
}

proof fn lemma_two_digits_small(t: Seq<char>)
    requires
        t.len() == 2,
        all_digits(t),
    ensures
        0 <= uint_val(t) <= 99,
{
    assert(t.drop_last().len() == 1);
    assert(all_digits(t.drop_last()));
    assert(t.drop_last().drop_last().len() == 0);
    assert(uint_val(t.drop_last().drop_last()) == 0);
    assert(uint_val(t.drop_last()) == digit_val(t.drop_last().last()));
}

fn parse_offset_x(s: &str, from: usize, n: usize) -> (r: Option<i64>)
    requires
        n == s@.len(),
        from <= n,
    ensures
        match spec_parse_offset(s@.subrange(from as int, n as int)) {
            Some(v) => r == Some(v as i64) && -362340 <= v <= 362340,
            None => r is None,
        },
{
    let ghost t = s@.subrange(from as int, n as int);
    let len = n - from;
    if len == 5 {
        let c0 = s.get_char(from);
        proof {
            assert(t[0] == s@[from as int]);
        }
        if !(c0 == '+' || c0 == '-') {
            return None;
        }
        let oh = parse_uint_x(s, from + 1, from + 3, n);
        let om = parse_uint_x(s, from + 3, from + 5, n);
        proof {
            assert(t.subrange(1, 3) =~= s@.subrange(from as int + 1, from as int + 3));
            assert(t.subrange(3, 5) =~= s@.subrange(from as int + 3, from as int + 5));
        }
        match (oh, om) {
            (Some(h), Some(m)) => {
                proof {
                    lemma_two_digits_small(t.subrange(1, 3));
                    lemma_two_digits_small(t.subrange(3, 5));
                    assert(t.subrange(1, 5) =~= t.subrange(1, 3) + t.subrange(3, 5));
                    assert forall|q: int| 0 <= q < t.subrange(1, 5).len() implies is_digit(
                        #[trigger] t.subrange(1, 5)[q],
                    ) by {
                        if q < 2 {
                            assert(t.subrange(1, 5)[q] == t.subrange(1, 3)[q]);
                        } else {
                            assert(t.subrange(1, 5)[q] == t.subrange(3, 5)[q - 2]);
                        }
                    }
                }
                let v: i64 = (h as i64) * 3600 + (m as i64) * 60;
                if c0 == '-' {
                    Some(-v)
                } else {
                    Some(v)
                }
            },
            _ => {
                proof {
                    if all_digits(t.subrange(1, 5)) {
                        assert(all_digits(t.subrange(1, 3))) by {
                            assert forall|q: int| 0 <= q < 2 implies is_digit(
                                #[trigger] t.subrange(1, 3)[q],
                            ) by {
                                assert(t.subrange(1, 3)[q] == t.subrange(1, 5)[q]);
                            }
                        }
                        assert(all_digits(t.subrange(3, 5))) by {
                            assert forall|q: int| 0 <= q < 2 implies is_digit(
                                #[trigger] t.subrange(3, 5)[q],
                            ) by {
                                assert(t.subrange(3, 5)[q] == t.subrange(1, 5)[q + 2]);
                            }
                        }
                        lemma_two_digits_small(t.subrange(1, 3));
                        lemma_two_digits_small(t.subrange(3, 5));
                        assert(false);
                    }
                }
                None
            },
        }
    } else if len == 4 {
        let oh = parse_uint_x(s, from, from + 2, n);
        let om = parse_uint_x(s, from + 2, from + 4, n);
        proof {
            assert(t.subrange(0, 2) =~= s@.subrange(from as int, from as int + 2));
            assert(t.subrange(2, 4) =~= s@.subrange(from as int + 2, from as int + 4));
        }
        match (oh, om) {
            (Some(h), Some(m)) => {
                proof {
                    lemma_two_digits_small(t.subrange(0, 2));
                    lemma_two_digits_small(t.subrange(2, 4));
                    assert forall|q: int| 0 <= q < t.len() implies is_digit(
                        #[trigger] t[q],
                    ) by {
                        if q < 2 {
                            assert(t.subrange(0, 2)[q] == t[q]);
                        } else {
                            assert(t.subrange(2, 4)[q - 2] == t[q]);
                        }
                    }
                }
                Some((h as i64) * 3600 + (m as i64) * 60)
            },
            _ => {
                proof {
                    if all_digits(t) {
                        assert(all_digits(t.subrange(0, 2))) by {
                            assert forall|q: int| 0 <= q < 2 implies is_digit(
                                #[trigger] t.subrange(0, 2)[q],
                            ) by {
                                assert(t.subrange(0, 2)[q] == t[q]);
                            }
                        }
                        assert(all_digits(t.subrange(2, 4))) by {
                            assert forall|q: int| 0 <= q < 2 implies is_digit(
                                #[trigger] t.subrange(2, 4)[q],
                            ) by {
                                assert(t.subrange(2, 4)[q] == t[q + 2]);
                            }
                        }
                        lemma_two_digits_small(t.subrange(0, 2));
                        lemma_two_digits_small(t.subrange(2, 4));
                        assert(false);
                    }
                }
                None
            },
        }
    } else {
        None
    }
}

/// The bracketed timestamp text, `day/mon/year:hour:min:sec offset`, as
/// Unix seconds in UTC: the zone offset is honoured, and a result
/// outside the representable range rejects the line.
pub open spec fn spec_parse_ts(t: Seq<char>) -> Option<int> {
    let e1 = find_sep(t, 0);
    let e2 = find_sep(t, e1 + 1);
    let e3 = find_sep(t, e2 + 1);
    let e4 = find_sep(t, e3 + 1);
    let e5 = find_sep(t, e4 + 1);
    let e6 = find_sep(t, e5 + 1);
    if e1 >= t.len() || e2 >= t.len() || e3 >= t.len() || e4 >= t.len() || e5 >= t.len() || e6
        >= t.len() {
        None
    } else {
        let day = spec_parse_uint(t.subrange(0, e1));
        let mon = month_num(t.subrange(e1 + 1, e2));
        let year = spec_parse_uint(t.subrange(e2 + 1, e3));
        let hour = spec_parse_uint(t.subrange(e3 + 1, e4));
        let minute = spec_parse_uint(t.subrange(e4 + 1, e5));
        let second = spec_parse_uint(t.subrange(e5 + 1, e6));
        let off = spec_parse_offset(t.subrange(e6 + 1, t.len() as int));
        if day is None || mon is None || year is None || hour is None || minute is None || second
            is None || off is None {
            None
        } else {
            let d = day->Some_0;
            let mo = mon->Some_0;
            let y = year->Some_0;
            let h = hour->Some_0;
            let mi = minute->Some_0;
            let se = second->Some_0;
            if valid_civil(y, mo, d) && h <= 23 && mi <= 59 && se <= 59 {
                let utc = civil_to_unix(y, mo, d, h, mi, se) - off->Some_0;
                if MIN_UNIX_SECS <= utc <= MAX_UNIX_SECS {
                    Some(utc)
                } else {
                    None
                }
            } else {
                None
            }
        }
    }
}

/// Parses the bracketed timestamp text of a line.
pub(crate) fn parse_apache_timestamp(s: &str) -> (r: Option<i64>)
    ensures
        match spec_parse_ts(s@) {
            Some(v) => r == Some(v as i64) && MIN_UNIX_SECS <= v <= MAX_UNIX_SECS,
            None => r is None,
        },
{
    let n = s.unicode_len();
    let e1 = find_sep_x(s, 0, n);
    if e1 >= n {
        return None;
    }
    let e2 = find_sep_x(s, e1 + 1, n);
    if e2 >= n {
        return None;
    }
    let e3 = find_sep_x(s, e2 + 1, n);
    if e3 >= n {
        return None;
    }
    let e4 = find_sep_x(s, e3 + 1, n);
    if e4 >= n {
        return None;
    }
    let e5 = find_sep_x(s, e4 + 1, n);
    if e5 >= n {
        return None;
    }
    let e6 = find_sep_x(s, e5 + 1, n);
    if e6 >= n {
        return None;
    }
    let day = match parse_uint_x(s, 0, e1, n) {
        Some(v) => v,
        None => {
            return None;
        },
    };
    let mo = match month_num_x(s, e1 + 1, e2, n) {
        Some(v) => v,
        None => {
            return None;
        },
    };
    let y = match parse_uint_x(s, e2 + 1, e3, n) {
        Some(v) => v,
        None => {
            return None;
        },
    };
    let h = match parse_uint_x(s, e3 + 1, e4, n) {
        Some(v) => v,
        None => {
            return None;
        },
    };
    let mi = match parse_uint_x(s, e4 + 1, e5, n) {
        Some(v) => v,
        None => {
            return None;
        },
    };
    let se = match parse_uint_x(s, e5 + 1, e6, n) {
        Some(v) => v,
        None => {
            return None;
        },
    };
    let off = match parse_offset_x(s, e6 + 1, n) {
        Some(v) => v,
        None => {
            return None;
        },
    };
    if y > 9999 || mo < 1 || mo > 12 {
        return None;
    }
    if day < 1 || day > days_in_month_x(y, mo) {
        return None;
    }
    if h > 23 || mi > 59 || se > 59 {
        return None;
    }
    let base = civil_to_unix_x(y, mo, day, h, mi, se);
    let utc = base - off;
    if utc < MIN_UNIX_SECS || utc > MAX_UNIX_SECS {
        return None;
    }
    Some(utc)
}

/// The end of the first token at or after `i` that closes the quoted
/// request section, or the end of the text when no token does.
pub open spec fn after_quote(s: Seq<char>, i: int) -> int
    decreases s.len() - i,
    via after_quote_decreases
{
    if i < 0 || skip_ws(s, i) >= s.len() {
        s.len() as int
    } else {
        let a = skip_ws(s, i);
        let b = token_end(s, a);
        if s[b - 1] == '"' {
            b
        } else {
            after_quote(s, b)
        }
    }
}

#[via_fn]
proof fn after_quote_decreases(s: Seq<char>, i: int) {
    if 0 <= i && skip_ws(s, i) < s.len() {
        lemma_skip_ws_props(s, i);
        lemma_token_end_props(s, skip_ws(s, i));
    }
}

fn after_quote_x(s: &str, i: usize, n: usize) -> (r: usize)
    requires
        n == s@.len(),
        i <= n,
    ensures
        r as int == after_quote(s@, i as int),
        i <= r <= n,
    decreases n - i,
{
    let a = skip_ws_x(s, i, n);
    if a >= n {
        return n;
    }
    let b = token_end_x(s, a, n);
    proof {
        lemma_skip_ws_props(s@, i as int);
        lemma_token_end_props(s@, a as int);
    }
    if s.get_char(b - 1) == '"' {
        b
    } else {
        after_quote_x(s, b, n)
    }
}

/// What one raw line parses to, if anything: the Common/Combined log
/// shape `host - - [timestamp] "method path ..." status bytes`: the
/// path is the second token of the quoted request, its one trailing
/// quote stripped; anything further inside the quotes is skipped; the
/// status is three digits; the byte count is zero when the field is
/// `-`.
pub open spec fn spec_parse_log_line(s: Seq<char>) -> Option<LogEntryView> {
    let h0 = skip_ws(s, 0);
    let h1 = token_end(s, h0);
    let d0 = skip_ws(s, h1);
    let d1 = token_end(s, d0);
    let e0 = skip_ws(s, d1);
    let e1 = token_end(s, e0);
    let t0 = skip_ws(s, e1);
    let t1 = token_end(s, t0);
    let u0 = skip_ws(s, t1);
    let u1 = token_end(s, u0);
    let m0 = skip_ws(s, u1);
    let m1 = token_end(s, m0);
    let p0 = skip_ws(s, m1);
    let p1 = token_end(s, p0);
    let qe = if s[p1 - 1] == '"' {
        p1
    } else {
        after_quote(s, p1)
    };
    let st0 = skip_ws(s, qe);
    let st1 = token_end(s, st0);
    let b0 = skip_ws(s, st1);
    let b1 = token_end(s, b0);
    if h0 >= s.len() || d0 >= s.len() || e0 >= s.len() || t0 >= s.len() || u0 >= s.len() || m0
        >= s.len() || p0 >= s.len() || st0 >= s.len() || b0 >= s.len() {
        None
    } else if s[t0] != '[' || s[u1 - 1] != ']' {
        None
    } else {
        let stok = s.subrange(st0, st1);
        let btok = s.subrange(b0, b1);
        let ptok = s.subrange(p0, p1);
        let path = if ptok[ptok.len() - 1] == '"' {
            ptok.drop_last()
        } else {
            ptok
        };
        let status = spec_parse_uint(stok);
        let bytes = if btok =~= seq!['-'] {
            Some(0int)
        } else {
            spec_parse_uint(btok)
        };
        if stok.len() != 3 || status is None {
            None
        } else if bytes is None || bytes->Some_0 > u64::MAX {
            None
        } else {
            match spec_parse_ts(s.subrange(t0 + 1, u1 - 1)) {
                None => None,
                Some(utc) => Some(
                    LogEntryView {
                        host: s.subrange(h0, h1),
                        timestamp: utc,
                        path: path,
                        status: status->Some_0 as u16,
                        bytes: bytes->Some_0 as u64,
                    },
                ),
            }
        }
    }
}

/// A parsed record's instant lies in the representable range: the
/// timestamp grammar rejects anything outside it.
pub proof fn lemma_parsed_timestamp_in_range(s: Seq<char>)
    requires
        spec_parse_log_line(s) is Some,
    ensures
        MIN_UNIX_SECS <= spec_parse_log_line(s)->Some_0.timestamp <= MAX_UNIX_SECS,
{
}

/// Parses one raw line; a malformed line yields no record, never a
/// partial one.
pub fn parse_log_line(line: &str) -> (r: Option<LogEntry>)
    ensures
        match r {
            Some(e) => spec_parse_log_line(line@) == Some(e@),
            None => spec_parse_log_line(line@) is None,
        },
{
    let n = line.unicode_len();
    let h0 = skip_ws_x(line, 0, n);
    if h0 >= n {
        return None;
    }
    let h1 = token_end_x(line, h0, n);
    let d0 = skip_ws_x(line, h1, n);
    if d0 >= n {
        return None;
    }
    let d1 = token_end_x(line, d0, n);
    let e0 = skip_ws_x(line, d1, n);
    if e0 >= n {
        return None;
    }
    let e1 = token_end_x(line, e0, n);
    let t0 = skip_ws_x(line, e1, n);
    if t0 >= n {
        return None;
    }
    let t1 = token_end_x(line, t0, n);
    let u0 = skip_ws_x(line, t1, n);
    if u0 >= n {
        return None;
    }
    let u1 = token_end_x(line, u0, n);
    let m0 = skip_ws_x(line, u1, n);
    if m0 >= n {
        return None;
    }
    let m1 = token_end_x(line, m0, n);
    let p0 = skip_ws_x(line, m1, n);
    if p0 >= n {
        return None;
    }
    let p1 = token_end_x(line, p0, n);
    proof {
        lemma_skip_ws_props(line@, m1 as int);
        lemma_token_end_props(line@, p0 as int);
    }
    let qe = if line.get_char(p1 - 1) == '"' {
        p1
    } else {
        after_quote_x(line, p1, n)
    };
    let st0 = skip_ws_x(line, qe, n);
    if st0 >= n {
        return None;
    }
    let st1 = token_end_x(line, st0, n);
    let b0 = skip_ws_x(line, st1, n);
    if b0 >= n {
        return None;
    }
    let b1 = token_end_x(line, b0, n);
    proof {
        // each started token holds at least one character
        lemma_skip_ws_props(line@, e1 as int);
        lemma_token_end_props(line@, t0 as int);
        lemma_skip_ws_props(line@, t1 as int);
        lemma_token_end_props(line@, u0 as int);
        lemma_skip_ws_props(line@, m1 as int);
        lemma_token_end_props(line@, p0 as int);
        lemma_skip_ws_props(line@, 0);
        lemma_token_end_props(line@, h0 as int);
    }
    if line.get_char(t0) != '[' {
        return None;
    }
    if line.get_char(u1 - 1) != ']' {
        return None;
    }
    // status: exactly three digits
    if st1 - st0 != 3 {
        proof {
            assert(line@.subrange(st0 as int, st1 as int).len() != 3);
        }
        return None;
    }
    let status = match parse_uint_x(line, st0, st1, n) {
        Some(v) => v,
        None => {
            proof {
                let stok = line@.subrange(st0 as int, st1 as int);
                if spec_parse_uint(stok) is Some {
                    assert(all_digits(stok));
                    assert(all_digits(stok.drop_last()));
                    lemma_two_digits_small(stok.drop_last());
                    assert(uint_val(stok) <= 999);
                }
            }
            return None;
        },
    };
    proof {
        let stok = line@.subrange(st0 as int, st1 as int);
        assert(all_digits(stok));
        assert(all_digits(stok.drop_last()));
        lemma_two_digits_small(stok.drop_last());
        assert(status <= 999);
    }
    // bytes: `-` or an unsigned decimal
    let bytes: u64 = if b1 - b0 == 1 && line.get_char(b0) == '-' {
        proof {
            assert(line@.subrange(b0 as int, b1 as int) =~= seq!['-']);
        }
        0
    } else {
        proof {
            let btok = line@.subrange(b0 as int, b1 as int);
            if btok =~= seq!['-'] {
                assert(b1 - b0 == 1);
                assert(line@[b0 as int] == '-');
            }
        }
        match parse_uint_x(line, b0, b1, n) {
            Some(v) => v,
            None => {
                return None;
            },
        }
    };
    // the bracketed timestamp, offset converted to UTC
    let tss = line.substring_char(t0 + 1, u1 - 1);
    let ts = match parse_apache_timestamp(tss) {
        Some(v) => v,
        None => {
            return None;
        },
    };
    let host = String::from_str(line.substring_char(h0, h1));
    let rawpath = line.substring_char(p0, p1);
    let pn = p1 - p0;
    let path = if rawpath.get_char(pn - 1) == '"' {
        String::from_str(rawpath.substring_char(0, pn - 1))
    } else {
        String::from_str(rawpath)
    };
    proof {
        let ptok = line@.subrange(p0 as int, p1 as int);
        if ptok[ptok.len() - 1] == '"' {
            assert(path@ =~= ptok.drop_last());
        } else {
            assert(path@ =~= ptok);
        }
    }
    let entry = LogEntry { host, timestamp: ts, path, status: status as u16, bytes };
    proof {
        assert(spec_parse_log_line(line@) == Some(entry@));
    }
    Some(entry)
}

} // verus!
