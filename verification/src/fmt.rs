//! Decimal and label formatting for the text exposition output.

use vstd::prelude::*;
use vstd::arithmetic::div_mod::*;
use crate::timestamp::{Timestamp, utc_fields_of};

verus! {

pub open spec fn digit_char(d: int) -> char {
    if d == 0 {
        '0'
    } else if d == 1 {
        '1'
    } else if d == 2 {
        '2'
    } else if d == 3 {
        '3'
    } else if d == 4 {
        '4'
    } else if d == 5 {
        '5'
    } else if d == 6 {
        '6'
    } else if d == 7 {
        '7'
    } else if d == 8 {
        '8'
    } else {
        '9'
    }
}

/// The decimal digits of a non-negative number, most significant first.
pub open spec fn dec_digits(n: int) -> Seq<char>
    decreases n,
{
    if n < 10 {
        seq![digit_char(n)]
    } else {
        dec_digits(n / 10).push(digit_char(n % 10))
    }
}

pub open spec fn zeros(k: int) -> Seq<char>
    decreases k,
{
    if k <= 0 {
        Seq::empty()
    } else {
        zeros(k - 1).push('0')
    }
}

/// The decimal digits of `n`, left-padded with zeros to at least `w`
/// characters.
pub open spec fn dec_padded(n: int, w: int) -> Seq<char> {
    zeros(w - dec_digits(n).len()) + dec_digits(n)
}

/// Relies on `String::push`: appends one character.
#[verifier::external_body]
pub(crate) fn push_char(s: &mut String, c: char)
    ensures
        final(s)@ == old(s)@.push(c),
{
    s.push(c);
}

pub(crate) fn digit_char_x(d: u64) -> (c: char)
    requires
        d < 10,
    ensures
        c == digit_char(d as int),
{
    if d == 0 {
        '0'
    } else if d == 1 {
        '1'
    } else if d == 2 {
        '2'
    } else if d == 3 {
        '3'
    } else if d == 4 {
        '4'
    } else if d == 5 {
        '5'
    } else if d == 6 {
        '6'
    } else if d == 7 {
        '7'
    } else if d == 8 {
        '8'
    } else {
        '9'
    }
}

/// The decimal text of a number.
pub fn fmt_u64(n: u64) -> (r: String)
    ensures
        r@ == dec_digits(n as int),
    decreases n,
{
    if n < 10 {
        let mut s = String::new();
        push_char(&mut s, digit_char_x(n));
        proof {
            assert(s@ =~= dec_digits(n as int));
        }
        s
    } else {
        let mut s = fmt_u64(n / 10);
        push_char(&mut s, digit_char_x(n % 10));
        s
    }
}

/// Figures of a small number: how many decimal digits it prints with.
pub proof fn lemma_dec_digits_len(n: int)
    requires
        0 <= n <= 9999,
    ensures
        n < 10 ==> dec_digits(n).len() == 1,
        10 <= n < 100 ==> dec_digits(n).len() == 2,
        100 <= n < 1000 ==> dec_digits(n).len() == 3,
        1000 <= n ==> dec_digits(n).len() == 4,
{
    reveal_with_fuel(dec_digits, 5);
    if n >= 10 {
        lemma_fundamental_div_mod(n, 10);
        lemma_mod_bound(n, 10);
        let q1 = n / 10;
        if q1 >= 10 {
            lemma_fundamental_div_mod(q1, 10);
            lemma_mod_bound(q1, 10);
            let q2 = q1 / 10;
            if q2 >= 10 {
                lemma_fundamental_div_mod(q2, 10);
                lemma_mod_bound(q2, 10);
            }
        }
    }
}

/// The decimal text of a number, zero-padded to two characters.
pub fn fmt_pad2(n: u64) -> (r: String)
    requires
        n <= 99,
    ensures
        r@ == dec_padded(n as int, 2),
{
    proof {
        lemma_dec_digits_len(n as int);
        reveal_with_fuel(zeros, 3);
    }
    if n < 10 {
        let mut s = String::new();
        push_char(&mut s, '0');
        push_char(&mut s, digit_char_x(n));
        proof {
            assert(zeros(1) =~= seq!['0']);
            assert(s@ =~= dec_padded(n as int, 2));
        }
        s
    } else {
        let s = fmt_u64(n);
        proof {
            assert(s@ =~= dec_padded(n as int, 2));
        }
        s
    }
}

/// The decimal text of a number, zero-padded to four characters.
pub fn fmt_pad4(n: u64) -> (r: String)
    requires
        n <= 9999,
    ensures
        r@ == dec_padded(n as int, 4),
{
    proof {
        lemma_dec_digits_len(n as int);
        reveal_with_fuel(zeros, 5);
        assert(zeros(1) =~= seq!['0']);
        assert(zeros(2) =~= seq!['0', '0']);
        assert(zeros(3) =~= seq!['0', '0', '0']);
    }
    if n < 10 {
        let mut s = String::new();
        push_char(&mut s, '0');
        push_char(&mut s, '0');
        push_char(&mut s, '0');
        push_char(&mut s, digit_char_x(n));
        proof {
            assert(s@ =~= dec_padded(n as int, 4));
        }
        s
    } else if n < 100 {
        let mut s = String::new();
        push_char(&mut s, '0');
        push_char(&mut s, '0');
        let t = fmt_u64(n);
        let mut out = s;
        out.append(t.as_str());
        proof {
            assert(out@ =~= dec_padded(n as int, 4));
        }
        out
    } else if n < 1000 {
        let mut s = String::new();
        push_char(&mut s, '0');
        let t = fmt_u64(n);
        let mut out = s;
        out.append(t.as_str());
        proof {
            assert(out@ =~= dec_padded(n as int, 4));
        }
        out
    } else {
        let s = fmt_u64(n);
        proof {
            assert(s@ =~= dec_padded(n as int, 4));
        }
        s
    }
}

/// How one character of a label value is written: the backslash,
/// double-quote and newline characters are escaped, as the exposition
/// format asks.
pub open spec fn esc_char(c: char) -> Seq<char> {
    if c == '\\' {
        seq!['\\', '\\']
    } else if c == '"' {
        seq!['\\', '"']
    } else if c == '\n' {
        seq!['\\', 'n']
    } else {
        seq![c]
    }
}

/// A label value with each character escaped.
pub open spec fn escape_label(s: Seq<char>) -> Seq<char>
    decreases s.len(),
{
    if s.len() == 0 {
        Seq::empty()
    } else {
        esc_char(s[0]) + escape_label(s.drop_first())
    }
}

proof fn lemma_escape_label_step(s: Seq<char>, i: int)
    requires
        0 <= i < s.len(),
    ensures
        escape_label(s.take(i + 1)) == escape_label(s.take(i)) + esc_char(s[i]),
    decreases i,
{
    reveal_with_fuel(escape_label, 3);
    let a = s.take(i + 1);
    let b = s.take(i);
    if i == 0 {
        assert(a.drop_first() =~= Seq::<char>::empty());
        assert(escape_label(a) =~= escape_label(b) + esc_char(s[0]));
    } else {
        let t = s.drop_first();
        assert(a.drop_first() =~= t.take(i));
        assert(b.drop_first() =~= t.take(i - 1));
        lemma_escape_label_step(t, i - 1);
        assert(t.take(i)[i - 1] == s[i]);
        assert(escape_label(a) == esc_char(a[0]) + escape_label(t.take(i)));
        assert(escape_label(b) == esc_char(b[0]) + escape_label(t.take(i - 1)));
        assert(escape_label(a) =~= escape_label(b) + esc_char(s[i]));
    }
}

/// Escapes a label value for the exposition format.
pub fn escape_label_x(s: &str) -> (r: String)
    ensures
        r@ == escape_label(s@),
{
    let n = s.unicode_len();
    let mut out = String::new();
    let mut i: usize = 0;
    proof {
        assert(escape_label(s@.take(0)) =~= Seq::<char>::empty());
    }
    while i < n
        invariant
            0 <= i <= n,
            n == s@.len(),
            out@ == escape_label(s@.take(i as int)),
        decreases n - i,
    {
        let c = s.get_char(i);
        if c == '\\' {
            push_char(&mut out, '\\');
            push_char(&mut out, '\\');
        } else if c == '"' {
            push_char(&mut out, '\\');
            push_char(&mut out, '"');
        } else if c == '\n' {
            push_char(&mut out, '\\');
            push_char(&mut out, 'n');
        } else {
            push_char(&mut out, c);
        }
        proof {
            lemma_escape_label_step(s@, i as int);
            assert(out@ =~= escape_label(s@.take(i + 1)));
        }
        i = i + 1;
    }
    proof {
        assert(s@.take(n as int) =~= s@);
    }
    out
}

/// The `YYYYMMDDHH` label of an hour boundary.
pub open spec fn hour_label_of(t: int) -> Seq<char> {
    let f = utc_fields_of(t);
    dec_padded(f.0, 4) + dec_padded(f.1, 2) + dec_padded(f.2, 2) + dec_padded(f.3, 2)
}

/// Formats the hour of a timestamp as `YYYYMMDDHH` in UTC.
pub fn format_hour_label(ts: Timestamp) -> (r: String)
    ensures
        r@ == hour_label_of(ts.spec_secs()),
{
    let f = ts.into_utc();
    let mut s = fmt_pad4(f.year as u64);
    let mo = fmt_pad2(f.month as u64);
    let da = fmt_pad2(f.day as u64);
    let ho = fmt_pad2(f.hour as u64);
    s.append(mo.as_str());
    s.append(da.as_str());
    s.append(ho.as_str());
    s
}

} // verus!
