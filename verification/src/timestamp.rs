//! Hour-granularity UTC instants, and the proleptic Gregorian calendar
//! arithmetic that converts between calendar fields and Unix seconds.

use vstd::prelude::*;
use vstd::arithmetic::div_mod::*;

verus! {

/// Seconds from 0000-01-01T00:00:00 UTC to the Unix epoch.
pub const EPOCH_BIAS_SECS: i64 = 62167219200;

/// Days from 0000-01-01 to 1970-01-01.
pub const EPOCH_DAYS: u64 = 719528;

/// The earliest instant the library represents: 0000-01-01T00:00:00 UTC.
pub const MIN_UNIX_SECS: i64 = -62167219200;

/// The latest instant the library represents: 9999-12-31T23:59:59 UTC.
pub const MAX_UNIX_SECS: i64 = 253402300799;

pub open spec fn is_leap_year(y: int) -> bool {
    y % 4 == 0 && (y % 100 != 0 || y % 400 == 0)
}

pub open spec fn spec_days_in_year(y: int) -> int {
    if is_leap_year(y) {
        366
    } else {
        365
    }
}

pub open spec fn spec_days_in_month(y: int, m: int) -> int {
    if m == 2 {
        if is_leap_year(y) {
            29
        } else {
            28
        }
    } else if m == 4 || m == 6 || m == 9 || m == 11 {
        30
    } else {
        31
    }
}

/// Days in all calendar years before year `y`, counted from 0000-01-01.
pub open spec fn days_before_year(y: int) -> int
    decreases y,
{
    if y <= 0 {
        0
    } else {
        days_before_year(y - 1) + spec_days_in_year(y - 1)
    }
}

/// Days in the months of year `y` before month `m`.
pub open spec fn days_before_month(y: int, m: int) -> int
    decreases m,
{
    if m <= 1 {
        0
    } else {
        days_before_month(y, m - 1) + spec_days_in_month(y, m - 1)
    }
}

/// The day number of a calendar date, counted from 0000-01-01.
pub open spec fn day_number(y: int, m: int, d: int) -> int {
    days_before_year(y) + days_before_month(y, m) + (d - 1)
}

pub open spec fn valid_civil(y: int, m: int, d: int) -> bool {
    0 <= y <= 9999 && 1 <= m <= 12 && 1 <= d <= spec_days_in_month(y, m)
}

/// Unix seconds of a calendar date and a time of day.
pub open spec fn civil_to_unix(y: int, m: int, d: int, hh: int, mm: int, ss: int) -> int {
    (day_number(y, m, d) - EPOCH_DAYS) * 86400 + hh * 3600 + mm * 60 + ss
}

/// The instant truncated to the top of its hour.
pub open spec fn hour_floor(t: int) -> int {
    t - (t % 3600)
}

/// Closed form of `days_before_year`: 365 days a year plus one for each
/// leap year, which are the years divisible by 4 except centuries off the
/// 400-year cycle.
pub open spec fn days_before_year_closed(y: int) -> int {
    if y <= 0 {
        0
    } else {
        365 * y + (y - 1) / 4 - (y - 1) / 100 + (y - 1) / 400 + 1
    }
}

/// Dividing `n` rather than `n - 1` by `d` adds one exactly when `d`
/// divides `n`.
proof fn lemma_div_step(n: int, d: int)
    requires
        1 <= n,
        1 <= d,
    ensures
        n % d == 0 ==> n / d == (n - 1) / d + 1,
        n % d != 0 ==> n / d == (n - 1) / d,
{
    lemma_fundamental_div_mod(n, d);
    lemma_mod_bound(n, d);
    let q = n / d;
    let r = n % d;
    if r == 0 {
        assert(n - 1 == (q - 1) * d + (d - 1)) by (nonlinear_arith)
            requires
                n == d * q + r,
                r == 0,
        ;
        lemma_fundamental_div_mod_converse(n - 1, d, q - 1, d - 1);
    } else {
        assert(n - 1 == q * d + (r - 1)) by (nonlinear_arith)
            requires
                n == d * q + r,
        ;
        lemma_fundamental_div_mod_converse(n - 1, d, q, r - 1);
    }
}

/// A year divisible by 400 is divisible by 100, and one divisible by 100
/// is divisible by 4.
proof fn lemma_divisibility_chain(n: int)
    requires
        0 <= n,
    ensures
        n % 400 == 0 ==> n % 100 == 0,
        n % 100 == 0 ==> n % 4 == 0,
{
    lemma_mod_mod(n, 100, 4);
    lemma_mod_mod(n, 4, 25);
    if n % 400 == 0 {
        assert((n % (100int * 4)) % 100 == n % 100) by {
            lemma_mod_mod(n, 100, 4);
        }
        assert(n % (100int * 4) == 0);
        assert(0int % 100 == 0);
    }
    if n % 100 == 0 {
        assert((n % (4int * 25)) % 4 == n % 4) by {
            lemma_mod_mod(n, 4, 25);
        }
        assert(n % (4int * 25) == 0);
        assert(0int % 4 == 0);
    }
}

/// The recursive day count before a year agrees with its closed form.
proof fn lemma_days_before_year_closed(y: int)
    requires
        0 <= y,
    ensures
        days_before_year(y) == days_before_year_closed(y),
    decreases y,
{
    if y <= 0 {
    } else if y == 1 {
        lemma_fundamental_div_mod_converse(0, 4, 0, 0);
        lemma_fundamental_div_mod_converse(0, 100, 0, 0);
        lemma_fundamental_div_mod_converse(0, 400, 0, 0);
        assert(is_leap_year(0));
        assert(days_before_year(0) == 0);
        assert(days_before_year(1) == 366);
        assert(days_before_year_closed(1) == 366);
    } else {
        lemma_days_before_year_closed(y - 1);
        let n = y - 1;
        lemma_div_step(n, 4);
        lemma_div_step(n, 100);
        lemma_div_step(n, 400);
        lemma_divisibility_chain(n);
        if n == 1 {
            lemma_fundamental_div_mod_converse(0, 4, 0, 0);
            lemma_fundamental_div_mod_converse(0, 100, 0, 0);
            lemma_fundamental_div_mod_converse(0, 400, 0, 0);
        }
        assert(days_before_year_closed(y) == days_before_year_closed(y - 1)
            + spec_days_in_year(y - 1));
    }
}

/// The day count before year 10000, the first year past the range the
/// library represents.
pub proof fn lemma_days_before_year_10000()
    ensures
        days_before_year(10000) == 3652425,
{
    lemma_days_before_year_closed(10000);
}

pub(crate) fn days_in_year_x(y: u64) -> (r: u64)
    ensures
        r == spec_days_in_year(y as int),
{
    if y % 4 == 0 && (y % 100 != 0 || y % 400 == 0) {
        366
    } else {
        365
    }
}

pub(crate) fn days_in_month_x(y: u64, m: u64) -> (r: u64)
    requires
        1 <= m <= 12,
    ensures
        r == spec_days_in_month(y as int, m as int),
{
    if m == 2 {
        if y % 4 == 0 && (y % 100 != 0 || y % 400 == 0) {
            29
        } else {
            28
        }
    } else if m == 4 || m == 6 || m == 9 || m == 11 {
        30
    } else {
        31
    }
}

pub(crate) fn days_before_year_x(y: u64) -> (r: u64)
    requires
        y <= 10000,
    ensures
        r == days_before_year(y as int),
        r <= 366 * y,
{
    let mut acc: u64 = 0;
    let mut i: u64 = 0;
    while i < y
        invariant
            i <= y <= 10000,
            acc == days_before_year(i as int),
            acc <= 366 * i,
        decreases y - i,
    {
        acc = acc + days_in_year_x(i);
        i = i + 1;
    }
    acc
}

pub(crate) fn days_before_month_x(y: u64, m: u64) -> (r: u64)
    requires
        1 <= m <= 13,
    ensures
        r == days_before_month(y as int, m as int),
        r <= 372,
{
    let mut acc: u64 = 0;
    let mut i: u64 = 1;
    while i < m
        invariant
            1 <= i <= m <= 13,
            acc == days_before_month(y as int, i as int),
            acc <= 31 * (i - 1),
        decreases m - i,
    {
        acc = acc + days_in_month_x(y, i);
        i = i + 1;
    }
    acc
}

pub(crate) fn day_number_x(y: u64, m: u64, d: u64) -> (r: u64)
    requires
        valid_civil(y as int, m as int, d as int),
    ensures
        r == day_number(y as int, m as int, d as int),
        r <= 3666365,
{
    let by = days_before_year_x(y);
    let bm = days_before_month_x(y, m);
    by + bm + (d - 1)
}

/// Unix seconds of a calendar date and time of day, as the calendar
/// arithmetic above defines them.
pub(crate) fn civil_to_unix_x(y: u64, m: u64, d: u64, hh: u64, mm: u64, ss: u64) -> (r: i64)
    requires
        valid_civil(y as int, m as int, d as int),
        hh <= 23,
        mm <= 59,
        ss <= 59,
    ensures
        r == civil_to_unix(y as int, m as int, d as int, hh as int, mm as int, ss as int),
        -62167219200 <= r <= 254606803199,
{
    let dn = day_number_x(y, m, d);
    let rel: i64 = (dn as i64) - (EPOCH_DAYS as i64);
    rel * 86400 + (hh as i64) * 3600 + (mm as i64) * 60 + (ss as i64)
}

/// An hour-granularity UTC instant: an instant floored to its hour
/// boundary. Two instants within the same UTC hour are the same value.
#[derive(Debug, Clone, Copy, PartialEq, Eq, Hash, Structural)]
pub struct Timestamp {
    secs: i64,
}

/// The calendar fields of an hour boundary in UTC.
#[derive(Debug, Clone, Copy, PartialEq, Eq, Hash, Structural)]
pub struct UtcHour {
    pub year: u16,
    pub month: u8,
    pub day: u8,
    pub hour: u8,
}

impl Timestamp {
    /// The Unix seconds of the hour boundary this value stands for.
    pub closed spec fn spec_secs(self) -> int {
        self.secs as int
    }

    /// Every timestamp value is an hour boundary in the representable
    /// range; construction establishes this.
    #[verifier::type_invariant]
    pub open spec fn wf(self) -> bool {
        MIN_UNIX_SECS <= self.spec_secs() <= MAX_UNIX_SECS && self.spec_secs() % 3600 == 0
    }

    /// The timestamp value that construction from the instant `t` yields.
    pub closed spec fn spec_from_unix(t: int) -> Timestamp {
        Timestamp { secs: hour_floor(t) as i64 }
    }

    /// Builds the timestamp of the UTC hour that the given instant falls in.
    pub fn from_unix_seconds(secs: i64) -> (r: Timestamp)
        requires
            MIN_UNIX_SECS <= secs <= MAX_UNIX_SECS,
        ensures
            r.wf(),
            r.spec_secs() == hour_floor(secs as int),
            r == Timestamp::spec_from_unix(secs as int),
    {
        let biased: i64 = secs + EPOCH_BIAS_SECS;
        let b: u64 = biased as u64;
        let fl: u64 = b - b % 3600;
        let out: i64 = (fl as i64) - EPOCH_BIAS_SECS;
        proof {
            lemma_mod_multiples_vanish(17268672, secs as int, 3600);
            assert(b as int == secs + EPOCH_BIAS_SECS);
            assert(b as int % 3600 == (secs as int) % 3600);
            lemma_fundamental_div_mod(secs as int, 3600);
            lemma_mod_bound(secs as int, 3600);
            let q = (secs as int) / 3600;
            assert(out == 3600 * q);
            lemma_mod_multiples_basic(q, 3600);
            assert(MIN_UNIX_SECS == 3600 * -17268672int);
            assert(MAX_UNIX_SECS / 3600 == 70389527);
            lemma_div_is_ordered(MIN_UNIX_SECS as int, secs as int, 3600);
            lemma_div_is_ordered(secs as int, MAX_UNIX_SECS as int, 3600);
            lemma_div_multiples_vanish(-17268672, 3600);
        }
        Timestamp { secs: out }
    }

    /// The Unix seconds of the hour boundary.
    pub fn unix_seconds(self) -> (r: i64)
        ensures
            r as int == self.spec_secs(),
    {
        self.secs
    }

    /// The calendar fields, in UTC, of the hour this timestamp stands for.
    pub fn into_utc(self) -> (r: UtcHour)
        ensures
            valid_civil(r.year as int, r.month as int, r.day as int),
            r.hour <= 23,
            civil_to_unix(r.year as int, r.month as int, r.day as int, r.hour as int, 0, 0)
                == self.spec_secs(),
            (r.year as int, r.month as int, r.day as int, r.hour as int) == utc_fields_of(
                self.spec_secs(),
            ),
    {
        proof {
            use_type_invariant(self);
        }
        let biased: u64 = (self.secs + EPOCH_BIAS_SECS) as u64;
        let days: u64 = biased / 86400;
        let rem: u64 = biased % 86400;
        let hh: u64 = rem / 3600;
        proof {
            lemma_fundamental_div_mod(biased as int, 86400);
            lemma_mod_bound(biased as int, 86400);
            lemma_fundamental_div_mod(rem as int, 3600);
            lemma_mod_bound(rem as int, 3600);
            lemma_div_is_ordered(biased as int, 315569519999, 86400);
            lemma_fundamental_div_mod_converse(315569519999, 86400, 3652424, 86399);
            lemma_days_before_year_10000();
            // `biased` and the bias are both multiples of 3600, so the
            // remainder within the day is a whole number of hours.
            lemma_mod_multiples_vanish(17268672, self.secs as int, 3600);
            lemma_mod_mod(biased as int, 3600, 24);
            assert(rem as int % 3600 == 0);
        }
        let mut y: u64 = 0;
        let mut acc: u64 = 0;
        while y < 9999 && acc + days_in_year_x(y) <= days
            invariant
                y <= 9999,
                days <= 3652424,
                acc == days_before_year(y as int),
                acc <= days,
                acc <= 366 * y,
            decreases 9999 - y,
    {
            acc = acc + days_in_year_x(y);
            y = y + 1;
        }
        let dre: u64 = days - acc;
        proof {
            if y == 9999 && acc + spec_days_in_year(9999) <= days {
                assert(days_before_year(10000) == days_before_year(9999) + spec_days_in_year(
                    9999,
                ));
                lemma_days_before_year_10000();
                assert(false);
            }
            assert(dre < spec_days_in_year(y as int));
        }
        let mut m: u64 = 1;
        let mut macc: u64 = 0;
        while m < 12 && macc + days_in_month_x(y, m) <= dre
            invariant
                1 <= m <= 12,
                y <= 9999,
                dre <= 365,
                macc == days_before_month(y as int, m as int),
                macc <= dre,
            decreases 12 - m,
        {
            macc = macc + days_in_month_x(y, m);
            m = m + 1;
        }
        proof {
            lemma_months_cover_year(y as int);
            assert(dre - macc < spec_days_in_month(y as int, m as int));
        }
        let d: u64 = dre - macc + 1;
        let r = UtcHour { year: y as u16, month: m as u8, day: d as u8, hour: hh as u8 };
        proof {
            assert(day_number(r.year as int, r.month as int, r.day as int) == days);
            assert(biased as int == days * 86400 + rem);
            assert(rem as int == 3600 * (hh as int));
            let f = (r.year as int, r.month as int, r.day as int, r.hour as int);
            assert(valid_civil(f.0, f.1, f.2) && 0 <= f.3 <= 23 && civil_to_unix(
                f.0,
                f.1,
                f.2,
                f.3,
                0,
                0,
            ) == self.spec_secs());
            let g = utc_fields_of(self.spec_secs());
            lemma_civil_unique(f.0, f.1, f.2, f.3, g.0, g.1, g.2, g.3, self.spec_secs());
        }
        r
    }
}

/// The calendar fields, in UTC, of an instant on an hour boundary: the
/// unique valid date and hour whose instant it is.
pub open spec fn utc_fields_of(t: int) -> (int, int, int, int) {
    choose|f: (int, int, int, int)|
        valid_civil(f.0, f.1, f.2) && 0 <= f.3 <= 23 && civil_to_unix(f.0, f.1, f.2, f.3, 0, 0)
            == t
}

/// Timestamp construction is idempotent under truncation: two instants
/// within the same UTC hour construct equal timestamp values.
pub proof fn lemma_same_hour_equal_timestamps(t1: int, t2: int)
    requires
        t1 / 3600 == t2 / 3600,
    ensures
        Timestamp::spec_from_unix(t1) == Timestamp::spec_from_unix(t2),
        hour_floor(t1) == hour_floor(t2),
{
    lemma_fundamental_div_mod(t1, 3600);
    lemma_fundamental_div_mod(t2, 3600);
}

/// Earlier months of a year start no later in its day count.
proof fn lemma_days_before_month_mono(y: int, m1: int, m2: int)
    requires
        m1 <= m2,
    ensures
        days_before_month(y, m1) <= days_before_month(y, m2),
    decreases m2 - m1,
{
    if m1 < m2 {
        lemma_days_before_month_mono(y, m1, m2 - 1);
    }
}

/// Earlier years start no later in the day count.
proof fn lemma_days_before_year_mono(y1: int, y2: int)
    requires
        y1 <= y2,
    ensures
        days_before_year(y1) <= days_before_year(y2),
    decreases y2 - y1,
{
    if y1 < y2 {
        lemma_days_before_year_mono(y1, y2 - 1);
    }
}

/// A valid date's day number lies within its own year's days.
proof fn lemma_day_number_in_year(y: int, m: int, d: int)
    requires
        valid_civil(y, m, d),
    ensures
        days_before_year(y) <= day_number(y, m, d) < days_before_year(y + 1),
        0 <= days_before_month(y, m),
        days_before_month(y, m) + (d - 1) < spec_days_in_year(y),
{
    lemma_days_before_month_mono(y, 1, m);
    lemma_days_before_month_mono(y, m + 1, 13);
    lemma_months_cover_year(y);
}

/// A valid date and hour are uniquely determined by their instant.
pub proof fn lemma_civil_unique(
    y1: int,
    m1: int,
    d1: int,
    h1: int,
    y2: int,
    m2: int,
    d2: int,
    h2: int,
    t: int,
)
    requires
        valid_civil(y1, m1, d1),
        valid_civil(y2, m2, d2),
        0 <= h1 <= 23,
        0 <= h2 <= 23,
        civil_to_unix(y1, m1, d1, h1, 0, 0) == t,
        civil_to_unix(y2, m2, d2, h2, 0, 0) == t,
    ensures
        y1 == y2 && m1 == m2 && d1 == d2 && h1 == h2,
{
    let n1 = day_number(y1, m1, d1);
    let n2 = day_number(y2, m2, d2);
    assert(24 * (n1 - n2) == h2 - h1);
    assert(n1 == n2 && h1 == h2);
    lemma_day_number_in_year(y1, m1, d1);
    lemma_day_number_in_year(y2, m2, d2);
    if y1 < y2 {
        lemma_days_before_year_mono(y1 + 1, y2);
        assert(false);
    }
    if y2 < y1 {
        lemma_days_before_year_mono(y2 + 1, y1);
        assert(false);
    }
    if m1 < m2 {
        lemma_days_before_month_mono(y1, m1 + 1, m2);
        assert(false);
    }
    if m2 < m1 {
        lemma_days_before_month_mono(y1, m2 + 1, m1);
        assert(false);
    }
}

/// The months of a year hold exactly the days of that year.
pub proof fn lemma_months_cover_year(y: int)
    ensures
        days_before_month(y, 13) == spec_days_in_year(y),
{
    reveal_with_fuel(days_before_month, 13);
}

} // verus!
