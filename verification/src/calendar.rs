//! Proleptic Gregorian calendar arithmetic on day and second counts.
//!
//! Days are numbered from 1970-01-01 (day 0). The model of the calendar is
//! [`day_number`], which counts the days before a civil date directly from the
//! leap-year rule; [`seconds_to_datetime`] is its inverse, computed by cycle
//! arithmetic on a year that begins on March 1st.

use vstd::prelude::*;

verus! {

pub const SECS_PER_DAY: u64 = 86400;

/// Day number of 2000-03-01, the first day of a 400-year cycle of
/// March-anchored years.
pub const ANCHOR_DAY: i64 = 11017;

pub const DAYS_PER_400Y: i64 = 146097;

pub const DAYS_PER_100Y: i64 = 36524;

pub const DAYS_PER_4Y: i64 = 1461;

/// The year field wraps at this value.
pub const YEAR_MODULUS: u64 = 0x1_0000_0000;

/// Whether `y` is a leap year: divisible by 4, and by 400 if by 100.
pub open spec fn is_leap_year(y: int) -> bool {
    y % 4 == 0 && (y % 100 != 0 || y % 400 == 0)
}

/// Length in days of year `y`.
pub open spec fn year_len(y: int) -> int {
    if is_leap_year(y) { 366 } else { 365 }
}

/// Length in days of month `m` (1 = January) of year `y`.
pub open spec fn days_in_month(y: int, m: int) -> int {
    if m == 2 {
        if is_leap_year(y) { 29 } else { 28 }
    } else if m == 4 || m == 6 || m == 9 || m == 11 {
        30
    } else {
        31
    }
}

/// A civil date: a month from 1 to 12 and a day that the month has.
pub open spec fn is_date(y: int, m: int, d: int) -> bool {
    1 <= m <= 12 && 1 <= d <= days_in_month(y, m)
}

/// Number of leap years among the years 1 to `y`; for `y` below 1 the
/// count is extended backward so that differences stay correct.
#[verifier::opaque]
pub open spec fn leap_years_through(y: int) -> int {
    y / 4 - y / 100 + y / 400
}

/// Days from 1970-01-01 to January 1st of year `y`.
pub open spec fn days_before_year(y: int) -> int {
    365 * (y - 1970) + leap_years_through(y - 1) - leap_years_through(1969)
}

/// Days from January 1st of year `y` to the first of month `m`.
pub open spec fn days_before_month(y: int, m: int) -> int
    decreases m,
{
    if m <= 1 { 0 } else { days_before_month(y, m - 1) + days_in_month(y, m - 1) }
}

/// Days from 1970-01-01 to the date `y`-`m`-`d`.
pub open spec fn day_number(y: int, m: int, d: int) -> int {
    days_before_year(y) + days_before_month(y, m) + d - 1
}

/// The civil date `(year, month, day)` of day `n`.
pub open spec fn date_of_day(n: int) -> (int, int, int) {
    choose|t: (int, int, int)| is_date(t.0, t.1, t.2) && day_number(t.0, t.1, t.2) == n
}

/// The fields `(year, month, day, hour, minute, second)` of the instant
/// `secs` seconds after 1970-01-01T00:00:00Z, the year reduced modulo
/// [`YEAR_MODULUS`].
pub open spec fn datetime_of(secs: u64) -> (int, int, int, int, int, int) {
    let (y, m, d) = date_of_day(secs as int / 86400);
    (
        y % 0x1_0000_0000,
        m,
        d,
        (secs as int % 86400) / 3600,
        (secs as int % 3600) / 60,
        secs as int % 60,
    )
}

/// Length of month `i` (0 = March) of a year that runs from March to February.
pub open spec fn march_month_len(i: int) -> int {
    if i == 11 { 29 } else if i == 1 || i == 3 || i == 6 || i == 8 { 30 } else { 31 }
}

/// Days from March 1st to the first of month `i` (0 = March).
pub open spec fn march_days_before(i: int) -> int
    decreases i,
{
    if i <= 0 { 0 } else { march_days_before(i - 1) + march_month_len(i - 1) }
}

/// Day 0 is 1970-01-01.
pub proof fn lemma_epoch()
    ensures
        day_number(1970, 1, 1) == 0,
{
    reveal(leap_years_through);
    reveal_with_fuel(days_before_month, 2);
}

/// Quotients by 4 step up at the multiples of 4.
proof fn lemma_quotient_step_4(y: int)
    ensures
        y / 4 == (y - 1) / 4 + if y % 4 == 0 { 1int } else { 0 },
{
}

/// Quotients by 100 step up at the multiples of 100, which are multiples of 4.
proof fn lemma_quotient_step_100(y: int)
    ensures
        y / 100 == (y - 1) / 100 + if y % 100 == 0 { 1int } else { 0 },
        y % 100 == 0 ==> y % 4 == 0,
{
}

/// Quotients by 400 step up at the multiples of 400, which are multiples of 100.
proof fn lemma_quotient_step_400(y: int)
    ensures
        y / 400 == (y - 1) / 400 + if y % 400 == 0 { 1int } else { 0 },
        y % 400 == 0 ==> y % 100 == 0,
{
}

/// The leap-year count of a year and of the year before it differ by one
/// exactly where the year is a leap year.
pub proof fn lemma_leap_step(y: int)
    ensures
        leap_years_through(y) == leap_years_through(y - 1) + if is_leap_year(y) {
            1int
        } else {
            0
        },
{
    reveal(leap_years_through);
    lemma_quotient_step_4(y);
    lemma_quotient_step_100(y);
    lemma_quotient_step_400(y);
}

/// Each year starts `year_len` days after the one before it.
pub proof fn lemma_year_step(y: int)
    ensures
        days_before_year(y + 1) == days_before_year(y) + year_len(y),
{
    lemma_leap_step(y);
}

/// Years later in time start on later days.
pub proof fn lemma_year_monotonic(y1: int, y2: int)
    requires
        y1 <= y2,
    ensures
        days_before_year(y1) <= days_before_year(y2),
        y1 < y2 ==> days_before_year(y1) + year_len(y1) <= days_before_year(y2),
    decreases y2 - y1,
{
    if y1 < y2 {
        lemma_year_monotonic(y1, y2 - 1);
        lemma_year_step(y2 - 1);
    }
}

/// The running sums of the month lengths of a civil year.
pub proof fn lemma_month_table(y: int)
    ensures
        ({
            let l: int = if is_leap_year(y) { 1 } else { 0 };
            &&& days_before_month(y, 1) == 0
            &&& days_before_month(y, 2) == 31
            &&& days_before_month(y, 3) == 59 + l
            &&& days_before_month(y, 4) == 90 + l
            &&& days_before_month(y, 5) == 120 + l
            &&& days_before_month(y, 6) == 151 + l
            &&& days_before_month(y, 7) == 181 + l
            &&& days_before_month(y, 8) == 212 + l
            &&& days_before_month(y, 9) == 243 + l
            &&& days_before_month(y, 10) == 273 + l
            &&& days_before_month(y, 11) == 304 + l
            &&& days_before_month(y, 12) == 334 + l
        }),
{
    reveal_with_fuel(days_before_month, 13);
}

/// The months before `m` hold between 28 and 31 days each, and the twelve
/// of them add up to the year.
pub proof fn lemma_month_bounds(y: int, m: int)
    requires
        1 <= m <= 12,
    ensures
        28 * (m - 1) <= days_before_month(y, m) <= 31 * (m - 1),
        days_before_month(y, m) + days_in_month(y, m) <= year_len(y),
        days_before_month(y, 12) + 31 == year_len(y),
{
    lemma_month_table(y);
}

/// The first of a later month of one year lies after every day of an earlier month.
pub proof fn lemma_month_monotonic(y: int, m1: int, m2: int)
    requires
        1 <= m1 < m2 <= 12,
    ensures
        days_before_month(y, m1) + days_in_month(y, m1) <= days_before_month(y, m2),
    decreases m2 - m1,
{
    if m1 + 1 < m2 {
        lemma_month_monotonic(y, m1, m2 - 1);
    }
}

/// No two civil dates share a day number.
pub proof fn lemma_day_number_injective(y1: int, m1: int, d1: int, y2: int, m2: int, d2: int)
    requires
        is_date(y1, m1, d1),
        is_date(y2, m2, d2),
        day_number(y1, m1, d1) == day_number(y2, m2, d2),
    ensures
        y1 == y2 && m1 == m2 && d1 == d2,
{
    lemma_month_bounds(y1, m1);
    lemma_month_bounds(y2, m2);
    if y1 < y2 {
        lemma_year_monotonic(y1, y2);
    } else if y2 < y1 {
        lemma_year_monotonic(y2, y1);
    } else if m1 < m2 {
        lemma_month_monotonic(y1, m1, m2);
    } else if m2 < m1 {
        lemma_month_monotonic(y1, m2, m1);
    }
}

/// The date that follows `y`-`m`-`d`.
pub open spec fn next_date(y: int, m: int, d: int) -> (int, int, int) {
    if d < days_in_month(y, m) {
        (y, m, d + 1)
    } else if m < 12 {
        (y, m + 1, 1)
    } else {
        (y + 1, 1, 1)
    }
}

/// The date that `y`-`m`-`d` follows.
pub open spec fn prev_date(y: int, m: int, d: int) -> (int, int, int) {
    if d > 1 {
        (y, m, d - 1)
    } else if m > 1 {
        (y, m - 1, days_in_month(y, m - 1))
    } else {
        (y - 1, 12, 31)
    }
}

/// The date that follows a date is a date, and its day number is one more.
pub proof fn lemma_next_day(y: int, m: int, d: int)
    requires
        is_date(y, m, d),
    ensures
        ({
            let (y1, m1, d1) = next_date(y, m, d);
            is_date(y1, m1, d1) && day_number(y1, m1, d1) == day_number(y, m, d) + 1
        }),
{
    lemma_month_bounds(y, m);
    lemma_year_step(y);
}

/// The date before a date is a date, and its day number is one less.
pub proof fn lemma_prev_day(y: int, m: int, d: int)
    requires
        is_date(y, m, d),
    ensures
        ({
            let (y1, m1, d1) = prev_date(y, m, d);
            is_date(y1, m1, d1) && day_number(y1, m1, d1) == day_number(y, m, d) - 1
        }),
{
    lemma_month_bounds(y - 1, 12);
    lemma_year_step(y - 1);
}

/// Every day has a date.
pub proof fn lemma_date_exists(n: int) -> (t: (int, int, int))
    ensures
        is_date(t.0, t.1, t.2),
        day_number(t.0, t.1, t.2) == n,
    decreases
            if n >= 0 {
                n
            } else {
                -n
            },
{
    if n == 0 {
        lemma_epoch();
        (1970, 1, 1)
    } else if n > 0 {
        let p = lemma_date_exists(n - 1);
        lemma_next_day(p.0, p.1, p.2);
        next_date(p.0, p.1, p.2)
    } else {
        let p = lemma_date_exists(n + 1);
        lemma_prev_day(p.0, p.1, p.2);
        prev_date(p.0, p.1, p.2)
    }
}

/// The civil date of day `n` is a date, and `n` is its day number.
pub proof fn lemma_date_of_day(n: int)
    ensures
        ({
            let (y, m, d) = date_of_day(n);
            is_date(y, m, d) && day_number(y, m, d) == n
        }),
{
    let t = lemma_date_exists(n);
    lemma_date_of_day_unique(n, t.0, t.1, t.2);
}

/// The fields of an instant are a date no earlier than 1970 and a time of day.
pub proof fn lemma_datetime_fields(secs: u64)
    ensures
        ({
            let (y, m, d) = date_of_day(secs as int / 86400);
            let t = datetime_of(secs);
            &&& y >= 1970
            &&& is_date(y, m, d)
            &&& 0 <= t.0 < 0x1_0000_0000
            &&& 1 <= t.1 <= 12
            &&& 1 <= t.2 <= 31
            &&& 0 <= t.3 < 24
            &&& 0 <= t.4 < 60
            &&& 0 <= t.5 < 60
        }),
{
    let n = secs as int / 86400;
    lemma_date_of_day(n);
    let (y, m, d) = date_of_day(n);
    lemma_year_of_day(y, m, d);
}

/// Up to the end of the year 4294967295, which is the second before
/// 135536014634284800, the year field holds the year itself.
pub proof fn lemma_year_field_exact(secs: u64)
    requires
        secs < 135_536_014_634_284_800,
    ensures
        datetime_of(secs).0 == date_of_day(secs as int / 86400).0,
{
    let n = secs as int / 86400;
    assert(days_before_year(0x1_0000_0000) == 1_568_703_873_082) by {
        reveal(leap_years_through);
    }
    lemma_date_of_day(n);
    let (y, m, d) = date_of_day(n);
    lemma_year_of_day(y, m, d);
    lemma_month_bounds(y, m);
    if y >= 0x1_0000_0000 {
        lemma_year_monotonic(0x1_0000_0000, y);
    }
}

/// Dates before 1970 have negative day numbers.
pub proof fn lemma_year_of_day(y: int, m: int, d: int)
    requires
        is_date(y, m, d),
        day_number(y, m, d) >= 0,
    ensures
        y >= 1970,
{
    lemma_month_bounds(y, m);
    if y < 1970 {
        lemma_year_monotonic(y, 1970);
    }
}

/// The civil date of day `n` is the one date whose day number is `n`.
pub proof fn lemma_date_of_day_unique(n: int, y: int, m: int, d: int)
    requires
        is_date(y, m, d),
        day_number(y, m, d) == n,
    ensures
        date_of_day(n) == (y, m, d),
{
    let w = (y, m, d);
    assert(is_date(w.0, w.1, w.2) && day_number(w.0, w.1, w.2) == n);
    let t = date_of_day(n);
    lemma_day_number_injective(t.0, t.1, t.2, y, m, d);
}

/// Day number of March 1st of year `2000 + k`.
pub open spec fn march_year_start(k: int) -> int {
    ANCHOR_DAY as int + 365 * k + leap_years_through(k)
}

/// Turns a day of a March-anchored year into its civil date: the months
/// January and February belong to the civil year that follows.
pub open spec fn civil_of_march(k: int, mon: int, mday: int) -> (int, int, int) {
    if mon >= 10 { (2000 + k + 1, mon - 9, mday) } else { (2000 + k, mon + 3, mday) }
}

/// The running sums of the month lengths of a March-anchored year.
pub proof fn lemma_march_table()
    ensures
        march_days_before(0) == 0,
        march_days_before(1) == 31,
        march_days_before(2) == 61,
        march_days_before(3) == 92,
        march_days_before(4) == 122,
        march_days_before(5) == 153,
        march_days_before(6) == 184,
        march_days_before(7) == 214,
        march_days_before(8) == 245,
        march_days_before(9) == 275,
        march_days_before(10) == 306,
        march_days_before(11) == 337,
{
    reveal_with_fuel(march_days_before, 12);
}

/// Moving 2000 years on adds 485 leap years.
pub proof fn lemma_leap_shift(k: int)
    ensures
        leap_years_through(2000 + k) == 485 + leap_years_through(k),
{
    reveal(leap_years_through);
    let y = 2000 + k;
    assert(y / 4 == 500 + k / 4);
    assert(y / 100 == 20 + k / 100);
    assert(y / 400 == 5 + k / 400);
}

/// March 1st of year `2000 + k` lies 365 days per year, and one more per
/// leap day, after the anchor; the next January 1st lies 306 days later.
pub proof fn lemma_march_year_start(k: int)
    ensures
        march_year_start(k) == days_before_year(2000 + k) + days_before_month(2000 + k, 3),
        march_year_start(k) + 306 == days_before_year(2000 + k + 1),
{
    let y = 2000 + k;
    lemma_month_table(y);
    lemma_leap_step(y);
    lemma_leap_shift(k);
    lemma_year_step(y);
    assert(leap_years_through(1969) == 477) by {
        reveal(leap_years_through);
    }
    let a = leap_years_through(y - 1);
    let b = leap_years_through(k);
    assert(days_before_year(y) == 365 * (y - 1970) + a - 477);
    assert(march_year_start(k) == 11017 + 365 * k + b);
}

/// A day of the March-anchored year `2000 + k` is a civil date, and its day
/// number is counted from the start of that year.
pub proof fn lemma_civil_of_march(k: int, mon: int, mday: int)
    requires
        0 <= mon <= 11,
        1 <= mday <= march_month_len(mon),
        mon == 11 && mday == 29 ==> is_leap_year(2000 + k + 1),
    ensures
        ({
            let (y, m, d) = civil_of_march(k, mon, mday);
            &&& is_date(y, m, d)
            &&& day_number(y, m, d) == march_year_start(k) + march_days_before(mon) + mday - 1
        }),
{
    lemma_march_table();
    lemma_march_year_start(k);
    if mon >= 10 {
        lemma_month_table(2000 + k + 1);
    } else {
        lemma_month_table(2000 + k);
    }
}

/// A day count from the anchor, split into whole 400-, 100-, 4- and 1-year
/// cycles, names the March-anchored year that the cycles add up to; the year
/// has a leap day at its end where the cycles say so.
pub proof fn lemma_cycles(qc: int, c: int, q: int, y1: int)
    requires
        0 <= c <= 3,
        0 <= q <= 24,
        0 <= y1 <= 3,
    ensures
        march_year_start(y1 + 4 * q + 100 * c + 400 * qc) == ANCHOR_DAY + 146097 * qc + 36524 * c
            + 1461 * q + 365 * y1,
        y1 == 3 && (q != 24 || c == 3) ==> is_leap_year(2000 + y1 + 4 * q + 100 * c + 400 * qc + 1),
{
    reveal(leap_years_through);
    let k = y1 + 4 * q + 100 * c + 400 * qc;
    assert(k / 400 == qc);
    assert(k / 100 == c + 4 * qc);
    assert(k / 4 == q + 25 * c + 100 * qc);
    if y1 == 3 && (q != 24 || c == 3) {
        let n = 2000 + k + 1;
        assert(n == 4 * (501 + q + 25 * c + 100 * qc));
        assert(n % 4 == 0);
        if q != 24 {
            assert(n == 100 * (20 + c + 4 * qc) + 4 * (q + 1));
            assert(n % 100 == 4 * (q + 1));
        } else {
            assert(n == 400 * (6 + qc));
            assert(n % 400 == 0);
        }
    }
}

/// The civil date `(year, month, day)` of day `days`, counted from 1970-01-01;
/// days before it are negative.
#[verifier::rlimit(50)]
pub fn days_to_date(days: i64) -> (r: (i64, u32, u32))
    requires
        days - ANCHOR_DAY >= i64::MIN,
    ensures
        date_of_day(days as int) == (r.0 as int, r.1 as int, r.2 as int),
        is_date(r.0 as int, r.1 as int, r.2 as int),
        day_number(r.0 as int, r.1 as int, r.2 as int) == days,
{
    let since_anchor: i64 = days - ANCHOR_DAY;
    let mut qc_cycles: i64 = since_anchor / DAYS_PER_400Y;
    let mut rem_days: i64 = since_anchor % DAYS_PER_400Y;
    if rem_days < 0 {
        rem_days += DAYS_PER_400Y;
        qc_cycles -= 1;
    }
    let ghost r400: int = rem_days as int;
    assert(since_anchor == 146097 * qc_cycles + r400 && 0 <= r400 < 146097);

    let mut c_cycles: i64 = rem_days / DAYS_PER_100Y;
    rem_days = rem_days % DAYS_PER_100Y;
    if c_cycles == 4 {
        c_cycles -= 1;
        rem_days += DAYS_PER_100Y;
    }
    let ghost r100: int = rem_days as int;
    assert(r400 == 36524 * c_cycles + r100 && 0 <= c_cycles <= 3 && 0 <= r100 <= 36524 && (r100
        == 36524 ==> c_cycles == 3));

    let mut q_cycles: i64 = rem_days / DAYS_PER_4Y;
    rem_days = rem_days % DAYS_PER_4Y;
    if q_cycles == 25 {
        q_cycles -= 1;
        rem_days += DAYS_PER_4Y;
    }
    let ghost r4: int = rem_days as int;
    assert(r100 == 1461 * q_cycles + r4 && 0 <= q_cycles <= 24 && 0 <= r4 <= 1460 && (r4 == 1460
        && q_cycles == 24 ==> c_cycles == 3));

    let mut rem_years: i64 = rem_days / 365;
    rem_days = rem_days % 365;
    if rem_years == 4 {
        rem_years -= 1;
        rem_days += 365;
    }
    let ghost yday: int = rem_days as int;
    assert(r4 == 365 * rem_years + yday && 0 <= rem_years <= 3 && 0 <= yday <= 365 && (yday == 365
        ==> rem_years == 3 && r4 == 1460));

    let march_year: i64 = 2000 + rem_years + 4 * q_cycles + 100 * c_cycles + 400 * qc_cycles;
    let ghost k: int = march_year - 2000;
    proof {
        lemma_cycles(qc_cycles as int, c_cycles as int, q_cycles as int, rem_years as int);
        assert(march_year_start(k) + yday == days);
        assert(yday == 365 ==> is_leap_year(2000 + k + 1));
    }

    let months: [i64; 12] = [31, 30, 31, 30, 31, 31, 30, 31, 30, 31, 31, 29];
    let mut mon: usize = 0;
    while mon < 11 && rem_days >= months[mon]
        invariant
            0 <= mon <= 11,
            0 <= rem_days,
            rem_days + march_days_before(mon as int) == yday,
            0 <= yday <= 365,
            forall|i: int| 0 <= i < 12 ==> #[trigger] months[i] == march_month_len(i),
        decreases 11 - mon,
    {
        rem_days -= months[mon];
        mon += 1;
    }
    proof {
        lemma_march_table();
        lemma_civil_of_march(k, mon as int, rem_days + 1);
    }

    let (year, month): (i64, u32) = if mon >= 10 {
        (march_year + 1, (mon - 9) as u32)
    } else {
        (march_year, (mon + 3) as u32)
    };
    let mday: u32 = (rem_days + 1) as u32;
    proof {
        lemma_date_of_day_unique(days as int, year as int, month as int, mday as int);
    }
    (year, month, mday)
}

/// Splits a count of seconds since 1970-01-01T00:00:00Z into
/// `(year, month, day, hour, minute, second)` of the proleptic Gregorian
/// calendar. The year is reduced modulo [`YEAR_MODULUS`]; the other fields
/// are exact for every input.
pub fn seconds_to_datetime(secs: u64) -> (r: (u32, u32, u32, u32, u32, u32))
    ensures
        (r.0 as int, r.1 as int, r.2 as int, r.3 as int, r.4 as int, r.5 as int) == datetime_of(
            secs,
        ),
{
    let secs_of_day: u64 = secs % SECS_PER_DAY;
    let (year, month, mday) = days_to_date((secs / SECS_PER_DAY) as i64);
    proof {
        lemma_year_of_day(year as int, month as int, mday as int);
    }
    let hour: u64 = secs_of_day / 3600;
    let min: u64 = (secs_of_day % 3600) / 60;
    let sec: u64 = secs_of_day % 60;
    assert(min == (secs % 3600) / 60 && sec == secs % 60) by {
        assert(secs == 86400 * (secs / 86400) + secs_of_day);
        assert(secs_of_day % 3600 == secs % 3600);
        assert(secs_of_day % 60 == secs % 60);
    }
    let year_field: u64 = year as u64 % YEAR_MODULUS;
    (year_field as u32, month, mday, hour as u32, min as u32, sec as u32)
}

} // verus!
