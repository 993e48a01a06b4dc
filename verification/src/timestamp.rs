//! Fixed-format UTC timestamps: `YYYY-MM-DDThh:mm:ss.ffffffZ`.
//!
//! The fraction is a count of microseconds, zero-padded to six digits and
//! never rounded. Every field is zero-padded to its width and grows beyond
//! it rather than lose digits.

use crate::calendar::{
    date_of_day, datetime_of, days_before_year, leap_years_through, lemma_date_of_day,
    lemma_datetime_fields, lemma_month_bounds, lemma_year_monotonic, seconds_to_datetime,
};
use crate::text::push_char;
use vstd::prelude::*;

verus! {

/// The character of the decimal digit `d`.
pub open spec fn digit_char(d: int) -> char {
    if d == 0 {
        '0'
    } else if d == 1 {
        '1'
    } else if d == 2 {
        '2'
    } else if d == 3 {
        '3'
    } else if d == 4 {
        '4'
    } else if d == 5 {
        '5'
    } else if d == 6 {
        '6'
    } else if d == 7 {
        '7'
    } else if d == 8 {
        '8'
    } else {
        '9'
    }
}

/// The decimal numeral of `n`, without leading zeros.
pub open spec fn decimal(n: nat) -> Seq<char>
    decreases n,
{
    if n < 10 {
        seq![digit_char(n as int)]
    } else {
        decimal(n / 10).push(digit_char((n % 10) as int))
    }
}

/// The decimal numeral of `n`, with zeros in front up to `width` characters.
pub open spec fn padded_decimal(n: nat, width: nat) -> Seq<char> {
    let digits = decimal(n);
    if digits.len() < width {
        Seq::new((width - digits.len()) as nat, |i: int| '0') + digits
    } else {
        digits
    }
}

/// The timestamp text of the given calendar fields and microseconds.
pub open spec fn timestamp_text(t: (int, int, int, int, int, int), micros: int) -> Seq<char>
    recommends
        0 <= t.0 && 0 <= t.1 && 0 <= t.2 && 0 <= t.3 && 0 <= t.4 && 0 <= t.5 && 0 <= micros,
{
    padded_decimal(t.0 as nat, 4).push('-') + padded_decimal(t.1 as nat, 2).push('-')
        + padded_decimal(t.2 as nat, 2).push('T') + padded_decimal(t.3 as nat, 2).push(':')
        + padded_decimal(t.4 as nat, 2).push(':') + padded_decimal(t.5 as nat, 2).push('.')
        + padded_decimal(micros as nat, 6).push('Z')
}

/// Numbers below a power of ten have no more digits than the power has zeros.
pub proof fn lemma_decimal_len(n: nat)
    ensures
        decimal(n).len() >= 1,
        n < 100 ==> decimal(n).len() <= 2,
        n < 10_000 ==> decimal(n).len() <= 4,
        n < 1_000_000 ==> decimal(n).len() <= 6,
{
    reveal_with_fuel(decimal, 7);
}

/// A padded numeral has the width asked for, or the length of the numeral
/// where that is more.
pub proof fn lemma_padded_len(n: nat, width: nat)
    ensures
        padded_decimal(n, width).len() == if decimal(n).len() < width {
            width
        } else {
            decimal(n).len()
        },
{
}

/// Through the year 9999, which ends with the second before 253402300800,
/// and with a fraction below one second, a timestamp is 27 characters long.
pub proof fn lemma_timestamp_len(secs: u64, micros: u32)
    requires
        secs < 253_402_300_800,
        micros < 1_000_000,
    ensures
        timestamp_text(datetime_of(secs), micros as int).len() == 27,
{
    let n = secs as int / 86400;
    let t = datetime_of(secs);
    lemma_datetime_fields(secs);
    lemma_date_of_day(n);
    let (y, m, d) = date_of_day(n);
    lemma_month_bounds(y, m);
    assert(days_before_year(10_000) == 2_932_897) by {
        reveal(leap_years_through);
    }
    if y >= 10_000 {
        lemma_year_monotonic(10_000, y);
    }
    assert(t.0 == y);
    lemma_decimal_len(t.0 as nat);
    lemma_decimal_len(t.1 as nat);
    lemma_decimal_len(t.2 as nat);
    lemma_decimal_len(t.3 as nat);
    lemma_decimal_len(t.4 as nat);
    lemma_decimal_len(t.5 as nat);
    lemma_decimal_len(micros as nat);
    lemma_padded_len(t.0 as nat, 4);
    lemma_padded_len(t.1 as nat, 2);
    lemma_padded_len(t.2 as nat, 2);
    lemma_padded_len(t.3 as nat, 2);
    lemma_padded_len(t.4 as nat, 2);
    lemma_padded_len(t.5 as nat, 2);
    lemma_padded_len(micros as nat, 6);
}

fn digit(d: u64) -> (c: char)
    requires
        d < 10,
    ensures
        c == digit_char(d as int),
{
    match d {
        0 => '0',
        1 => '1',
        2 => '2',
        3 => '3',
        4 => '4',
        5 => '5',
        6 => '6',
        7 => '7',
        8 => '8',
        _ => '9',
    }
}

/// Number of digits of the decimal numeral of `n`.
pub fn decimal_len(n: u64) -> (len: usize)
    ensures
        len == decimal(n as nat).len(),
        1 <= len <= 20,
{
    proof {
        reveal_with_fuel(decimal, 21);
    }
    let mut len: usize = 1;
    let mut rest: u64 = n;
    while rest >= 10
        invariant
            1 <= len <= 20,
            decimal(n as nat).len() == decimal(rest as nat).len() + len - 1,
            decimal(rest as nat).len() + len <= 21,
        decreases rest,
    {
        rest = rest / 10;
        assert(decimal(rest as nat).len() >= 1);
        len += 1;
    }
    len
}

/// Appends the decimal numeral of `n` to `out`.
pub fn push_decimal(out: &mut String, n: u64)
    ensures
        final(out)@ == old(out)@ + decimal(n as nat),
    decreases n,
{
    if n >= 10 {
        push_decimal(out, n / 10);
    }
    push_char(out, digit(n % 10));
}

/// Appends the decimal numeral of `n` to `out`, zero-padded to `width`.
pub fn push_padded(out: &mut String, n: u64, width: usize)
    ensures
        final(out)@ == old(out)@ + padded_decimal(n as nat, width as nat),
{
    let len: usize = decimal_len(n);
    let mut i: usize = len;
    while i < width
        invariant
            len <= i,
            i <= width || i == len,
            out@ == old(out)@ + Seq::new((i - len) as nat, |j: int| '0'),
        decreases width - i,
    {
        push_char(out, '0');
        i += 1;
    }
    push_decimal(out, n);
}

/// The timestamp of the instant `secs` seconds and `micros` microseconds
/// after 1970-01-01T00:00:00Z.
pub fn format_time(secs: u64, micros: u32) -> (text: String)
    ensures
        text@ == timestamp_text(datetime_of(secs), micros as int),
{
    let (year, month, day, hour, min, sec) = seconds_to_datetime(secs);
    let mut text = String::new();
    push_padded(&mut text, year as u64, 4);
    push_char(&mut text, '-');
    push_padded(&mut text, month as u64, 2);
    push_char(&mut text, '-');
    push_padded(&mut text, day as u64, 2);
    push_char(&mut text, 'T');
    push_padded(&mut text, hour as u64, 2);
    push_char(&mut text, ':');
    push_padded(&mut text, min as u64, 2);
    push_char(&mut text, ':');
    push_padded(&mut text, sec as u64, 2);
    push_char(&mut text, '.');
    push_padded(&mut text, micros as u64, 6);
    push_char(&mut text, 'Z');
    text
}

} // verus!
