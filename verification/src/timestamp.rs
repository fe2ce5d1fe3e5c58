//! Wall-clock instants as text: ISO 8601 / RFC 3339 in UTC, to the millisecond.
//!
//! An instant is a number of nanoseconds since the Unix epoch.

use vstd::prelude::*;
use crate::calendar::civil_from_days;
use crate::calendar::{
    day_number, law_day_numbers_name_one_date, law_day_numbers_order_dates,
    law_every_day_has_a_date, lemma_year_from_epoch, lemma_year_ten_thousand, valid_date,
};

verus! {

/// Nanoseconds in a second.
pub const NANOS_PER_SEC: i128 = 1_000_000_000;

/// The earliest instant a system clock can show: the least 64-bit second.
pub const EARLIEST: i128 = -9_223_372_036_854_775_808_000_000_000;

/// The latest instant a system clock can show, in the greatest 64-bit second.
pub const LATEST: i128 = 9_223_372_036_854_775_807_999_999_999;

/// Whether `t` is an instant that a system clock can show.
pub open spec fn is_instant(t: int) -> bool {
    EARLIEST <= t <= LATEST
}

/// The character for a decimal digit.
pub open spec fn digit(d: int) -> char {
    if d == 0 { '0' } else if d == 1 { '1' } else if d == 2 { '2' } else if d == 3 { '3' }
    else if d == 4 { '4' } else if d == 5 { '5' } else if d == 6 { '6' } else if d == 7 { '7' }
    else if d == 8 { '8' } else { '9' }
}

/// `n` in decimal, with leading zeros where that has fewer than `width` digits.
pub open spec fn padded(n: nat, width: nat) -> Seq<char>
    decreases n, width,
{
    let leading = if n < 10 && width <= 1 {
        Seq::empty()
    } else {
        padded(n / 10, if width == 0 { 0 } else { (width - 1) as nat })
    };
    leading.push(digit((n % 10) as int))
}

fn push_digit(out: &mut String, d: u64)
    requires
        d < 10,
    ensures
        final(out)@ == old(out)@.push(digit(d as int)),
{
    proof {
        reveal_strlit("0"); reveal_strlit("1"); reveal_strlit("2"); reveal_strlit("3");
        reveal_strlit("4"); reveal_strlit("5"); reveal_strlit("6"); reveal_strlit("7");
        reveal_strlit("8"); reveal_strlit("9");
    }
    let text: &str = match d {
        0 => "0", 1 => "1", 2 => "2", 3 => "3", 4 => "4",
        5 => "5", 6 => "6", 7 => "7", 8 => "8", _ => "9",
    };
    out.append(text);
}

fn push_padded(out: &mut String, n: u64, width: u64)
    ensures
        final(out)@ == old(out)@ + padded(n as nat, width as nat),
    decreases n, width,
{
    if n >= 10 || width > 1 {
        push_padded(out, n / 10, if width == 0 { 0 } else { width - 1 });
    }
    push_digit(out, n % 10);
}

/// `n` in decimal.
pub(crate) fn decimal(n: u64) -> (text: String)
    ensures
        text@ == padded(n as nat, 1),
{
    let mut text = String::new();
    push_padded(&mut text, n, 1);
    assert(text@ =~= padded(n as nat, 1));
    text
}

/// The date `(year, month, day)` that lies `day` days after 1 January 1970.
pub open spec fn civil(day: int) -> (int, int, int) {
    choose|date: (int, int, int)|
        valid_date(date.0, date.1, date.2) && day_number(date.0, date.1, date.2) == day
}

/// A date and a time of day written out, each field with its leading zeros.
pub open spec fn written(
    year: nat,
    month: nat,
    day: nat,
    hh: nat,
    mm: nat,
    ss: nat,
    millis: nat,
) -> Seq<char> {
    padded(year, 4) + seq!['-'] + padded(month, 2) + seq!['-'] + padded(day, 2) + seq!['T']
        + padded(hh, 2) + seq![':'] + padded(mm, 2) + seq![':'] + padded(ss, 2) + seq!['.']
        + padded(millis, 3) + seq!['Z']
}

/// The timestamp of the millisecond `ms` after the Unix epoch.
pub open spec fn timestamp_of_millis(ms: nat) -> Seq<char> {
    let (year, month, day) = civil((ms / 86_400_000) as int);
    written(
        year as nat,
        month as nat,
        day as nat,
        ms / 3_600_000 % 24,
        ms / 60_000 % 60,
        ms / 1000 % 60,
        ms % 1000,
    )
}

/// The timestamp of the instant `t`: that of the millisecond it falls in, or of the Unix
/// epoch where it lies before the epoch.
pub open spec fn timestamp(t: int) -> Seq<char> {
    timestamp_of_millis(if t < 0 { 0 } else { (t / 1_000_000) as nat })
}

fn write_out(year: u64, month: u64, day: u64, hh: u64, mm: u64, ss: u64, millis: u64) -> (text:
    String)
    ensures
        text@ == written(
            year as nat,
            month as nat,
            day as nat,
            hh as nat,
            mm as nat,
            ss as nat,
            millis as nat,
        ),
{
    proof {
        reveal_strlit("-");
        reveal_strlit("T");
        reveal_strlit(":");
        reveal_strlit(".");
        reveal_strlit("Z");
    }
    assert("-"@ =~= seq!['-'] && "T"@ =~= seq!['T'] && ":"@ =~= seq![':'] && "."@ =~= seq!['.']
        && "Z"@ =~= seq!['Z']);
    let mut text = String::new();
    push_padded(&mut text, year, 4);
    assert(text@ =~= padded(year as nat, 4));
    text.append("-");
    push_padded(&mut text, month, 2);
    text.append("-");
    push_padded(&mut text, day, 2);
    text.append("T");
    push_padded(&mut text, hh, 2);
    text.append(":");
    push_padded(&mut text, mm, 2);
    text.append(":");
    push_padded(&mut text, ss, 2);
    text.append(".");
    push_padded(&mut text, millis, 3);
    text.append("Z");
    text
}

proof fn lemma_time_of_day(secs: int)
    requires
        0 <= secs,
    ensures
        secs / 3600 % 24 == secs % 86_400 / 3600,
        secs / 60 % 60 == secs % 86_400 % 3600 / 60,
        secs % 60 == secs % 86_400 % 60,
{
    let days = secs / 86_400;
    let tod = secs % 86_400;
    assert(secs / 3600 == days * 24 + tod / 3600);
    assert(secs / 60 == days * 1440 + tod / 60);
    assert(tod / 60 == tod / 3600 * 60 + tod % 3600 / 60);
}

proof fn lemma_clock_fields(nanos: int, secs: int, millis: int)
    requires
        0 <= nanos,
        secs == nanos / 1_000_000_000,
        millis == nanos % 1_000_000_000 / 1_000_000,
    ensures
        ({
            let ms = nanos / 1_000_000;
            let tod = secs % 86_400;
            &&& ms / 86_400_000 == secs / 86_400
            &&& ms / 3_600_000 % 24 == tod / 3600
            &&& ms / 60_000 % 60 == tod % 3600 / 60
            &&& ms / 1000 % 60 == tod % 60
            &&& ms % 1000 == millis
        }),
{
    let ms = nanos / 1_000_000;
    assert(ms == secs * 1000 + millis);
    assert(ms / 1000 == secs);
    vstd::arithmetic::div_mod::lemma_div_denominator(ms, 1000, 60);
    vstd::arithmetic::div_mod::lemma_div_denominator(ms, 1000, 3600);
    vstd::arithmetic::div_mod::lemma_div_denominator(ms, 1000, 86_400);
    lemma_time_of_day(secs);
}

/// The instant `unix_nanos` as an ISO 8601 / RFC 3339 timestamp in UTC with millisecond
/// precision, such as `2026-06-25T01:23:45.678Z`. Instants before the Unix epoch clamp to it.
pub fn iso8601_utc(unix_nanos: i128) -> (text: String)
    requires
        is_instant(unix_nanos as int),
    ensures
        text@ == timestamp(unix_nanos as int),
        reads_as(
            text@,
            text@.len() - 20,
            if unix_nanos < 0 { 0 } else { unix_nanos as int / 1_000_000 },
        ),
{
    let since_epoch: i128 = if unix_nanos < 0 { 0 } else { unix_nanos };
    let secs: u64 = (since_epoch / NANOS_PER_SEC) as u64;
    let millis: u64 = (since_epoch % NANOS_PER_SEC / 1_000_000) as u64;
    let days: i64 = (secs / 86_400) as i64;
    let tod: u64 = secs % 86_400;
    let (year, month, day) = civil_from_days(days);
    proof {
        lemma_clock_fields(since_epoch as int, secs as int, millis as int);
        lemma_year_from_epoch(year as int, month as int, day as int);
        lemma_civil(year as int, month as int, day as int);
        law_timestamps_read_back(unix_nanos as int);
    }
    write_out(
        year as u64,
        month as u64,
        day as u64,
        tod / 3600,
        (tod % 3600) / 60,
        tod % 60,
        millis,
    )
}

proof fn lemma_civil(y: int, m: int, d: int)
    requires
        valid_date(y, m, d),
    ensures
        civil(day_number(y, m, d)) == (y, m, d),
{
    let date = (y, m, d);
    assert(valid_date(date.0, date.1, date.2) && day_number(date.0, date.1, date.2) == day_number(y, m, d));
    let other = civil(day_number(y, m, d));
    law_day_numbers_name_one_date(y, m, d, other.0, other.1, other.2);
}

/// Whether every character of `text` is a decimal digit.
pub open spec fn is_number(text: Seq<char>) -> bool {
    forall|i: int| 0 <= i < text.len() ==> '0' <= #[trigger] text[i] <= '9'
}

/// The value of a row of decimal digits.
pub open spec fn value(text: Seq<char>) -> int
    decreases text.len(),
{
    if text.len() == 0 {
        0
    } else {
        value(text.drop_last()) * 10 + (text.last() as int - '0' as int)
    }
}

/// How many numbers can be written in `width` digits.
pub open spec fn power_of_ten(width: nat) -> nat
    decreases width,
{
    if width == 0 {
        1
    } else {
        10 * power_of_ten((width - 1) as nat)
    }
}

/// A number written in decimal reads as that number, in at least `width` digits, and in exactly
/// as many where it has no more; where it has more, none of them is a leading zero.
pub proof fn law_decimals_read_back(n: nat, width: nat)
    ensures
        is_number(padded(n, width)),
        value(padded(n, width)) == n,
        padded(n, width).len() >= width,
        padded(n, width).len() >= 1,
        0 < width && n < power_of_ten(width) ==> padded(n, width).len() == width,
        padded(n, width).len() > width && padded(n, width).len() > 1 ==> padded(n, width)[0] != '0',
    decreases n, width,
{
    let text = padded(n, width);
    if n < 10 && width <= 1 {
        assert(text =~= seq![digit((n % 10) as int)]);
        assert(text.drop_last() =~= Seq::<char>::empty());
        assert(value(text.drop_last()) == 0);
    } else {
        let fewer: nat = if width == 0 { 0 } else { (width - 1) as nat };
        law_decimals_read_back(n / 10, fewer);
        let leading = padded(n / 10, fewer);
        assert(text.drop_last() =~= leading);
        assert forall|i: int| 0 <= i < text.len() implies '0' <= #[trigger] text[i] <= '9' by {
            if i < leading.len() {
                assert(text[i] == leading[i]);
            }
        }
        if width == 1 {
            assert(power_of_ten(1) == 10 * power_of_ten(0));
            assert(power_of_ten(0) == 1);
        }
        if text.len() > width && text.len() > 1 {
            assert(text[0] == leading[0]);
            if leading.len() == 1 {
                assert(leading =~= seq![leading[0]]);
                assert(leading.drop_last() =~= Seq::<char>::empty());
                assert(value(leading) == leading.last() as int - '0' as int) by {
                    assert(value(leading.drop_last()) == 0);
                }
            }
        }
    }
}

/// The number in `text` from place `from` up to place `to`.
pub open spec fn number_at(text: Seq<char>, from: int, to: int) -> int {
    value(text.subrange(from, to))
}

/// Whether `text` reads as the millisecond `ms` after the Unix epoch: a date of the calendar,
/// its year in `digits` digits, and a time of day, which together make that millisecond.
pub open spec fn reads_as(text: Seq<char>, digits: int, ms: int) -> bool {
    let (year, month, day) = (
        number_at(text, 0, digits),
        number_at(text, digits + 1, digits + 3),
        number_at(text, digits + 4, digits + 6),
    );
    let (hour, minute, second, millis) = (
        number_at(text, digits + 7, digits + 9),
        number_at(text, digits + 10, digits + 12),
        number_at(text, digits + 13, digits + 15),
        number_at(text, digits + 16, digits + 19),
    );
    &&& text.len() == digits + 20
    &&& text[digits] == '-' && text[digits + 3] == '-' && text[digits + 6] == 'T'
    &&& text[digits + 9] == ':' && text[digits + 12] == ':' && text[digits + 15] == '.'
    &&& text[digits + 19] == 'Z'
    &&& is_number(text.subrange(0, digits))
    &&& is_number(text.subrange(digits + 1, digits + 3))
    &&& is_number(text.subrange(digits + 4, digits + 6))
    &&& is_number(text.subrange(digits + 7, digits + 9))
    &&& is_number(text.subrange(digits + 10, digits + 12))
    &&& is_number(text.subrange(digits + 13, digits + 15))
    &&& is_number(text.subrange(digits + 16, digits + 19))
    &&& valid_date(year, month, day)
    &&& 0 <= hour < 24 && 0 <= minute < 60 && 0 <= second < 60 && 0 <= millis < 1000
    &&& day_number(year, month, day) * 86_400_000 + hour * 3_600_000 + minute * 60_000 + second
        * 1000 + millis == ms
}

/// The first nanosecond of the year 10000.
pub const YEAR_TEN_THOUSAND: i128 = 253_402_300_800_000_000_000;

proof fn lemma_fields_stand_in_place(
    y: Seq<char>,
    m: Seq<char>,
    d: Seq<char>,
    hh: Seq<char>,
    mm: Seq<char>,
    ss: Seq<char>,
    millis: Seq<char>,
    text: Seq<char>,
)
    requires
        m.len() == 2,
        d.len() == 2,
        hh.len() == 2,
        mm.len() == 2,
        ss.len() == 2,
        millis.len() == 3,
        text == y + seq!['-'] + m + seq!['-'] + d + seq!['T'] + hh + seq![':'] + mm + seq![':'] + ss
            + seq!['.'] + millis + seq!['Z'],
    ensures
        ({
            let w = y.len() as int;
            &&& text.len() == w + 20
            &&& text[w] == '-' && text[w + 3] == '-' && text[w + 6] == 'T'
            &&& text[w + 9] == ':' && text[w + 12] == ':' && text[w + 15] == '.'
            &&& text[w + 19] == 'Z'
            &&& text.subrange(0, w) == y
            &&& text.subrange(w + 1, w + 3) == m
            &&& text.subrange(w + 4, w + 6) == d
            &&& text.subrange(w + 7, w + 9) == hh
            &&& text.subrange(w + 10, w + 12) == mm
            &&& text.subrange(w + 13, w + 15) == ss
            &&& text.subrange(w + 16, w + 19) == millis
        }),
{
    let w = y.len() as int;
    assert(text.subrange(0, w) =~= y);
    assert(text.subrange(w + 1, w + 3) =~= m);
    assert(text.subrange(w + 4, w + 6) =~= d);
    assert(text.subrange(w + 7, w + 9) =~= hh);
    assert(text.subrange(w + 10, w + 12) =~= mm);
    assert(text.subrange(w + 13, w + 15) =~= ss);
    assert(text.subrange(w + 16, w + 19) =~= millis);
}

/// What is written out field by field reads so, field by field.
#[verifier::spinoff_prover]
proof fn lemma_fields_read_back(
    year: nat,
    month: nat,
    day: nat,
    hh: nat,
    mm: nat,
    ss: nat,
    millis: nat,
)
    requires
        month < 100,
        day < 100,
        hh < 100,
        mm < 100,
        ss < 100,
        millis < 1000,
    ensures
        ({
            let text = written(year, month, day, hh, mm, ss, millis);
            let w = text.len() - 20;
            &&& w == padded(year, 4).len()
            &&& text.take(w) == padded(year, 4)
            &&& text[w] == '-' && text[w + 3] == '-' && text[w + 6] == 'T'
            &&& text[w + 9] == ':' && text[w + 12] == ':' && text[w + 15] == '.'
            &&& text[w + 19] == 'Z'
            &&& is_number(text.subrange(0, w)) && number_at(text, 0, w) == year
            &&& is_number(text.subrange(w + 1, w + 3)) && number_at(text, w + 1, w + 3) == month
            &&& is_number(text.subrange(w + 4, w + 6)) && number_at(text, w + 4, w + 6) == day
            &&& is_number(text.subrange(w + 7, w + 9)) && number_at(text, w + 7, w + 9) == hh
            &&& is_number(text.subrange(w + 10, w + 12)) && number_at(text, w + 10, w + 12) == mm
            &&& is_number(text.subrange(w + 13, w + 15)) && number_at(text, w + 13, w + 15) == ss
            &&& is_number(text.subrange(w + 16, w + 19)) && number_at(text, w + 16, w + 19)
                == millis
        }),
{
    reveal_with_fuel(power_of_ten, 4);
    assert(power_of_ten(2) == 100 && power_of_ten(3) == 1000);
    law_decimals_read_back(year, 4);
    law_decimals_read_back(month, 2);
    law_decimals_read_back(day, 2);
    law_decimals_read_back(hh, 2);
    law_decimals_read_back(mm, 2);
    law_decimals_read_back(ss, 2);
    law_decimals_read_back(millis, 3);
    let text = written(year, month, day, hh, mm, ss, millis);
    lemma_fields_stand_in_place(
        padded(year, 4),
        padded(month, 2),
        padded(day, 2),
        padded(hh, 2),
        padded(mm, 2),
        padded(ss, 2),
        padded(millis, 3),
        text,
    );
    assert(text.take(text.len() - 20) =~= text.subrange(0, text.len() - 20));
}

proof fn lemma_time_adds_up(ms: int)
    requires
        0 <= ms,
    ensures
        ms / 86_400_000 * 86_400_000 + (ms / 3_600_000 % 24) * 3_600_000 + (ms / 60_000 % 60)
            * 60_000 + (ms / 1000 % 60) * 1000 + ms % 1000 == ms,
{
    let s = ms / 1000;
    vstd::arithmetic::div_mod::lemma_div_denominator(ms, 1000, 60);
    vstd::arithmetic::div_mod::lemma_div_denominator(ms, 1000, 3600);
    vstd::arithmetic::div_mod::lemma_div_denominator(ms, 1000, 86_400);
    vstd::arithmetic::div_mod::lemma_div_denominator(s, 60, 60);
    vstd::arithmetic::div_mod::lemma_div_denominator(s, 3600, 24);
}

/// The text of a timestamp can be read back. Its characters are a date of the calendar and a
/// time of day, field by field with the marks between them, and these make the millisecond
/// that the instant falls in, or the Unix epoch where the instant lies before it. Up to the year
/// 9999 the year has four digits.
#[verifier::spinoff_prover]
pub proof fn law_timestamps_read_back(t: int)
    ensures
        ({
            let text = timestamp(t);
            let digits = text.len() - 20;
            &&& digits >= 4
            &&& digits > 4 ==> text[0] != '0'
            &&& t < YEAR_TEN_THOUSAND ==> digits == 4
            &&& reads_as(text, digits, if t < 0 { 0 } else { t / 1_000_000 })
        }),
{
    let ms = if t < 0 { 0 } else { t / 1_000_000 };
    let days = ms / 86_400_000;
    let date = law_every_day_has_a_date(days);
    lemma_civil(date.0, date.1, date.2);
    lemma_year_from_epoch(date.0, date.1, date.2);
    let (year, month, day) = (date.0 as nat, date.1 as nat, date.2 as nat);
    let (hh, mm, ss, millis) = (
        (ms / 3_600_000 % 24) as nat,
        (ms / 60_000 % 60) as nat,
        (ms / 1000 % 60) as nat,
        (ms % 1000) as nat,
    );
    assert(month < 100 && day < 100);
    lemma_fields_read_back(year, month, day, hh, mm, ss, millis);
    law_decimals_read_back(year, 4);
    reveal_with_fuel(power_of_ten, 5);
    assert(power_of_ten(4) == 10_000);
    let text = timestamp(t);
    assert(text == written(year, month, day, hh, mm, ss, millis));
    lemma_time_adds_up(ms);
    assert(text[0] == text.take(text.len() - 20)[0]);
    if t < YEAR_TEN_THOUSAND {
        lemma_year_ten_thousand();
        law_day_numbers_order_dates(date.0, date.1, date.2, 10_000, 1, 1);
    }
}

/// Whether `a` comes before `b` in the order of their characters.
pub open spec fn sorts_before(a: Seq<char>, b: Seq<char>) -> bool {
    exists|k: int|
        0 <= k < a.len() && k < b.len() && a.take(k) == b.take(k) && (#[trigger] a[k]) < b[k]
}

proof fn lemma_numbers_sort(a: Seq<char>, b: Seq<char>)
    requires
        is_number(a),
        is_number(b),
        a.len() == b.len(),
    ensures
        value(a) == value(b) ==> a == b,
        value(a) < value(b) ==> sorts_before(a, b),
    decreases a.len(),
{
    if a.len() == 0 {
        assert(a =~= b);
    } else {
        let (c, d) = (a.drop_last(), b.drop_last());
        assert forall|i: int| 0 <= i < c.len() implies '0' <= #[trigger] c[i] <= '9' by {
            assert(c[i] == a[i]);
        }
        assert forall|i: int| 0 <= i < d.len() implies '0' <= #[trigger] d[i] <= '9' by {
            assert(d[i] == b[i]);
        }
        assert('0' <= a[a.len() - 1] <= '9' && '0' <= b[b.len() - 1] <= '9');
        lemma_numbers_sort(c, d);
        if value(a) == value(b) {
            assert(a =~= c.push(a.last()));
            assert(b =~= d.push(b.last()));
        } else if value(a) < value(b) {
            if value(c) < value(d) {
                let k = choose|k: int|
                    0 <= k < c.len() && k < d.len() && c.take(k) == d.take(k) && (
                    #[trigger] c[k]) < d[k];
                assert(a.take(k) =~= c.take(k) && b.take(k) =~= d.take(k));
                assert(a[k] < b[k]);
            } else {
                let k = a.len() - 1;
                assert(a.take(k) =~= c && b.take(k) =~= d);
                assert(a[k] < b[k]);
            }
        }
    }
}

/// Texts that agree up to a number in both are ordered by the number, or agree behind it.
proof fn lemma_next_number(a: Seq<char>, b: Seq<char>, from: int, to: int)
    requires
        0 <= from <= to < a.len(),
        a.len() == b.len(),
        a.take(from) == b.take(from),
        is_number(a.subrange(from, to)),
        is_number(b.subrange(from, to)),
        a[to] == b[to],
    ensures
        number_at(a, from, to) == number_at(b, from, to) ==> a.take(to + 1) == b.take(to + 1),
        number_at(a, from, to) < number_at(b, from, to) ==> sorts_before(a, b),
{
    let (x, y) = (a.subrange(from, to), b.subrange(from, to));
    lemma_numbers_sort(x, y);
    if value(x) == value(y) {
        assert(a.take(to + 1) =~= a.take(from) + x + seq![a[to]]);
        assert(b.take(to + 1) =~= b.take(from) + y + seq![b[to]]);
    } else if value(x) < value(y) {
        let k = choose|k: int|
            0 <= k < x.len() && k < y.len() && x.take(k) == y.take(k) && (#[trigger] x[k]) < y[k];
        assert(a.take(from + k) =~= a.take(from) + x.take(k));
        assert(b.take(from + k) =~= b.take(from) + y.take(k));
        assert(a[from + k] == x[k] && b[from + k] == y[k]);
    }
}

/// Timestamps sort as the instants do: up to the year 9999, the timestamp of a later
/// millisecond comes after that of an earlier one in the order of their characters. So two
/// instants have the same timestamp only where they fall in the same millisecond.
#[verifier::spinoff_prover]
pub proof fn law_timestamps_sort(t1: int, t2: int)
    requires
        0 <= t1,
        t1 / 1_000_000 < t2 / 1_000_000,
        t2 < YEAR_TEN_THOUSAND,
    ensures
        sorts_before(timestamp(t1), timestamp(t2)),
        timestamp(t1) != timestamp(t2),
{
    law_timestamps_read_back(t1);
    law_timestamps_read_back(t2);
    let (a, b) = (timestamp(t1), timestamp(t2));
    let (y1, m1, d1) = (number_at(a, 0, 4), number_at(a, 5, 7), number_at(a, 8, 10));
    let (y2, m2, d2) = (number_at(b, 0, 4), number_at(b, 5, 7), number_at(b, 8, 10));
    law_day_numbers_order_dates(y1, m1, d1, y2, m2, d2);
    law_day_numbers_order_dates(y2, m2, d2, y1, m1, d1);
    assert(a.take(0) =~= b.take(0));
    lemma_next_number(a, b, 0, 4);
    if y1 == y2 {
        lemma_next_number(a, b, 5, 7);
        if m1 == m2 {
            lemma_next_number(a, b, 8, 10);
            if d1 == d2 {
                lemma_next_number(a, b, 11, 13);
                if number_at(a, 11, 13) == number_at(b, 11, 13) {
                    lemma_next_number(a, b, 14, 16);
                    if number_at(a, 14, 16) == number_at(b, 14, 16) {
                        lemma_next_number(a, b, 17, 19);
                        if number_at(a, 17, 19) == number_at(b, 17, 19) {
                            lemma_next_number(a, b, 20, 23);
                        }
                    }
                }
            }
        }
    }
    assert(sorts_before(a, b));
}

} // verus!
