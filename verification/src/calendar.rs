//! Civil dates and ISO 8601 timestamps in UTC.

use vstd::prelude::*;

verus! {

/// Whether `y` is a leap year of the Gregorian calendar.
pub open spec fn is_leap(y: int) -> bool {
    y % 4 == 0 && (y % 100 != 0 || y % 400 == 0)
}

/// Days in year `y`.
pub open spec fn days_in_year(y: int) -> int {
    if is_leap(y) { 366 } else { 365 }
}

/// Days in month `m` (1 to 12) of year `y`.
pub open spec fn days_in_month(y: int, m: int) -> int {
    if m == 2 {
        if is_leap(y) { 29 } else { 28 }
    } else if m == 4 || m == 6 || m == 9 || m == 11 {
        30
    } else {
        31
    }
}

/// Whether `y`-`m`-`d` names a day of the calendar.
pub open spec fn valid_date(y: int, m: int, d: int) -> bool {
    1 <= m <= 12 && 1 <= d <= days_in_month(y, m)
}

/// Days from 1 January 1970 to 1 January of year `y`, negative before 1970.
pub open spec fn days_to_year(y: int) -> int
    decreases if y >= 1970 { y - 1970 } else { 1970 - y },
{
    if y == 1970 {
        0
    } else if y > 1970 {
        days_to_year(y - 1) + days_in_year(y - 1)
    } else {
        days_to_year(y + 1) - days_in_year(y)
    }
}

/// Days of year `y` before the first of month `m`.
pub open spec fn days_before_month(y: int, m: int) -> int
    decreases m,
{
    if m <= 1 { 0 } else { days_before_month(y, m - 1) + days_in_month(y, m - 1) }
}

/// Days from 1 January 1970 to the date `y`-`m`-`d`.
pub open spec fn day_number(y: int, m: int, d: int) -> int {
    days_to_year(y) + days_before_month(y, m) + d - 1
}

/// Days from 1 January of year 0 to 1 January of year `y`, in closed form.
spec fn year_start(y: int) -> int {
    365 * y + (y + 3) / 4 - (y + 99) / 100 + (y + 399) / 400
}

/// Of the `d`th numbers, one more lies below `y + 1` than below `y` where `y` is one of them.
proof fn lemma_multiples_below(y: int, d: int)
    requires
        d > 0,
    ensures
        (y + 1 + (d - 1)) / d == (y + (d - 1)) / d + if y % d == 0 { 1int } else { 0int },
{
    let (q, r) = (y / d, y % d);
    vstd::arithmetic::div_mod::lemma_fundamental_div_mod(y, d);
    vstd::arithmetic::div_mod::lemma_mod_bound(y, d);
    assert((q + 1) * d == q * d + d && d * q == q * d) by (nonlinear_arith);
    vstd::arithmetic::div_mod::lemma_fundamental_div_mod_converse(y + d, d, q + 1, r);
    if r == 0 {
        vstd::arithmetic::div_mod::lemma_fundamental_div_mod_converse(y + d - 1, d, q, d - 1);
    } else {
        vstd::arithmetic::div_mod::lemma_fundamental_div_mod_converse(
            y + d - 1,
            d,
            q + 1,
            r - 1,
        );
    }
}

#[verifier::spinoff_prover]
proof fn lemma_year_start_step(y: int)
    ensures
        year_start(y + 1) == year_start(y) + days_in_year(y),
{
    lemma_multiples_below(y, 4);
    lemma_multiples_below(y, 100);
    lemma_multiples_below(y, 400);
}

proof fn lemma_days_to_year(y: int)
    ensures
        days_to_year(y) == year_start(y) - 719_528,
    decreases if y >= 1970 { y - 1970 } else { 1970 - y },
{
    if y > 1970 {
        lemma_days_to_year(y - 1);
        lemma_year_start_step(y - 1);
    } else if y < 1970 {
        lemma_days_to_year(y + 1);
        lemma_year_start_step(y);
    }
}

proof fn lemma_days_before_month(y: int)
    ensures
        days_before_month(y, 1) == 0,
        days_before_month(y, 2) == 31,
        days_before_month(y, 3) == if is_leap(y) { 60int } else { 59int },
        days_before_month(y, 4) == days_before_month(y, 3) + 31,
        days_before_month(y, 5) == days_before_month(y, 3) + 61,
        days_before_month(y, 6) == days_before_month(y, 3) + 92,
        days_before_month(y, 7) == days_before_month(y, 3) + 122,
        days_before_month(y, 8) == days_before_month(y, 3) + 153,
        days_before_month(y, 9) == days_before_month(y, 3) + 184,
        days_before_month(y, 10) == days_before_month(y, 3) + 214,
        days_before_month(y, 11) == days_before_month(y, 3) + 245,
        days_before_month(y, 12) == days_before_month(y, 3) + 275,
{
    reveal_with_fuel(days_before_month, 13);
}

/// Days of a 400-year cycle that begins on 1 March before the `y`th year that begins so.
spec fn cycle_days(y: int) -> int {
    365 * y + y / 4 - y / 100
}

#[verifier::spinoff_prover]
proof fn lemma_year_in_groups(doe: int, four: int, century: int, yoe: int)
    requires
        0 <= doe < 146_096,
        0 <= century <= 3,
        1460 * four <= doe < 1460 * four + 1460,
        36_524 * century <= doe < 36_524 * century + 36_524,
        365 * yoe <= doe - four + century < 365 * yoe + 365,
    ensures
        0 <= yoe <= 399,
        cycle_days(yoe) <= doe < cycle_days(yoe + 1),
{
    let (q, h, q1, h1) = (yoe / 4, yoe / 100, (yoe + 1) / 4, (yoe + 1) / 100);
    assert(h == century || (h == century - 1 && yoe == 100 * century - 1));
}

#[verifier::spinoff_prover]
proof fn lemma_year_of_cycle(doe: int, yoe: int)
    requires
        0 <= doe <= 146_096,
        yoe == (doe - doe / 1460 + doe / 36_524 - doe / 146_096) / 365,
    ensures
        0 <= yoe <= 399,
        cycle_days(yoe) <= doe,
        doe < cycle_days(yoe + 1) || (yoe == 399 && doe == 146_096),
{
    if doe == 146_096 {
        assert(yoe == 399);
    } else {
        let (four, century) = (doe / 1460, doe / 36_524);
        assert(0 <= century <= 3);
        assert(365 * yoe <= doe - four + century < 365 * yoe + 365);
        lemma_year_in_groups(doe, four, century, yoe);
    }
}

#[verifier::spinoff_prover]
proof fn lemma_month_of_year(doy: int, mp: int)
    requires
        0 <= doy <= 365,
        mp == (5 * doy + 2) / 153,
    ensures
        0 <= mp <= 11,
        (153 * mp + 2) / 5 <= doy < (153 * (mp + 1) + 2) / 5,
{
}

/// The day `doy` days after 1 March of `year` falls in the month that begins
/// `(153 * mp + 2) / 5` days after that 1 March.
#[verifier::spinoff_prover]
proof fn lemma_day_in_march_year(year: int, doy: int, mp: int)
    requires
        0 <= doy < if is_leap(year + 1) { 366int } else { 365int },
        mp == (5 * doy + 2) / 153,
    ensures
        ({
            let d = doy - (153 * mp + 2) / 5 + 1;
            let m = if mp < 10 { mp + 3 } else { mp - 9 };
            let y = if m <= 2 { year + 1 } else { year };
            &&& valid_date(y, m, d)
            &&& day_number(y, m, d) == year_start(year) + (if is_leap(year) { 60int } else { 59int })
                + doy - 719_528
        }),
{
    lemma_month_of_year(doy, mp);
    lemma_days_to_year(year);
    lemma_days_to_year(year + 1);
    lemma_year_start_step(year);
    lemma_days_before_month(year);
    lemma_days_before_month(year + 1);
}

proof fn lemma_shifted(x: int, k: int, d: int)
    requires
        d > 0,
    ensures
        (x + k * d) / d == x / d + k,
        (x + k * d) % d == x % d,
{
    vstd::arithmetic::div_mod::lemma_hoist_over_denominator(x, k, d as nat);
    vstd::arithmetic::div_mod::lemma_mod_multiples_vanish(k, x, d);
    assert(d * k + x == x + k * d) by (nonlinear_arith);
}

/// The calendar repeats every 400 years.
#[verifier::spinoff_prover]
proof fn lemma_cycle_repeats(y: int, era: int)
    ensures
        year_start(y + era * 400) == year_start(y) + era * 146_097,
        is_leap(y + era * 400) == is_leap(y),
{
    assert((y + era * 400 + 3) / 4 == (y + 3) / 4 + era * 100) by {
        lemma_shifted(y + 3, era * 100, 4);
    }
    assert((y + era * 400 + 99) / 100 == (y + 99) / 100 + era * 4) by {
        lemma_shifted(y + 99, era * 4, 100);
    }
    assert((y + era * 400 + 399) / 400 == (y + 399) / 400 + era) by {
        lemma_shifted(y + 399, era, 400);
    }
    assert((y + era * 400) % 4 == y % 4) by {
        lemma_shifted(y, era * 100, 4);
    }
    assert((y + era * 400) % 100 == y % 100) by {
        lemma_shifted(y, era * 4, 100);
    }
    assert((y + era * 400) % 400 == y % 400) by {
        lemma_shifted(y, era, 400);
    }
}

/// 1 March of a year of the cycle that began on 1 March of year 0.
#[verifier::spinoff_prover]
proof fn lemma_march_first(yoe: int)
    requires
        0 <= yoe <= 399,
    ensures
        year_start(yoe) + (if is_leap(yoe) { 60int } else { 59int }) == cycle_days(yoe) + 60,
        is_leap(yoe + 1) && yoe < 399 ==> cycle_days(yoe + 1) == cycle_days(yoe) + 366,
        !is_leap(yoe + 1) ==> cycle_days(yoe + 1) == cycle_days(yoe) + 365,
        yoe == 399 ==> is_leap(yoe + 1) && cycle_days(yoe) == 145_731,
{
}

/// Day `doe` of the 400-year cycle number `era` is day `doy` of the year `yoe` of the cycle,
/// counted from 1 March.
#[verifier::spinoff_prover]
proof fn lemma_day_of_cycle(era: int, doe: int, yoe: int, doy: int, mp: int)
    requires
        0 <= doe <= 146_096,
        yoe == (doe - doe / 1460 + doe / 36_524 - doe / 146_096) / 365,
        doy == doe - cycle_days(yoe),
        mp == (5 * doy + 2) / 153,
    ensures
        0 <= yoe <= 399,
        0 <= doy <= 365,
        0 <= mp <= 11,
        ({
            let d = doy - (153 * mp + 2) / 5 + 1;
            let m = if mp < 10 { mp + 3 } else { mp - 9 };
            let y = yoe + era * 400 + if m <= 2 { 1int } else { 0int };
            &&& valid_date(y, m, d)
            &&& day_number(y, m, d) == era * 146_097 + doe - 719_468
        }),
{
    lemma_year_of_cycle(doe, yoe);
    lemma_march_first(yoe);
    lemma_cycle_repeats(yoe, era);
    lemma_cycle_repeats(yoe + 1, era);
    lemma_month_of_year(doy, mp);
    lemma_day_in_march_year(yoe + era * 400, doy, mp);
}

/// The civil date `(year, month, day)` that lies `z` days after 1 January 1970
/// (before it, where `z` is negative).
#[verifier::spinoff_prover]
pub fn civil_from_days(z: i64) -> (date: (i64, u32, u32))
    requires
        z <= i64::MAX - 719_468,
    ensures
        valid_date(date.0 as int, date.1 as int, date.2 as int),
        day_number(date.0 as int, date.1 as int, date.2 as int) == z,
{
    let z = z + 719_468;
    let era: i64 = (if z >= 0 { z } else { z - 146_096 }) / 146_097;
    assert(era == z as int / 146_097);
    let doe: i64 = z - era * 146_097;
    let yoe: i64 = (doe - doe / 1460 + doe / 36_524 - doe / 146_096) / 365;
    proof {
        lemma_year_of_cycle(doe as int, yoe as int);
    }
    let year: i64 = yoe + era * 400;
    let doy: i64 = doe - (365 * yoe + yoe / 4 - yoe / 100);
    let ghost month_of_year = (5 * doy + 2) / 153;
    proof {
        lemma_day_of_cycle(era as int, doe as int, yoe as int, doy as int, month_of_year);
    }
    let mp: i64 = (5 * doy + 2) / 153;
    let day: u32 = (doy - (153 * mp + 2) / 5 + 1) as u32;
    let month: u32 = (if mp < 10 { mp + 3 } else { mp - 9 }) as u32;
    (if month <= 2 { year + 1 } else { year }, month, day)
}

proof fn lemma_days_in_months(y: int, m: int)
    requires
        1 <= m <= 12,
    ensures
        0 <= days_before_month(y, m) <= days_in_year(y) - days_in_month(y, m),
{
    lemma_days_before_month(y);
}

proof fn lemma_days_to_year_grows(y1: int, y2: int)
    requires
        y1 < y2,
    ensures
        days_to_year(y1) + days_in_year(y1) <= days_to_year(y2),
    decreases y2 - y1,
{
    lemma_days_to_year(y1);
    lemma_days_to_year(y1 + 1);
    lemma_year_start_step(y1);
    if y1 + 1 < y2 {
        lemma_days_to_year_grows(y1 + 1, y2);
    }
}

proof fn lemma_days_before_month_grows(y: int, m1: int, m2: int)
    requires
        1 <= m1 < m2 <= 12,
    ensures
        days_before_month(y, m1) + days_in_month(y, m1) <= days_before_month(y, m2),
    decreases m2 - m1,
{
    if m1 + 1 < m2 {
        lemma_days_before_month_grows(y, m1, m2 - 1);
    }
}

/// No day on or after 1 January 1970 lies in an earlier year.
pub proof fn lemma_year_from_epoch(y: int, m: int, d: int)
    requires
        valid_date(y, m, d),
        day_number(y, m, d) >= 0,
    ensures
        y >= 1970,
{
    lemma_days_in_months(y, m);
    if y < 1970 {
        lemma_days_to_year_grows(y, 1970);
    }
}

/// Whether the date `y1`-`m1`-`d1` comes before the date `y2`-`m2`-`d2`.
pub open spec fn earlier(y1: int, m1: int, d1: int, y2: int, m2: int, d2: int) -> bool {
    y1 < y2 || (y1 == y2 && (m1 < m2 || (m1 == m2 && d1 < d2)))
}

/// Day numbers order dates as the calendar does.
pub proof fn law_day_numbers_order_dates(y1: int, m1: int, d1: int, y2: int, m2: int, d2: int)
    requires
        valid_date(y1, m1, d1),
        valid_date(y2, m2, d2),
    ensures
        earlier(y1, m1, d1, y2, m2, d2) <==> day_number(y1, m1, d1) < day_number(y2, m2, d2),
{
    lemma_days_in_months(y1, m1);
    lemma_days_in_months(y2, m2);
    if y1 < y2 {
        lemma_days_to_year_grows(y1, y2);
    } else if y2 < y1 {
        lemma_days_to_year_grows(y2, y1);
    } else if m1 < m2 {
        lemma_days_before_month_grows(y1, m1, m2);
    } else if m2 < m1 {
        lemma_days_before_month_grows(y1, m2, m1);
    }
}

/// No two dates have the same day number.
pub proof fn law_day_numbers_name_one_date(y1: int, m1: int, d1: int, y2: int, m2: int, d2: int)
    requires
        valid_date(y1, m1, d1),
        valid_date(y2, m2, d2),
        day_number(y1, m1, d1) == day_number(y2, m2, d2),
    ensures
        y1 == y2 && m1 == m2 && d1 == d2,
{
    law_day_numbers_order_dates(y1, m1, d1, y2, m2, d2);
    law_day_numbers_order_dates(y2, m2, d2, y1, m1, d1);
}

/// Every day has a date: each day number is that of the date that is returned.
pub proof fn law_every_day_has_a_date(z: int) -> (date: (int, int, int))
    ensures
        valid_date(date.0, date.1, date.2),
        day_number(date.0, date.1, date.2) == z,
{
    let shifted = z + 719_468;
    let era = shifted / 146_097;
    let doe = shifted % 146_097;
    let yoe = (doe - doe / 1460 + doe / 36_524 - doe / 146_096) / 365;
    let doy = doe - cycle_days(yoe);
    let mp = (5 * doy + 2) / 153;
    lemma_day_of_cycle(era, doe, yoe, doy, mp);
    let m = if mp < 10 { mp + 3 } else { mp - 9 };
    (yoe + era * 400 + if m <= 2 { 1int } else { 0int }, m, doy - (153 * mp + 2) / 5 + 1)
}

/// The first day of the year 10000.
pub(crate) proof fn lemma_year_ten_thousand()
    ensures
        day_number(10_000, 1, 1) == 2_932_897,
{
    lemma_days_to_year(10_000);
    lemma_days_before_month(10_000);
}

/// Months have 31 and 30 days in turn, beginning anew in August, but for February, which has 28,
/// or 29 in a leap year; and together they make the days of the year.
pub proof fn law_months_make_a_year(y: int, m: int)
    requires
        1 <= m <= 12,
    ensures
        m != 2 ==> days_in_month(y, m) == 30 + (m + m / 8) % 2,
        days_in_month(y, 2) == 28 + if is_leap(y) { 1int } else { 0int },
        days_before_month(y, 1) == 0,
        m < 12 ==> days_before_month(y, m + 1) == days_before_month(y, m) + days_in_month(y, m),
        days_before_month(y, 12) + 31 == days_in_year(y),
{
    lemma_days_before_month(y);
}

/// Days follow each other: 1 January 1970 is day 0, and each day's number is one more than that
/// of the day before it, over the ends of months and years.
pub proof fn law_days_follow_each_other(y: int, m: int, d: int)
    requires
        valid_date(y, m, d),
    ensures
        day_number(1970, 1, 1) == 0,
        d < days_in_month(y, m) ==> day_number(y, m, d + 1) == day_number(y, m, d) + 1,
        d == days_in_month(y, m) && m < 12 ==> day_number(y, m + 1, 1) == day_number(y, m, d) + 1,
        d == 31 && m == 12 ==> day_number(y + 1, 1, 1) == day_number(y, m, d) + 1,
{
    lemma_days_before_month(y);
    lemma_days_before_month(y + 1);
    lemma_days_before_month(1970);
    lemma_days_to_year(y);
    lemma_days_to_year(y + 1);
    lemma_year_start_step(y);
}

/// The calendar is the Gregorian one: every fourth year has a day more, but of those that end a
/// century only every fourth, so that it repeats after 400 years, which have 146097 days.
pub proof fn law_calendar_repeats(y: int, m: int, d: int)
    requires
        1 <= m <= 12,
    ensures
        day_number(y + 400, m, d) == day_number(y, m, d) + 146_097,
        day_number(y + 1, 1, 1) - day_number(y, 1, 1) == 365 + if y % 400 == 0 || (y % 4 == 0 && y
            % 100 != 0) {
            1int
        } else {
            0int
        },
{
    lemma_cycle_repeats(y, 1);
    lemma_days_to_year(y);
    lemma_days_to_year(y + 1);
    lemma_days_to_year(y + 400);
    lemma_year_start_step(y);
    lemma_days_before_month(y);
    lemma_days_before_month(y + 1);
    lemma_days_before_month(y + 400);
    assert(y % 400 == 0 ==> y % 4 == 0 && y % 100 == 0);
    assert(is_leap(y + 400) == is_leap(y));
    assert(m == 1 || m == 2 || m == 3 || m == 4 || m == 5 || m == 6 || m == 7 || m == 8 || m == 9
        || m == 10 || m == 11 || m == 12);
}

} // verus!
