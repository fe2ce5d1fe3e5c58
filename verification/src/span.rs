//! Lengths of time, and how many samples they hold.

use vstd::prelude::*;
use vstd::arithmetic::power2::pow2;
use crate::double::Double;

verus! {

/// A length of time: whole seconds and the nanoseconds beyond them.
#[derive(Debug, Clone, Copy, PartialEq, Eq, Structural)]
pub struct Span {
    pub secs: u64,
    /// Less than a second.
    pub nanos: u32,
}

impl Span {
    /// Whether the nanoseconds make less than a second.
    pub open spec fn wf(self) -> bool {
        self.nanos < 1_000_000_000
    }

    /// No time at all.
    pub fn zero() -> (span: Span)
        ensures
            span == (Span { secs: 0, nanos: 0 }),
    {
        Span { secs: 0, nanos: 0 }
    }

    /// A whole number of seconds.
    pub fn from_secs(secs: u64) -> (span: Span)
        ensures
            span == (Span { secs, nanos: 0 }),
    {
        Span { secs, nanos: 0 }
    }

    /// A whole number of milliseconds.
    pub fn from_millis(millis: u64) -> (span: Span)
        ensures
            span.wf(),
            span.secs * 1000 + span.nanos / 1_000_000 == millis,
            span.nanos % 1_000_000 == 0,
            span.secs * 1_000_000_000 + span.nanos == millis * 1_000_000,
    {
        Span { secs: millis / 1000, nanos: (millis % 1000) as u32 * 1_000_000 }
    }
}

/// A length of time in seconds, in double precision: the double nearest to the whole seconds
/// plus the double nearest to the fraction.
pub open spec fn seconds(span: Span) -> crate::double::Binary {
    crate::double::nearest(span.secs as nat, 1).plus(
        crate::double::nearest(span.nanos as nat, 1_000_000_000),
    )
}

/// The samples in `span` at `rate`, in double precision: the product of the rate and the
/// seconds, rounded to the nearest whole number.
pub open spec fn sample_count(rate: u32, span: Span) -> nat {
    let product = seconds(span).times(rate as nat);
    crate::double::round_up(product.num(), product.den())
}

/// `n`, or the greatest `usize` where that is smaller.
pub open spec fn saturated(n: nat) -> nat {
    if n <= usize::MAX { n } else { usize::MAX as nat }
}

/// How many samples `span` holds at `rate`, to the nearest whole number.
pub fn samples_in(rate: u32, span: Span) -> (n: usize)
    requires
        span.wf(),
    ensures
        n == saturated(sample_count(rate, span)),
{
    let whole = Double::from_u64(span.secs);
    let fraction = Double::from_quotient(span.nanos, 1_000_000_000);
    whole.plus(&fraction).times(rate).to_count()
}

/// The time that `frames` frames take at `rate`, in double precision: the quotient in
/// seconds, rounded to the nearest nanosecond.
pub open spec fn frames_nanos(frames: nat, rate: u32) -> nat {
    let secs = crate::double::nearest(frames, 1).over(rate as nat);
    crate::double::round_even(secs.num() * 1_000_000_000, secs.den())
}

/// How many nanoseconds `frames` frames take at `rate`.
pub fn nanos_of_frames(frames: u64, rate: u32) -> (nanos: u128)
    requires
        rate > 0,
    ensures
        nanos == frames_nanos(frames as nat, rate),
        nanos <= 0x1_0000_0000_0000_0000_0000_0000_0000,
{
    Double::from_u64(frames).over(rate).to_nanos()
}

/// A whole number of seconds holds exactly that many times the rate in samples, as long as a
/// double can tell such counts apart.
pub proof fn law_whole_seconds_are_exact(rate: u32, secs: u64)
    requires
        rate * secs < crate::double::MANTISSA_END,
    ensures
        sample_count(rate, Span { secs, nanos: 0 }) == rate * secs,
{
    let whole = crate::double::nearest(secs as nat, 1);
    vstd::arithmetic::power2::lemma2_to64();
    if secs == 0 {
        assert(0 * rate == 0);
        assert(0 * pow2(0) == 0);
    } else if rate == 0 {
        assert(whole.mantissa * 0 == 0);
        assert(0 * secs == 0);
        assert(0 * pow2(0) == 0);
    } else {
        let v = (rate * secs) as nat;
        assert(secs <= rate * secs) by (nonlinear_arith)
            requires
                rate >= 1,
        ;
        crate::double::lemma_whole(secs as nat);
        let t = -whole.exponent as nat;
        assert(whole.mantissa * rate == v * pow2(t)) by (nonlinear_arith)
            requires
                whole.mantissa == secs * pow2(t),
                v == rate * secs,
        ;
        crate::double::lemma_shift_back(v, t);
        let x = crate::double::nearest(v * pow2(t), 1).shifted(-t);
        assert(x.num() / x.den() == v && x.num() % x.den() == 0) by {
            vstd::arithmetic::div_mod::lemma_fundamental_div_mod_converse(
                x.num() as int,
                x.den() as int,
                v as int,
                0,
            );
        }
    }
}

/// A whole number of seconds' worth of frames takes exactly that many seconds, as long as a
/// double can tell such counts apart.
pub proof fn law_frames_of_whole_seconds(rate: u32, secs: u64)
    requires
        rate > 0,
        rate * secs < crate::double::MANTISSA_END,
    ensures
        frames_nanos((rate * secs) as nat, rate) == secs * 1_000_000_000,
{
    let v = (rate * secs) as nat;
    let whole = crate::double::nearest(v, 1);
    vstd::arithmetic::power2::lemma2_to64();
    if secs == 0 {
        assert(rate * 0 == 0);
        assert(0 * pow2(0) == 0);
        assert(0 * 1_000_000_000 == 0);
    } else {
        assert(secs <= rate * secs && 0 < rate * secs) by (nonlinear_arith)
            requires
                rate >= 1,
                secs >= 1,
        ;
        crate::double::lemma_whole(v);
        let t = -whole.exponent as nat;
        let s = secs as nat;
        vstd::arithmetic::power2::lemma_pow2_pos(t);
        assert(whole.mantissa == s * pow2(t) * rate && s * pow2(t) > 0) by (nonlinear_arith)
            requires
                whole.mantissa == v * pow2(t),
                v == rate * s,
                s > 0,
                pow2(t) > 0,
        ;
        crate::double::lemma_common_factor(s * pow2(t), 1, rate as nat);
        crate::double::lemma_shift_back(s, t);
        let x = crate::double::nearest(s * pow2(t), 1).shifted(-t);
        let p = x.num() * 1_000_000_000;
        let q = x.den();
        assert(p == (s * 1_000_000_000) * q) by (nonlinear_arith)
            requires
                p == x.num() * 1_000_000_000,
                x.num() == s * q,
        ;
        vstd::arithmetic::div_mod::lemma_fundamental_div_mod_converse(
            p as int,
            q as int,
            (s * 1_000_000_000) as int,
            0,
        );
    }
}

/// Frames take the time that the rate says, to the nanosecond, as long as they take no more
/// than 48 days and a double can tell such counts apart; and to the nearest nanosecond, give
/// or take a few thousandths of one, as long as they take no more than four hours.
pub proof fn law_frames_take_their_time(frames: nat, rate: u32)
    requires
        rate > 0,
        frames < crate::double::MANTISSA_END,
        frames <= rate * 0x40_0000,
    ensures
        frames_nanos(frames, rate) * rate - frames * 1_000_000_000 < rate,
        frames * 1_000_000_000 - frames_nanos(frames, rate) * rate < rate,
        frames <= rate * 0x4000 ==> {
            &&& 1000 * (frames_nanos(frames, rate) * rate - frames * 1_000_000_000) <= 502 * rate
            &&& 1000 * (frames * 1_000_000_000 - frames_nanos(frames, rate) * rate) <= 502 * rate
        },
{
    let r = rate as nat;
    let whole = crate::double::nearest(frames, 1);
    let x = whole.over(r);
    vstd::arithmetic::power2::lemma2_to64();
    assert(crate::double::near(x, frames, r)) by {
        if frames == 0 {
            assert(0 * pow2(0) == 0);
            crate::double::lemma_nearest_is_near(0, r);
        } else {
            crate::double::lemma_whole(frames);
            let t = -whole.exponent as nat;
            crate::double::lemma_nearest_is_near(whole.mantissa, r);
            crate::double::lemma_near_shifted_back(
                crate::double::nearest(whole.mantissa, r),
                frames,
                r,
                t,
            );
        }
    }
    let n = x.num();
    let d = x.den();
    if x.exponent < 0 {
        vstd::arithmetic::power2::lemma_pow2_pos(-x.exponent as nat);
    }
    assert(d > 0);
    let p = n * 1_000_000_000;
    let nanos = frames_nanos(frames, rate);
    let low = p / d;
    let rest = p % d;
    vstd::arithmetic::div_mod::lemma_fundamental_div_mod(p as int, d as int);
    assert(2 * (nanos * d - p) <= d && 2 * (p - nanos * d) <= d) by (nonlinear_arith)
        requires
            p == d * low + rest,
            0 <= rest < d,
            (nanos == low && 2 * rest <= d) || (nanos == low + 1 && 2 * rest >= d),
    ;
    let fd = frames * d;
    let err = n * r - fd;
    assert(err * crate::double::MANTISSA_END <= fd && -err * crate::double::MANTISSA_END <= fd);
    // In units of 1 / (rate * d): the rounding to nanoseconds, and that to doubles.
    assert(fd <= r * 0x40_0000 * d) by (nonlinear_arith)
        requires
            fd == frames * d,
            frames <= r * 0x40_0000,
    ;
    let rd = r * d;
    assert(rd > 0) by (nonlinear_arith)
        requires
            r > 0,
            d > 0,
            rd == r * d,
    ;
    assert(r * 0x40_0000 * d == rd * 0x40_0000) by (nonlinear_arith)
        requires
            rd == r * d,
    ;
    let a = nanos * d - p;
    assert((nanos * r - frames * 1_000_000_000) * d == a * r + 1_000_000_000 * err)
        by (nonlinear_arith)
        requires
            a == nanos * d - p,
            p == n * 1_000_000_000,
            err == n * r - frames * d,
    ;
    assert(2 * (a * r) <= rd && -2 * (a * r) <= rd) by (nonlinear_arith)
        requires
            2 * a <= d,
            -2 * a <= d,
            rd == r * d,
    ;
    let total = (nanos * r - frames * 1_000_000_000) * d;
    assert(total < rd && -total < rd);
    assert(nanos * r - frames * 1_000_000_000 < r && frames * 1_000_000_000 - nanos * r < r)
        by (nonlinear_arith)
        requires
            total == (nanos * r - frames * 1_000_000_000) * d,
            total < rd,
            -total < rd,
            rd == r * d,
            d > 0,
    ;
    if frames <= rate * 0x4000 {
        assert(fd <= r * 0x4000 * d && r * 0x4000 * d == rd * 0x4000) by (nonlinear_arith)
            requires
                fd == frames * d,
                frames <= r * 0x4000,
                rd == r * d,
        ;
        assert(1000 * total <= 502 * rd && -1000 * total <= 502 * rd);
        assert(1000 * (nanos * r - frames * 1_000_000_000) <= 502 * r && 1000 * (frames
            * 1_000_000_000 - nanos * r) <= 502 * r) by (nonlinear_arith)
            requires
                total == (nanos * r - frames * 1_000_000_000) * d,
                1000 * total <= 502 * rd,
                -1000 * total <= 502 * rd,
                rd == r * d,
                d > 0,
        ;
    }
}

/// The seconds of `span`, in double precision, are within three parts in `2^53` of it.
proof fn lemma_seconds_are_near(span: Span)
    requires
        span.wf(),
        span.secs < crate::double::MANTISSA_END,
    ensures
        seconds(span).den() > 0,
        crate::double::within(
            seconds(span).num() as int,
            seconds(span).den() as int,
            span.secs * 1_000_000_000 + span.nanos,
            1_000_000_000,
            3,
        ),
{
    let (secs, nanos, billion) = (span.secs as nat, span.nanos as nat, 1_000_000_000nat);
    let s = seconds(span);
    let (n, d) = (s.num() as int, s.den() as int);
    let total = (secs * billion + nanos) as int;
    let a = crate::double::nearest(secs, 1);
    let f = crate::double::nearest(nanos, billion);
    vstd::arithmetic::power2::lemma2_to64();
    if s.exponent < 0 {
        vstd::arithmetic::power2::lemma_pow2_pos(-s.exponent as nat);
    }
    crate::double::lemma_nearest_is_near(nanos, billion);
    if secs == 0 {
        assert(s == f);
        assert(total == nanos);
        assert(0 <= total * d) by (nonlinear_arith)
            requires
                0 <= total,
                0 <= d,
        ;
    } else if nanos == 0 {
        crate::double::lemma_whole(secs);
        let unit = pow2(-a.exponent as nat);
        vstd::arithmetic::power2::lemma_pow2_pos(-a.exponent as nat);
        assert(a.mantissa > 0) by (nonlinear_arith)
            requires
                a.mantissa == secs * unit,
                secs > 0,
                unit > 0,
        ;
        assert(s == a);
        crate::double::lemma_nearest_is_near(secs, 1);
        assert(total * d == billion * (secs * d) && n * billion == billion * n && 0 <= secs * d)
            by (nonlinear_arith)
            requires
                total == secs * billion,
                0 <= secs,
                0 <= d,
        ;
        assert(n * 1 == n);
    } else {
        crate::double::lemma_sum_is_near(secs, nanos, billion);
        let unit = pow2(-f.exponent as nat) as int;
        let sum = (secs * pow2(-f.exponent as nat) + f.mantissa) as int;
        vstd::arithmetic::power2::lemma_pow2_pos(-f.exponent as nat);
        assert(sum * billion - total * unit == f.mantissa * billion - nanos * unit && nanos * unit
            <= total * unit && 0 <= sum) by (nonlinear_arith)
            requires
                sum == secs * unit + f.mantissa,
                total == secs * billion + nanos,
                0 <= secs,
                0 < unit,
                0 <= f.mantissa,
        ;
        assert(crate::double::within(sum, unit, total, billion as int, 1));
        assert(crate::double::within(n, d, sum, unit, 1));
        crate::double::lemma_within_chain(n, d, sum, unit, total, billion as int, 1);
    }
}

/// A span holds as many samples as the rate says, to the nearest sample or the one beside it,
/// as long as there are no more than `2^49` of them: the count differs by less than one from
/// the rate times the seconds and their fraction, and by no more than half a sample and a
/// thousandth of one as long as there are no more than `2^40` samples.
pub proof fn law_spans_hold_their_samples(rate: u32, span: Span)
    requires
        span.wf(),
        rate * (span.secs * 1_000_000_000 + span.nanos) <= 0x2_0000_0000_0000 * 1_000_000_000,
    ensures
        ({
            let exact = rate * (span.secs * 1_000_000_000 + span.nanos);
            &&& sample_count(rate, span) * 1_000_000_000 - exact < 1_000_000_000
            &&& exact - sample_count(rate, span) * 1_000_000_000 < 1_000_000_000
            &&& exact <= 0x100_0000_0000 * 1_000_000_000 ==> {
                &&& 1000 * (sample_count(rate, span) * 1_000_000_000 - exact) <= 501_000_000_000
                &&& 1000 * (exact - sample_count(rate, span) * 1_000_000_000) <= 501_000_000_000
            }
        }),
{
    let total = span.secs * 1_000_000_000 + span.nanos;
    let s = seconds(span);
    let x = s.times(rate as nat);
    let (n, d) = (x.num() as int, x.den() as int);
    let r = rate as int;
    let exact = r * total;
    let e = crate::double::MANTISSA_END as int;
    let count = sample_count(rate, span) as int;
    vstd::arithmetic::power2::lemma2_to64();
    if x.exponent < 0 {
        vstd::arithmetic::power2::lemma_pow2_pos(-x.exponent as nat);
    }
    if rate == 0 {
        assert(s.mantissa * 0 == 0);
        assert(0 * total == 0);
        assert(0 * pow2(0) == 0);
    } else {
        assert(total <= r * total) by (nonlinear_arith)
            requires
                r >= 1,
                total >= 0,
        ;
        lemma_seconds_are_near(span);
        crate::double::lemma_times_is_near(s, rate as nat);
        let (sn, sd) = (s.num() as int, s.den() as int);
        let scaled = sn * r;
        assert(0 <= scaled) by (nonlinear_arith)
            requires
                scaled == sn * r,
                0 <= sn,
                0 <= r,
        ;
        assert(crate::double::within(scaled, sd, exact, 1_000_000_000, 3)) by {
            assert((scaled * 1_000_000_000 - exact * sd) * e <= 3 * (exact * sd) && (exact * sd
                - scaled * 1_000_000_000) * e <= 3 * (exact * sd)) by (nonlinear_arith)
                requires
                    scaled == sn * r,
                    exact == r * total,
                    r >= 0,
                    (sn * 1_000_000_000 - total * sd) * e <= 3 * (total * sd),
                    (total * sd - sn * 1_000_000_000) * e <= 3 * (total * sd),
            ;
        }
        assert(crate::double::within(n, d, scaled, sd, 1));
        crate::double::lemma_within_chain(n, d, scaled, sd, exact, 1_000_000_000, 3);
        let low = (n / d) as int;
        let rest = (n % d) as int;
        vstd::arithmetic::div_mod::lemma_fundamental_div_mod(n, d);
        assert(2 * (count * d - n) <= d && 2 * (n - count * d) <= d) by (nonlinear_arith)
            requires
                n == d * low + rest,
                0 <= rest < d,
                (count == low && 2 * rest < d) || (count == low + 1 && 2 * rest >= d),
        ;
        let most = 0x2_0000_0000_0000 * 1_000_000_000;
        assert(exact * d <= most * d) by (nonlinear_arith)
            requires
                exact <= most,
                0 <= d,
        ;
        let (p, q) = (n * 1_000_000_000, exact * d);
        assert(16 * (p - q) <= 5 * (1_000_000_000 * d) && 16 * (q - p) <= 5 * (1_000_000_000 * d));
        let c = count * d;
        assert(count * 1_000_000_000 - exact < 1_000_000_000 && exact - count * 1_000_000_000
            < 1_000_000_000) by (nonlinear_arith)
            requires
                c == count * d,
                2 * (c - n) <= d,
                2 * (n - c) <= d,
                p == n * 1_000_000_000,
                q == exact * d,
                16 * (p - q) <= 5 * (1_000_000_000 * d),
                16 * (q - p) <= 5 * (1_000_000_000 * d),
                0 < d,
        ;
        let fewer: nat = 0x100_0000_0000 * 1_000_000_000;
        if exact <= fewer {
            assert(exact * d <= fewer * d) by (nonlinear_arith)
                requires
                    exact <= fewer,
                    0 <= d,
            ;
            let unit = 1_000_000_000 * d;
            assert(fewer * d == 0x100_0000_0000 * unit) by (nonlinear_arith)
                requires
                    fewer == 0x100_0000_0000 * 1_000_000_000,
                    unit == 1_000_000_000 * d,
            ;
            assert((p - q) * e <= 5 * q && (q - p) * e <= 5 * q);
            assert(q <= 0x100_0000_0000 * unit);
            assert(8192 * (p - q) <= 5 * (1_000_000_000 * d) && 8192 * (q - p) <= 5 * (1_000_000_000
                * d));
            assert(1000 * (count * 1_000_000_000 - exact) <= 501_000_000_000 && 1000 * (exact - count
                * 1_000_000_000) <= 501_000_000_000) by (nonlinear_arith)
                requires
                    c == count * d,
                    2 * (c - n) <= d,
                    2 * (n - c) <= d,
                    p == n * 1_000_000_000,
                    q == exact * d,
                    8192 * (p - q) <= 5 * (1_000_000_000 * d),
                    8192 * (q - p) <= 5 * (1_000_000_000 * d),
                    0 < d,
            ;
        }
    }
}

} // verus!
