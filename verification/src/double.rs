//! Arithmetic on non-negative binary64 numbers, in integers.
//!
//! Lengths in samples and in time are converted into each other in double precision. The
//! operations here give the mantissa and the exponent that the rounding rule of IEEE 754
//! (round to nearest, ties to even) asks for. None of the values that occur is subnormal or
//! infinite.

use vstd::prelude::*;
use vstd::arithmetic::power2::pow2;

verus! {

/// 2 to the power of 52: the least mantissa of a number other than zero.
pub const MANTISSA_MIN: u64 = 4_503_599_627_370_496;

/// 2 to the power of 53, which every mantissa is below.
pub const MANTISSA_END: u64 = 9_007_199_254_740_992;

/// The number `mantissa * 2^exponent`.
pub struct Double {
    pub mantissa: u64,
    pub exponent: i32,
}

/// The number `mantissa * 2^exponent` as the contracts speak of it. Zero is `(0, 0)`.
pub struct Binary {
    pub mantissa: nat,
    pub exponent: int,
}

impl View for Double {
    type V = Binary;

    open spec fn view(&self) -> Binary {
        Binary { mantissa: self.mantissa as nat, exponent: self.exponent as int }
    }
}

impl Binary {
    /// Zero, or a mantissa of exactly 53 bits.
    pub open spec fn wf(self) -> bool {
        ||| self.mantissa == 0 && self.exponent == 0
        ||| MANTISSA_MIN <= self.mantissa < MANTISSA_END
    }

    /// This number times `2^k`.
    pub open spec fn shifted(self, k: int) -> Binary {
        if self.mantissa == 0 {
            self
        } else {
            Binary { mantissa: self.mantissa, exponent: self.exponent + k }
        }
    }
}

/// The integer nearest to `p / q`; of two that are equally near, the even one.
pub open spec fn round_even(p: nat, q: nat) -> nat {
    let low = p / q;
    let rest = p % q;
    if 2 * rest < q || (2 * rest == q && low % 2 == 0) { low } else { low + 1 }
}

/// The integer nearest to `p / q`; of two that are equally near, the greater one.
pub open spec fn round_up(p: nat, q: nat) -> nat {
    let low = p / q;
    if 2 * (p % q) < q { low } else { low + 1 }
}

/// The double nearest to `p / q`: the quotient is scaled by two until its integral part has
/// 53 bits, and rounded there.
pub open spec fn nearest(p: nat, q: nat) -> Binary
    decreases
        if p < MANTISSA_MIN * q {
            MANTISSA_MIN * q - p
        } else if p >= MANTISSA_END * q {
            p - MANTISSA_END * q + 1
        } else {
            0
        },
{
    if p == 0 || q == 0 {
        Binary { mantissa: 0, exponent: 0 }
    } else if p < MANTISSA_MIN * q {
        nearest(2 * p, q).shifted(-1)
    } else if p >= MANTISSA_END * q {
        nearest(p, 2 * q).shifted(1)
    } else {
        let m = round_even(p, q);
        if m == MANTISSA_END {
            Binary { mantissa: MANTISSA_MIN as nat, exponent: 1 }
        } else {
            Binary { mantissa: m, exponent: 0 }
        }
    }
}

impl Binary {
    /// The numerator of this number as a quotient of whole numbers.
    pub open spec fn num(self) -> nat {
        if self.exponent >= 0 { self.mantissa * pow2(self.exponent as nat) } else { self.mantissa }
    }

    /// The denominator of this number as a quotient of whole numbers.
    pub open spec fn den(self) -> nat {
        if self.exponent >= 0 { 1 } else { pow2(-self.exponent as nat) }
    }

    /// The double nearest to this number divided by `k`.
    pub open spec fn over(self, k: nat) -> Binary {
        nearest(self.mantissa, k).shifted(self.exponent)
    }

    /// The double nearest to this number times `k`.
    pub open spec fn times(self, k: nat) -> Binary {
        nearest(self.mantissa * k, 1).shifted(self.exponent)
    }

    /// The double nearest to the sum of this number and `other`.
    pub open spec fn plus(self, other: Binary) -> Binary {
        if self.mantissa == 0 {
            other
        } else if other.mantissa == 0 {
            self
        } else if self.exponent >= other.exponent {
            nearest(
                self.mantissa * pow2((self.exponent - other.exponent) as nat) + other.mantissa,
                1,
            ).shifted(other.exponent)
        } else {
            nearest(
                other.mantissa * pow2((other.exponent - self.exponent) as nat) + self.mantissa,
                1,
            ).shifted(self.exponent)
        }
    }
}

fn round_even_exec(p: u128, q: u128) -> (r: u128)
    requires
        0 < q < 0x8000_0000_0000_0000_0000_0000_0000_0000,
    ensures
        r == round_even(p as nat, q as nat),
{
    let low: u128 = p / q;
    let rest: u128 = p % q;
    if 2 * rest < q || (2 * rest == q && low % 2 == 0) {
        low
    } else {
        proof {
            if low == u128::MAX {
                assert(p == low * q + rest) by {
                    vstd::arithmetic::div_mod::lemma_fundamental_div_mod(p as int, q as int);
                    vstd::arithmetic::mul::lemma_mul_is_commutative(low as int, q as int);
                }
                assert(low * q >= low) by (nonlinear_arith)
                    requires
                        q >= 1,
                ;
                assert(rest == 0);
            }
        }
        low + 1
    }
}

proof fn lemma_nearest_wf(p: nat, q: nat)
    ensures
        nearest(p, q).wf(),
        p > 0 && q > 0 ==> nearest(p, q).mantissa > 0,
    decreases
        if p < MANTISSA_MIN * q {
            MANTISSA_MIN * q - p
        } else if p >= MANTISSA_END * q {
            p - MANTISSA_END * q + 1
        } else {
            0
        },
{
    if p == 0 || q == 0 {
    } else if p < MANTISSA_MIN * q {
        lemma_nearest_wf(2 * p, q);
    } else if p >= MANTISSA_END * q {
        lemma_nearest_wf(p, 2 * q);
    } else {
        lemma_quotient_bounds(p, q);
    }
}

proof fn lemma_quotient_bounds(p: nat, q: nat)
    requires
        q > 0,
        MANTISSA_MIN * q <= p < MANTISSA_END * q,
    ensures
        MANTISSA_MIN <= p / q < MANTISSA_END,
{
    vstd::arithmetic::div_mod::lemma_fundamental_div_mod(p as int, q as int);
    let f = (p / q) as int;
    assert(f < MANTISSA_END) by (nonlinear_arith)
        requires
            p == q * f + p % q,
            0 <= p % q,
            p < MANTISSA_END * q,
            q > 0,
    ;
    assert(f >= MANTISSA_MIN) by (nonlinear_arith)
        requires
            p == q * f + p % q,
            p % q < q,
            p >= MANTISSA_MIN * q,
            q > 0,
    ;
}

/// The double nearest to `p / q`.
fn nearest_exec(p: u128, q: u128) -> (d: Double)
    requires
        p < 0x1000_0000_0000_0000_0000_0000_0000_0000,
        0 < q <= 0x1_0000_0000_0000_0000,
    ensures
        d@ == nearest(p as nat, q as nat),
        d@.wf(),
        -124 <= d@.exponent <= 125,
        d@.exponent >= 2 ==> MANTISSA_MIN * (q * pow2((d@.exponent - 1) as nat)) <= p,
{
    if p == 0 {
        return Double { mantissa: 0, exponent: 0 };
    }
    let mut num: u128 = p;
    let mut den: u128 = q;
    let mut shift: i32 = 0;
    proof {
        vstd::arithmetic::power2::lemma2_to64();
        vstd::arithmetic::power2::lemma2_to64_rest();
        vstd::arithmetic::power2::lemma_pow2_adds(64, 60);
        assert(pow2(124) == 0x1000_0000_0000_0000_0000_0000_0000_0000);
        assert(p * pow2(0) == p && q * pow2(0) == q);
    }
    while num < MANTISSA_MIN as u128 * den
        invariant
            0 < num < 0x1000_0000_0000_0000_0000_0000_0000_0000,
            0 < den == q <= 0x1_0000_0000_0000_0000,
            -124 <= shift <= 0,
            num == p * pow2(-shift as nat),
            shift == 0 || num < MANTISSA_END * den,
            p > 0,
            pow2(124) == 0x1000_0000_0000_0000_0000_0000_0000_0000,
            nearest(p as nat, q as nat) == nearest(num as nat, den as nat).shifted(shift as int),
        decreases if num < MANTISSA_MIN * den { MANTISSA_MIN * den - num } else { 0 },
    {
        proof {
            vstd::arithmetic::power2::lemma_pow2_unfold((1 - shift) as nat);
            assert(2 * (p * pow2(-shift as nat)) == p * (2 * pow2(-shift as nat)))
                by (nonlinear_arith);
            lemma_exponent_bound(p as nat, (1 - shift) as nat, 124);
        }
        num = 2 * num;
        shift = shift - 1;
    }
    let ghost up = shift;
    while num >= MANTISSA_END as u128 * den
        invariant
            0 < num < 0x1000_0000_0000_0000_0000_0000_0000_0000,
            0 < den,
            MANTISSA_MIN * den <= num,
            up == 0 ==> num == p,
            -124 <= up <= 0,
            up <= shift <= up + 124,
            shift > up ==> up == 0,
            num < MANTISSA_END * den || up == 0,
            den == q * pow2((shift - up) as nat),
            q > 0,
            pow2(124) == 0x1000_0000_0000_0000_0000_0000_0000_0000,
            nearest(p as nat, q as nat) == nearest(num as nat, den as nat).shifted(shift as int),
        decreases if num >= MANTISSA_END * den { num - MANTISSA_END * den + 1 } else { 0 },
    {
        proof {
            vstd::arithmetic::power2::lemma_pow2_unfold((shift - up + 1) as nat);
            assert(2 * (q * pow2((shift - up) as nat)) == q * (2 * pow2((shift - up) as nat)))
                by (nonlinear_arith);
            lemma_exponent_bound(q as nat, (shift - up + 1) as nat, 124);
        }
        den = 2 * den;
        shift = shift + 1;
    }
    proof {
        lemma_quotient_bounds(num as nat, den as nat);
    }
    proof {
        if shift >= 1 {
            let unit = pow2(shift as nat);
            let less = pow2((shift - 1) as nat);
            vstd::arithmetic::power2::lemma_pow2_strictly_increases((shift - 1) as nat, shift as nat);
            assert(MANTISSA_MIN * (q * less) <= MANTISSA_MIN * (q * unit)) by (nonlinear_arith)
                requires
                    less <= unit,
            ;
        }
    }
    let m: u64 = round_even_exec(num, den) as u64;
    if m == MANTISSA_END {
        Double { mantissa: MANTISSA_MIN, exponent: shift + 1 }
    } else {
        Double { mantissa: m, exponent: shift }
    }
}

proof fn lemma_exponent_bound(p: nat, k: nat, limit: nat)
    requires
        p > 0,
        p * pow2(k) < pow2(limit),
    ensures
        k < limit,
{
    if k >= limit {
        if k > limit {
            vstd::arithmetic::power2::lemma_pow2_strictly_increases(limit, k);
        }
        assert(p * pow2(k) >= pow2(k)) by (nonlinear_arith)
            requires
                p >= 1,
        ;
    }
}

fn power_of_two(k: i32) -> (r: u128)
    requires
        0 <= k <= 120,
    ensures
        r == pow2(k as nat),
        0 < r <= 0x100_0000_0000_0000_0000_0000_0000_0000,
{
    let mut r: u128 = 1;
    let mut i: i32 = 0;
    proof {
        vstd::arithmetic::power2::lemma2_to64();
        vstd::arithmetic::power2::lemma2_to64_rest();
        vstd::arithmetic::power2::lemma_pow2_adds(60, 60);
    }
    while i < k
        invariant
            0 <= i <= k <= 120,
            r == pow2(i as nat),
            pow2(120) == 0x100_0000_0000_0000_0000_0000_0000_0000,
        decreases k - i,
    {
        proof {
            vstd::arithmetic::power2::lemma_pow2_unfold((i + 1) as nat);
            if i + 1 < 120 {
                vstd::arithmetic::power2::lemma_pow2_strictly_increases((i + 1) as nat, 120);
            }
        }
        r = 2 * r;
        i = i + 1;
    }
    proof {
        vstd::arithmetic::power2::lemma_pow2_pos(k as nat);
        if k < 120 {
            vstd::arithmetic::power2::lemma_pow2_strictly_increases(k as nat, 120);
        }
    }
    r
}

proof fn lemma_scale_down(p: nat, q: nat, k: nat)
    requires
        q > 0,
        k > 0 ==> p >= MANTISSA_END * (q * pow2((k - 1) as nat)),
    ensures
        nearest(p, q) == nearest(p, q * pow2(k)).shifted(k as int),
    decreases k,
{
    vstd::arithmetic::power2::lemma2_to64();
    vstd::arithmetic::power2::lemma2_to64_rest();
    if k == 0 {
        assert(q * pow2(0) == q);
        lemma_nearest_wf(p, q);
    } else {
        if k >= 2 {
            vstd::arithmetic::power2::lemma_pow2_unfold((k - 1) as nat);
            vstd::arithmetic::power2::lemma_pow2_pos((k - 2) as nat);
            assert(MANTISSA_END * (q * (2 * pow2((k - 2) as nat))) >= MANTISSA_END * (q * pow2(
                (k - 2) as nat,
            ))) by (nonlinear_arith);
        }
        lemma_scale_down(p, q, (k - 1) as nat);
        vstd::arithmetic::power2::lemma_pow2_unfold(k);
        vstd::arithmetic::power2::lemma_pow2_pos((k - 1) as nat);
        let near = q * pow2((k - 1) as nat);
        assert(near > 0) by (nonlinear_arith)
            requires
                near == q * pow2((k - 1) as nat),
                q > 0,
                pow2((k - 1) as nat) > 0,
        ;
        assert(q * (2 * pow2((k - 1) as nat)) == 2 * near) by (nonlinear_arith)
            requires
                near == q * pow2((k - 1) as nat),
        ;
        assert(nearest(p, near) == nearest(p, 2 * near).shifted(1));
    }
}

/// Adding less than half a unit in the last place changes nothing.
proof fn lemma_small_addend(m: nat, gap: nat, small: nat)
    requires
        MANTISSA_MIN <= m < MANTISSA_END,
        gap >= 54,
        small < MANTISSA_END,
    ensures
        nearest(m * pow2(gap) + small, 1) == (Binary { mantissa: m, exponent: gap as int }),
{
    vstd::arithmetic::power2::lemma2_to64();
    vstd::arithmetic::power2::lemma2_to64_rest();
    let q = pow2(gap);
    let p = m * q + small;
    if gap > 54 {
        vstd::arithmetic::power2::lemma_pow2_strictly_increases(54, gap);
    }
    vstd::arithmetic::power2::lemma_pow2_unfold(gap);
    let half = pow2((gap - 1) as nat);
    assert(m * q >= MANTISSA_MIN * q) by (nonlinear_arith)
        requires
            m >= MANTISSA_MIN,
    ;
    assert(m * q + q <= MANTISSA_END * q) by (nonlinear_arith)
        requires
            m + 1 <= MANTISSA_END,
    ;
    assert(1 * half == half && 1 * q == q);
    lemma_scale_down(p, 1, gap);
    vstd::arithmetic::div_mod::lemma_fundamental_div_mod_converse(
        p as int,
        q as int,
        m as int,
        small as int,
    );
}

/// A quotient `j * 2^(t - b)` that is a whole number with a `j` of at most 53 bits is not
/// changed by rounding: `2^60` times the double is `2^60` times the quotient.
pub proof fn lemma_exact(j: nat, t: nat, b: nat, c: nat)
    requires
        0 < j < MANTISSA_END,
        b <= t,
        c <= 52,
        j * pow2(t) * pow2(c) >= MANTISSA_MIN * pow2(b),
    ensures
        ({
            let d = nearest(j * pow2(t), pow2(b));
            &&& d.wf()
            &&& d.mantissa > 0
            &&& d.exponent >= -c
            &&& d.mantissa * pow2((60 + d.exponent) as nat) * pow2(b) == j * pow2(t) * pow2(60)
        }),
    decreases
        if j * pow2(t) < MANTISSA_MIN * pow2(b) {
            MANTISSA_MIN * pow2(b) - j * pow2(t)
        } else if j * pow2(t) >= MANTISSA_END * pow2(b) {
            j * pow2(t) - MANTISSA_END * pow2(b) + 1
        } else {
            0
        },
{
    let p = j * pow2(t);
    let q = pow2(b);
    let d = nearest(p, q);
    vstd::arithmetic::power2::lemma_pow2_pos(t);
    vstd::arithmetic::power2::lemma_pow2_pos(b);
    lemma_nearest_wf(p, q);
    assert(p > 0) by (nonlinear_arith)
        requires
            p == j * pow2(t),
            j > 0,
            pow2(t) > 0,
    ;
    if p < MANTISSA_MIN * q {
        vstd::arithmetic::power2::lemma2_to64();
        assert(c > 0) by {
            if c == 0 {
                assert(p * pow2(0) == p);
            }
        }
        vstd::arithmetic::power2::lemma_pow2_unfold(t + 1);
        vstd::arithmetic::power2::lemma_pow2_unfold(c);
        assert(j * pow2(t + 1) == 2 * p) by (nonlinear_arith)
            requires
                p == j * pow2(t),
                pow2(t + 1) == 2 * pow2(t),
        ;
        let less = (c - 1) as nat;
        assert(2 * p * pow2(less) == p * pow2(c)) by (nonlinear_arith)
            requires
                pow2(c) == 2 * pow2(less),
        ;
        lemma_exact(j, t + 1, b, less);
        let next = nearest(2 * p, q);
        let unit = pow2((60 + d.exponent) as nat);
        vstd::arithmetic::power2::lemma_pow2_unfold((60 + next.exponent) as nat);
        assert(d.mantissa * unit * q == p * pow2(60)) by (nonlinear_arith)
            requires
                d.mantissa * (2 * unit) * q == 2 * p * pow2(60),
        ;
    } else if p >= MANTISSA_END * q {
        assert(t > b) by {
            if t == b {
                assert(j * q < MANTISSA_END * q) by (nonlinear_arith)
                    requires
                        j < MANTISSA_END,
                        q > 0,
                ;
            }
        }
        vstd::arithmetic::power2::lemma_pow2_unfold(b + 1);
        vstd::arithmetic::power2::lemma_pow2_pos(c);
        assert(p * pow2(c) >= MANTISSA_MIN * (2 * q)) by (nonlinear_arith)
            requires
                p >= MANTISSA_END * q,
                pow2(c) >= 1,
        ;
        lemma_exact(j, t, b + 1, c);
        let next = nearest(p, 2 * q);
        let unit = pow2((60 + next.exponent) as nat);
        vstd::arithmetic::power2::lemma_pow2_unfold((60 + d.exponent) as nat);
        assert(d.mantissa * (2 * unit) * q == p * pow2(60)) by (nonlinear_arith)
            requires
                d.mantissa * unit * (2 * q) == p * pow2(60),
        ;
    } else {
        let k = (t - b) as nat;
        vstd::arithmetic::power2::lemma_pow2_adds(b, k);
        let whole = j * pow2(k);
        assert(p == q * whole) by (nonlinear_arith)
            requires
                p == j * (q * pow2(k)),
                whole == j * pow2(k),
        ;
        assert(p / q == whole && p % q == 0) by {
            vstd::arithmetic::div_mod::lemma_fundamental_div_mod_converse(
                p as int,
                q as int,
                whole as int,
                0,
            );
        }
        lemma_quotient_bounds(p, q);
        assert(whole * pow2(60) * q == p * pow2(60)) by (nonlinear_arith)
            requires
                p == q * whole,
        ;
    }
}

/// A common factor of numerator and denominator does not matter.
pub proof fn lemma_common_factor(p: nat, q: nat, r: nat)
    requires
        p > 0,
        q > 0,
        r > 0,
    ensures
        nearest(p * r, q * r) == nearest(p, q),
    decreases
        if p < MANTISSA_MIN * q {
            MANTISSA_MIN * q - p
        } else if p >= MANTISSA_END * q {
            p - MANTISSA_END * q + 1
        } else {
            0
        },
{
    assert(p * r > 0 && q * r > 0) by (nonlinear_arith)
        requires
            p > 0,
            q > 0,
            r > 0,
    ;
    assert(p * r < MANTISSA_MIN * (q * r) <==> p < MANTISSA_MIN * q) by (nonlinear_arith)
        requires
            r > 0,
    ;
    assert(p * r >= MANTISSA_END * (q * r) <==> p >= MANTISSA_END * q) by (nonlinear_arith)
        requires
            r > 0,
    ;
    if p < MANTISSA_MIN * q {
        assert(2 * (p * r) == (2 * p) * r) by (nonlinear_arith);
        lemma_common_factor(2 * p, q, r);
    } else if p >= MANTISSA_END * q {
        assert(2 * (q * r) == (2 * q) * r) by (nonlinear_arith);
        lemma_common_factor(p, 2 * q, r);
    } else {
        let low = (p / q) as int;
        let rest = (p % q) as int;
        vstd::arithmetic::div_mod::lemma_fundamental_div_mod(p as int, q as int);
        assert(p * r == (q * r) * low + rest * r) by (nonlinear_arith)
            requires
                p == q * low + rest,
        ;
        assert(0 <= rest * r < q * r) by (nonlinear_arith)
            requires
                0 <= rest < q,
                r > 0,
        ;
        vstd::arithmetic::div_mod::lemma_fundamental_div_mod_converse(
            (p * r) as int,
            (q * r) as int,
            low,
            rest * r,
        );
        assert(2 * (rest * r) < q * r <==> 2 * rest < q) by (nonlinear_arith)
            requires
                r > 0,
        ;
        assert(2 * (rest * r) == q * r <==> 2 * rest == q) by (nonlinear_arith)
            requires
                r > 0,
        ;
    }
}

/// A whole number below `2^53` keeps its value as a double, and stays below `2^53` when the
/// mantissa is read as a whole number.
pub proof fn lemma_whole(x: nat)
    requires
        0 < x < MANTISSA_END,
    ensures
        ({
            let d = nearest(x, 1);
            &&& d.wf()
            &&& -52 <= d.exponent <= 0
            &&& d.mantissa == x * pow2(-d.exponent as nat)
        }),
{
    vstd::arithmetic::power2::lemma2_to64();
    vstd::arithmetic::power2::lemma2_to64_rest();
    assert(x * pow2(0) == x);
    lemma_exact(x, 0, 0, 52);
    let d = nearest(x, 1);
    let unit = pow2((60 + d.exponent) as nat);
    if d.exponent > 0 {
        vstd::arithmetic::power2::lemma_pow2_adds(60, d.exponent as nat);
        vstd::arithmetic::power2::lemma_pow2_strictly_increases(0, d.exponent as nat);
        let more = pow2(d.exponent as nat);
        assert(d.mantissa * more >= MANTISSA_END) by (nonlinear_arith)
            requires
                d.mantissa >= MANTISSA_MIN,
                more >= 2,
        ;
        assert(d.mantissa * more == x) by (nonlinear_arith)
            requires
                d.mantissa * (pow2(60) * more) == x * pow2(60),
                pow2(60) > 0,
        ;
    }
    vstd::arithmetic::power2::lemma_pow2_adds((60 + d.exponent) as nat, -d.exponent as nat);
    vstd::arithmetic::power2::lemma_pow2_pos((60 + d.exponent) as nat);
    let back = pow2(-d.exponent as nat);
    assert(d.mantissa == x * back) by (nonlinear_arith)
        requires
            d.mantissa * unit == x * (unit * back),
            unit > 0,
    ;
}

/// Where `d` is the double nearest to `v * 2^t`, with `0 <= t <= 52` and a `v` below `2^53`,
/// `d` shifted back by `t` is `v`.
pub proof fn lemma_shift_back(v: nat, t: nat)
    requires
        0 < v < MANTISSA_END,
        t <= 52,
    ensures
        ({
            let x = nearest(v * pow2(t), 1).shifted(-t);
            &&& x.num() == v * x.den()
            &&& x.den() > 0
        }),
{
    vstd::arithmetic::power2::lemma2_to64();
    vstd::arithmetic::power2::lemma2_to64_rest();
    vstd::arithmetic::power2::lemma_pow2_pos(t);
    assert(v * pow2(t) * pow2(52) >= MANTISSA_MIN * pow2(0)) by (nonlinear_arith)
        requires
            v >= 1,
            pow2(t) >= 1,
            pow2(52) == MANTISSA_MIN,
            pow2(0) == 1,
    ;
    lemma_exact(v, t, 0, 52);
    let d = nearest(v * pow2(t), 1);
    let x = d.shifted(-t);
    let wide = pow2((60 + d.exponent) as nat);
    vstd::arithmetic::power2::lemma_pow2_pos((60 + d.exponent) as nat);
    assert(d.mantissa * wide == v * (pow2(t) * pow2(60))) by (nonlinear_arith)
        requires
            d.mantissa * wide * 1 == v * pow2(t) * pow2(60),
    ;
    if x.exponent >= 0 {
        let unit = pow2(x.exponent as nat);
        let rest = pow2(60 + t);
        vstd::arithmetic::power2::lemma_pow2_adds(x.exponent as nat, 60 + t);
        vstd::arithmetic::power2::lemma_pow2_adds(t, 60);
        vstd::arithmetic::power2::lemma_pow2_pos(60 + t);
        assert(d.mantissa * unit == v) by (nonlinear_arith)
            requires
                d.mantissa * (unit * rest) == v * (pow2(t) * pow2(60)),
                pow2(t) * pow2(60) == rest,
                rest > 0,
        ;
        assert(v * 1 == v);
        assert(x.num() == d.mantissa * unit);
    } else {
        let den = pow2(-x.exponent as nat);
        vstd::arithmetic::power2::lemma_pow2_pos(-x.exponent as nat);
        vstd::arithmetic::power2::lemma_pow2_adds((60 + d.exponent) as nat, -x.exponent as nat);
        vstd::arithmetic::power2::lemma_pow2_adds(t, 60);
        assert(d.mantissa == v * den) by (nonlinear_arith)
            requires
                d.mantissa * wide == v * (pow2(t) * pow2(60)),
                wide * den == pow2(t) * pow2(60),
                wide > 0,
        ;
    }
}

/// Whether `b` differs from `p / q` by no more than one part in `2^53` of it.
pub open spec fn near(b: Binary, p: nat, q: nat) -> bool {
    let n = b.num() * q;
    let d = p * b.den();
    (n - d) * MANTISSA_END <= d && (d - n) * MANTISSA_END <= d
}

proof fn lemma_near_half(b: Binary, p: nat, q: nat)
    requires
        near(b, 2 * p, q),
    ensures
        near(b.shifted(-1), p, q),
{
    let h = b.shifted(-1);
    if b.mantissa == 0 {
        let d = b.den();
        if b.exponent < 0 {
            vstd::arithmetic::power2::lemma_pow2_pos(-b.exponent as nat);
        }
        assert(b.num() == 0) by {
            if b.exponent >= 0 {
                assert(0 * pow2(b.exponent as nat) == 0);
            }
        }
        assert(p == 0) by (nonlinear_arith)
            requires
                (2 * p * d - 0 * q) * MANTISSA_END <= 2 * p * d,
                d > 0,
                p >= 0,
        ;
        assert(0 * q == 0 && 0 * d == 0);
    } else if b.exponent >= 1 {
        vstd::arithmetic::power2::lemma_pow2_unfold(b.exponent as nat);
        let half = pow2((b.exponent - 1) as nat);
        let m = b.mantissa;
        assert(b.num() * q == 2 * (h.num() * q)) by (nonlinear_arith)
            requires
                b.num() == m * (2 * half),
                h.num() == m * half,
        ;
        assert(b.den() == 1 && h.den() == 1);
        assert((2 * p) * 1 == 2 * p && p * 1 == p);
    } else {
        let k = -b.exponent as nat;
        vstd::arithmetic::power2::lemma_pow2_unfold(k + 1);
        vstd::arithmetic::power2::lemma2_to64();
        assert(h.den() == 2 * b.den());
        assert(h.num() == b.num()) by {
            if b.exponent == 0 {
                assert(b.mantissa * 1 == b.mantissa);
            }
        }
        assert(p * h.den() == (2 * p) * b.den()) by (nonlinear_arith)
            requires
                h.den() == 2 * b.den(),
        ;
        assert(h.num() * q == b.num() * q);
    }
}

proof fn lemma_near_double(b: Binary, p: nat, q: nat)
    requires
        near(b, p, 2 * q),
    ensures
        near(b.shifted(1), p, q),
{
    let h = b.shifted(1);
    if b.mantissa == 0 {
        assert(b.num() == 0) by {
            if b.exponent >= 0 {
                assert(0 * pow2(b.exponent as nat) == 0);
            }
        }
        assert(0 * (2 * q) == 0 && 0 * q == 0);
    } else if b.exponent >= 0 {
        vstd::arithmetic::power2::lemma_pow2_unfold((b.exponent + 1) as nat);
        let unit = pow2(b.exponent as nat);
        let m = b.mantissa;
        assert(h.num() * q == b.num() * (2 * q)) by (nonlinear_arith)
            requires
                b.num() == m * unit,
                h.num() == m * (2 * unit),
        ;
    } else {
        let k = -b.exponent as nat;
        vstd::arithmetic::power2::lemma_pow2_unfold(k);
        vstd::arithmetic::power2::lemma2_to64();
        assert(b.den() == 2 * h.den());
        assert(h.num() == b.num()) by {
            if h.exponent == 0 {
                assert(b.mantissa * 1 == b.mantissa);
            }
        }
        assert(b.num() * (2 * q) == 2 * (h.num() * q) && p * b.den() == 2 * (p * h.den()))
            by (nonlinear_arith)
            requires
                h.num() == b.num(),
                b.den() == 2 * h.den(),
        ;
    }
}

/// Rounding changes a quotient by no more than one part in `2^53`.
pub proof fn lemma_nearest_is_near(p: nat, q: nat)
    requires
        q > 0,
    ensures
        near(nearest(p, q), p, q),
    decreases
        if p < MANTISSA_MIN * q {
            MANTISSA_MIN * q - p
        } else if p >= MANTISSA_END * q {
            p - MANTISSA_END * q + 1
        } else {
            0
        },
{
    vstd::arithmetic::power2::lemma2_to64();
    if p == 0 {
        assert(0 * pow2(0) == 0);
        assert(0 * q == 0);
    } else if p < MANTISSA_MIN * q {
        lemma_nearest_is_near(2 * p, q);
        lemma_near_half(nearest(2 * p, q), p, q);
    } else if p >= MANTISSA_END * q {
        lemma_nearest_is_near(p, 2 * q);
        lemma_near_double(nearest(p, 2 * q), p, q);
    } else {
        let m = round_even(p, q);
        let b = nearest(p, q);
        let low = p / q;
        let rest = p % q;
        vstd::arithmetic::div_mod::lemma_fundamental_div_mod(p as int, q as int);
        assert(b.num() == m && b.den() == 1) by {
            assert(MANTISSA_MIN * 2 == MANTISSA_END);
            assert(m * 1 == m);
        }
        assert(2 * (m * q - p) <= q && 2 * (p - m * q) <= q) by (nonlinear_arith)
            requires
                p == q * low + rest,
                0 <= rest < q,
                (m == low && 2 * rest <= q) || (m == low + 1 && 2 * rest >= q),
        ;
    }
}

/// Scaling by a power of two changes nothing of how near a number is.
pub proof fn lemma_near_shifted_back(b: Binary, p: nat, q: nat, t: nat)
    requires
        near(b, p * pow2(t), q),
    ensures
        near(b.shifted(-(t as int)), p, q),
    decreases t,
{
    vstd::arithmetic::power2::lemma2_to64();
    if t == 0 {
        assert(p * 1 == p);
    } else {
        vstd::arithmetic::power2::lemma_pow2_unfold(t);
        let less = pow2((t - 1) as nat);
        assert(p * pow2(t) == 2 * (p * less)) by (nonlinear_arith)
            requires
                pow2(t) == 2 * less,
        ;
        lemma_near_half(b, p * less, q);
        lemma_near_shifted_back(b.shifted(-1), p, q, (t - 1) as nat);
    }
}

proof fn lemma_near_doubled(b: Binary, p: nat, q: nat)
    requires
        near(b, p, q),
    ensures
        near(b, 2 * p, 2 * q),
{
    assert(b.num() * (2 * q) == 2 * (b.num() * q) && (2 * p) * b.den() == 2 * (p * b.den()))
        by (nonlinear_arith);
}

/// A number that is divided by a power of two is as near to the quotient divided by it.
proof fn lemma_near_scaled_down(b: Binary, p: nat, q: nat, t: nat)
    requires
        near(b, p, q),
    ensures
        near(b.shifted(-(t as int)), p, q * pow2(t)),
    decreases t,
{
    vstd::arithmetic::power2::lemma2_to64();
    if t == 0 {
        assert(q * 1 == q);
    } else {
        vstd::arithmetic::power2::lemma_pow2_unfold(t);
        let less = pow2((t - 1) as nat);
        lemma_near_doubled(b, p, q);
        lemma_near_half(b, p, 2 * q);
        lemma_near_scaled_down(b.shifted(-1), p, 2 * q, (t - 1) as nat);
        assert((2 * q) * less == q * (2 * less)) by (nonlinear_arith);
    }
}

/// A number that is multiplied by a power of two is as near to the quotient multiplied by it.
proof fn lemma_near_scaled_up(b: Binary, p: nat, q: nat, t: nat)
    requires
        near(b, p, q),
    ensures
        near(b.shifted(t as int), p * pow2(t), q),
    decreases t,
{
    vstd::arithmetic::power2::lemma2_to64();
    if t == 0 {
        assert(p * 1 == p);
    } else {
        vstd::arithmetic::power2::lemma_pow2_unfold(t);
        let less = pow2((t - 1) as nat);
        lemma_near_doubled(b, p, q);
        lemma_near_double(b, 2 * p, q);
        lemma_near_scaled_up(b.shifted(1), 2 * p, q, (t - 1) as nat);
        assert((2 * p) * less == p * (2 * less)) by (nonlinear_arith);
    }
}

/// A product in double precision is near to the product.
pub(crate) proof fn lemma_times_is_near(b: Binary, k: nat)
    ensures
        near(b.times(k), b.num() * k, b.den()),
{
    let m = b.mantissa;
    lemma_nearest_is_near(m * k, 1);
    if b.exponent >= 0 {
        let unit = pow2(b.exponent as nat);
        lemma_near_scaled_up(nearest(m * k, 1), m * k, 1, b.exponent as nat);
        assert((m * k) * unit == (m * unit) * k) by (nonlinear_arith);
    } else {
        lemma_near_scaled_down(nearest(m * k, 1), m * k, 1, -b.exponent as nat);
    }
}

/// A proper fraction has its whole mantissa behind the point.
proof fn lemma_fraction_exponent(p: nat, q: nat)
    requires
        0 < p < q < MANTISSA_END,
    ensures
        nearest(p, q).exponent <= -53,
        MANTISSA_MIN <= nearest(p, q).mantissa < MANTISSA_END,
{
    let f = nearest(p, q);
    lemma_nearest_wf(p, q);
    lemma_nearest_is_near(p, q);
    if f.exponent >= -52 {
        vstd::arithmetic::power2::lemma2_to64();
        vstd::arithmetic::power2::lemma2_to64_rest();
        let d = f.den();
        assert(f.num() >= d && d > 0) by {
            if f.exponent >= 0 {
                vstd::arithmetic::power2::lemma_pow2_pos(f.exponent as nat);
                assert(f.mantissa * pow2(f.exponent as nat) >= 1) by (nonlinear_arith)
                    requires
                        f.mantissa >= 1,
                        pow2(f.exponent as nat) >= 1,
                ;
            } else {
                vstd::arithmetic::power2::lemma_pow2_pos(-f.exponent as nat);
                if -f.exponent < 52 {
                    vstd::arithmetic::power2::lemma_pow2_strictly_increases(
                        -f.exponent as nat,
                        52,
                    );
                }
            }
        }
        let n = f.num();
        assert(false) by (nonlinear_arith)
            requires
                (n * q - p * d) * MANTISSA_END <= p * d,
                n >= d,
                d > 0,
                0 < p < q < MANTISSA_END,
        ;
    }
}

/// Whole seconds and a fraction of one add up, in double precision, to a number near the sum
/// of the seconds and the double nearest to the fraction.
pub(crate) proof fn lemma_sum_is_near(whole: nat, p: nat, q: nat)
    requires
        0 < whole < MANTISSA_END,
        0 < p < q < MANTISSA_END,
    ensures
        ({
            let f = nearest(p, q);
            &&& f.exponent < 0
            &&& near(
                nearest(whole, 1).plus(f),
                whole * pow2(-f.exponent as nat) + f.mantissa,
                pow2(-f.exponent as nat),
            )
        }),
{
    let a = nearest(whole, 1);
    let f = nearest(p, q);
    lemma_whole(whole);
    lemma_fraction_exponent(p, q);
    let t = -f.exponent as nat;
    let n = whole * pow2(t) + f.mantissa;
    let gap = (a.exponent - f.exponent) as nat;
    vstd::arithmetic::power2::lemma_pow2_adds(-a.exponent as nat, gap);
    assert(a.mantissa * pow2(gap) == whole * pow2(t)) by (nonlinear_arith)
        requires
            a.mantissa == whole * pow2(-a.exponent as nat),
            pow2(-a.exponent as nat) * pow2(gap) == pow2(t),
    ;
    lemma_nearest_is_near(n, 1);
    lemma_near_scaled_down(nearest(n, 1), n, 1, t);
    assert(1 * pow2(t) == pow2(t));
    lemma_nearest_wf(whole, 1);
}

/// Whether `n1 / d1` differs from `n2 / d2` by no more than `k` parts in `2^53` of it.
pub open spec fn within(n1: int, d1: int, n2: int, d2: int, k: int) -> bool {
    &&& (n1 * d2 - n2 * d1) * MANTISSA_END <= k * (n2 * d1)
    &&& (n2 * d1 - n1 * d2) * MANTISSA_END <= k * (n2 * d1)
}

/// What is near to a number that is within `k` parts of another is within two parts more of it.
pub(crate) proof fn lemma_within_chain(
    n1: int,
    d1: int,
    n2: int,
    d2: int,
    n3: int,
    d3: int,
    k: int,
)
    requires
        within(n1, d1, n2, d2, 1),
        within(n2, d2, n3, d3, k),
        0 <= n1,
        0 <= n2,
        0 <= n3,
        0 < d1,
        0 < d2,
        0 < d3,
        0 <= k <= MANTISSA_END,
    ensures
        within(n1, d1, n3, d3, k + 2),
{
    let e = MANTISSA_END as int;
    let (a, b, c, d) = (n1 * d2, n2 * d1, n2 * d3, n3 * d2);
    // c exceeds d by at most k parts of it, so is at most twice as great.
    assert(c <= 2 * d) by (nonlinear_arith)
        requires
            (c - d) * e <= k * d,
            0 <= d,
            0 <= k <= e,
            0 < e,
    ;
    let (x, y) = (n1 * d3, n3 * d1);
    assert(x * d2 == a * d3 && y * d2 == d * d1 && b * d3 == c * d1) by (nonlinear_arith)
        requires
            x == n1 * d3,
            y == n3 * d1,
            a == n1 * d2,
            d == n3 * d2,
            b == n2 * d1,
            c == n2 * d3,
    ;
    assert((a * d3 - b * d3) * e <= b * d3 && (b * d3 - a * d3) * e <= b * d3) by (nonlinear_arith)
        requires
            (a - b) * e <= 1 * b,
            (b - a) * e <= 1 * b,
            0 < d3,
    ;
    assert((c * d1 - d * d1) * e <= k * (d * d1) && (d * d1 - c * d1) * e <= k * (d * d1))
        by (nonlinear_arith)
        requires
            (c - d) * e <= k * d,
            (d - c) * e <= k * d,
            0 < d1,
    ;
    assert(c * d1 <= 2 * (d * d1)) by (nonlinear_arith)
        requires
            c <= 2 * d,
            0 < d1,
    ;
    let (p, q, r) = (x * d2, y * d2, b * d3);
    assert((p - q) * e <= (k + 2) * q && (q - p) * e <= (k + 2) * q) by (nonlinear_arith)
        requires
            (p - r) * e <= r,
            (r - p) * e <= r,
            (r - q) * e <= k * q,
            (q - r) * e <= k * q,
            r <= 2 * q,
    ;
    assert((x - y) * e <= (k + 2) * y && (y - x) * e <= (k + 2) * y) by (nonlinear_arith)
        requires
            (x * d2 - y * d2) * e <= (k + 2) * (y * d2),
            (y * d2 - x * d2) * e <= (k + 2) * (y * d2),
            0 < d2,
    ;
}

impl Double {
    /// The double nearest to a whole number.
    pub fn from_u64(x: u64) -> (d: Double)
        ensures
            d@ == nearest(x as nat, 1),
            d@.wf(),
            -124 <= d@.exponent <= 12,
    {
        let d = nearest_exec(x as u128, 1);
        proof {
            if d.exponent >= 13 {
                vstd::arithmetic::power2::lemma2_to64();
                if d.exponent > 13 {
                    vstd::arithmetic::power2::lemma_pow2_strictly_increases(
                        12,
                        (d.exponent - 1) as nat,
                    );
                }
            }
        }
        d
    }

    /// The double nearest to `p / q`.
    pub fn from_quotient(p: u32, q: u32) -> (d: Double)
        requires
            q > 0,
        ensures
            d@ == nearest(p as nat, q as nat),
            d@.wf(),
            -124 <= d@.exponent <= 125,
    {
        nearest_exec(p as u128, q as u128)
    }

    /// This number divided by a whole number.
    pub fn over(&self, k: u32) -> (d: Double)
        requires
            self@.wf(),
            -500 <= self@.exponent <= 500,
            k > 0,
        ensures
            d@ == self@.over(k as nat),
            d@.wf(),
            d@.mantissa > 0 ==> self@.exponent - 124 <= d@.exponent <= self@.exponent + 1,
    {
        let d = nearest_exec(self.mantissa as u128, k as u128);
        proof {
            if d.exponent >= 2 {
                vstd::arithmetic::power2::lemma2_to64();
                if d.exponent > 2 {
                    vstd::arithmetic::power2::lemma_pow2_strictly_increases(
                        1,
                        (d.exponent - 1) as nat,
                    );
                }
                assert(k * pow2((d.exponent - 1) as nat) >= 2) by (nonlinear_arith)
                    requires
                        k >= 1,
                        pow2((d.exponent - 1) as nat) >= 2,
                ;
            }
        }
        if d.mantissa == 0 {
            proof {
                lemma_nearest_wf(self@.mantissa, k as nat);
            }
            d
        } else {
            Double { mantissa: d.mantissa, exponent: d.exponent + self.exponent }
        }
    }

    /// This number times a whole number.
    pub fn times(&self, k: u32) -> (d: Double)
        requires
            self@.wf(),
            -500 <= self@.exponent <= 500,
        ensures
            d@ == self@.times(k as nat),
            d@.wf(),
            d@.mantissa > 0 ==> self@.exponent - 124 <= d@.exponent <= self@.exponent + 125,
    {
        assert(self.mantissa as u128 * k as u128 <= 0x20_0000_0000_0000 * 0xffff_ffff)
            by (nonlinear_arith)
            requires
                self.mantissa <= 0x20_0000_0000_0000,
                k <= 0xffff_ffff,
        ;
        let d = nearest_exec(self.mantissa as u128 * k as u128, 1);
        if d.mantissa == 0 {
            d
        } else {
            Double { mantissa: d.mantissa, exponent: d.exponent + self.exponent }
        }
    }

    /// The double nearest to the sum of this number and `other`.
    pub fn plus(&self, other: &Double) -> (d: Double)
        requires
            self@.wf(),
            other@.wf(),
            -500 <= self@.exponent <= 500,
            -500 <= other@.exponent <= 500,
        ensures
            d@ == self@.plus(other@),
            d@.wf(),
            d@.exponent >= if self@.exponent <= other@.exponent { self@.exponent - 124 } else {
                other@.exponent - 124
            },
            d@.exponent <= if self@.exponent <= other@.exponent { other@.exponent + 125 } else {
                self@.exponent + 125
            },
    {
        if self.mantissa == 0 {
            return Double { mantissa: other.mantissa, exponent: other.exponent };
        }
        if other.mantissa == 0 {
            return Double { mantissa: self.mantissa, exponent: self.exponent };
        }
        if self.exponent >= other.exponent {
            Self::sum(self, other)
        } else {
            Self::sum(other, self)
        }
    }

    fn sum(great: &Double, small: &Double) -> (d: Double)
        requires
            great@.wf(),
            small@.wf(),
            great@.mantissa > 0,
            small@.mantissa > 0,
            -500 <= small@.exponent <= great@.exponent <= 500,
        ensures
            d@ == nearest(
                great@.mantissa * pow2((great@.exponent - small@.exponent) as nat)
                    + small@.mantissa,
                1,
            ).shifted(small@.exponent),
            d@.wf(),
            small@.exponent - 124 <= d@.exponent <= great@.exponent + 125,
    {
        let gap: i32 = great.exponent - small.exponent;
        if gap >= 54 {
            proof {
                lemma_small_addend(great@.mantissa, gap as nat, small@.mantissa);
            }
            Double { mantissa: great.mantissa, exponent: great.exponent }
        } else {
            let unit: u128 = power_of_two(gap);
            proof {
                vstd::arithmetic::power2::lemma2_to64();
                vstd::arithmetic::power2::lemma2_to64_rest();
                if gap < 53 {
                    vstd::arithmetic::power2::lemma_pow2_strictly_increases(gap as nat, 53);
                }
            }
            assert(great.mantissa as u128 * unit <= 0x20_0000_0000_0000 * 0x20_0000_0000_0000)
                by (nonlinear_arith)
                requires
                    great.mantissa <= 0x20_0000_0000_0000,
                    unit <= 0x20_0000_0000_0000,
            ;
            let d = nearest_exec(great.mantissa as u128 * unit + small.mantissa as u128, 1);
            proof {
                lemma_nearest_wf(
                    great@.mantissa * pow2(gap as nat) + small@.mantissa,
                    1,
                );
            }
            Double { mantissa: d.mantissa, exponent: d.exponent + small.exponent }
        }
    }

    /// The whole number nearest to this one, a half away from zero, or `usize::MAX` where
    /// that is smaller.
    pub fn to_count(&self) -> (n: usize)
        requires
            self@.wf(),
        ensures
            n == if round_up(self@.num(), self@.den()) <= usize::MAX {
                round_up(self@.num(), self@.den())
            } else {
                usize::MAX as nat
            },
    {
        proof {
            vstd::arithmetic::power2::lemma2_to64();
            vstd::arithmetic::power2::lemma2_to64_rest();
        }
        if self.exponent >= 12 {
            assert(self@.num() > usize::MAX) by {
                if self.exponent > 12 {
                    vstd::arithmetic::power2::lemma_pow2_strictly_increases(
                        12,
                        self.exponent as nat,
                    );
                }
                let unit = pow2(self.exponent as nat);
                assert(self.mantissa * unit >= MANTISSA_MIN * 4096) by (nonlinear_arith)
                    requires
                        self.mantissa >= MANTISSA_MIN,
                        unit >= 4096,
                ;
            }
            usize::MAX
        } else if self.exponent >= 0 {
            let unit: u128 = power_of_two(self.exponent);
            proof {
                vstd::arithmetic::power2::lemma_pow2_strictly_increases(
                    self.exponent as nat,
                    12,
                );
            }
            assert(self.mantissa as u128 * unit <= 0x20_0000_0000_0000 * 4096) by (nonlinear_arith)
                requires
                    self.mantissa <= 0x20_0000_0000_0000,
                    unit <= 4096,
            ;
            let n: u128 = self.mantissa as u128 * unit;
            if n <= usize::MAX as u128 { n as usize } else { usize::MAX }
        } else if self.exponent >= -60 {
            let unit: u128 = power_of_two(-self.exponent);
            let low: u128 = self.mantissa as u128 / unit;
            let n: u128 = if 2 * (self.mantissa as u128 % unit) < unit { low } else { low + 1 };
            if n <= usize::MAX as u128 { n as usize } else { usize::MAX }
        } else {
            proof {
                let unit = pow2(-self.exponent as nat);
                vstd::arithmetic::power2::lemma_pow2_strictly_increases(
                    54,
                    -self.exponent as nat,
                );
                vstd::arithmetic::div_mod::lemma_small_mod(self@.mantissa, unit);
                vstd::arithmetic::div_mod::lemma_basic_div(self@.mantissa as int, unit as int);
            }
            0
        }
    }

    /// This number of seconds in nanoseconds, a half to the even one.
    pub fn to_nanos(&self) -> (n: u128)
        requires
            self@.wf(),
            self@.exponent <= 16,
        ensures
            n == round_even(self@.num() * 1_000_000_000, self@.den()),
            n <= 0x1_0000_0000_0000_0000_0000_0000_0000,
    {
        proof {
            vstd::arithmetic::power2::lemma2_to64();
            vstd::arithmetic::power2::lemma2_to64_rest();
        }
        if self.exponent >= 0 {
            let unit: u128 = power_of_two(self.exponent);
            proof {
                if self.exponent < 16 {
                    vstd::arithmetic::power2::lemma_pow2_strictly_increases(
                        self.exponent as nat,
                        16,
                    );
                }
            }
            assert(self.mantissa as u128 * unit <= 0x20_0000_0000_0000 * 65536) by (nonlinear_arith)
                requires
                    self.mantissa <= 0x20_0000_0000_0000,
                    unit <= 65536,
            ;
            self.mantissa as u128 * unit * 1_000_000_000
        } else if self.exponent >= -120 {
            let unit: u128 = power_of_two(-self.exponent);
            let n: u128 = round_even_exec(self.mantissa as u128 * 1_000_000_000, unit);
            proof {
                let p = self.mantissa * 1_000_000_000;
                let q = unit as int;
                assert(p / q <= p) by (nonlinear_arith)
                    requires
                        p >= 0,
                        q >= 1,
                ;
            }
            n
        } else {
            proof {
                let unit = pow2(-self.exponent as nat);
                vstd::arithmetic::power2::lemma_pow2_adds(60, 60);
                vstd::arithmetic::power2::lemma_pow2_strictly_increases(
                    120,
                    -self.exponent as nat,
                );
                vstd::arithmetic::div_mod::lemma_small_mod(
                    (self@.mantissa * 1_000_000_000) as nat,
                    unit,
                );
                vstd::arithmetic::div_mod::lemma_basic_div(
                    (self@.mantissa * 1_000_000_000) as int,
                    unit as int,
                );
            }
            0
        }
    }
}

/// Both ways of rounding a quotient to a whole number give one that is nearest to it. Of two
/// that are equally near, one way gives the even one, the other the greater one.
pub proof fn law_rounding_goes_to_the_nearest(p: nat, q: nat)
    requires
        q > 0,
    ensures
        ({
            let (even, up) = (round_even(p, q), round_up(p, q));
            &&& -(q as int) <= 2 * (even * q - p) <= q
            &&& -(q as int) < 2 * (up * q - p) <= q
            &&& 2 * (even * q - p) == q || 2 * (p - even * q) == q ==> even % 2 == 0
        }),
{
    let low = p / q;
    vstd::arithmetic::div_mod::lemma_fundamental_div_mod(p as int, q as int);
    assert(low * q == q * low && (low + 1) * q == q * low + q) by (nonlinear_arith);
}

} // verus!
