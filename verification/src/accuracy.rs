//! How far computed numbers are from the exact ones.

use crate::binary64::{self, Binary64};
use crate::bounds::{self, unit};
use crate::order;
use crate::rounding::{self, Exact, TOP};
use vstd::arithmetic::mul::*;
use vstd::arithmetic::power2::*;
use vstd::prelude::*;

verus! {

/// The value of one part in 2^53 of one.
pub open spec fn grain() -> int {
    unit(-53)
}

/// One is 2^53 grains.
pub proof fn lemma_grain()
    ensures
        grain() >= 0x20_0000_0000_0000,
        binary64::one_unit() == 0x20_0000_0000_0000 * grain(),
        unit(0) == binary64::one_unit(),
        unit(1) == 2 * binary64::one_unit(),
        unit(2) == 4 * binary64::one_unit(),
        unit(3) == 8 * binary64::one_unit(),
        unit(-52) == 2 * grain(),
        unit(-51) == 4 * grain(),
        unit(-50) == 8 * grain(),
{
    order::lemma_constants();
    bounds::lemma_unit(-1021, -53);
    bounds::lemma_unit(-53, -53);
    bounds::lemma_unit_doubles(-53);
    bounds::lemma_unit_doubles(-52);
    bounds::lemma_unit_doubles(-51);
    bounds::lemma_unit_doubles(0);
    bounds::lemma_unit_doubles(1);
    bounds::lemma_unit_doubles(2);
    lemma_pow2_adds(53, 1021);
    lemma2_to64_rest();
}

/// What is at most a power of two rounds to something no farther off than 2^53 goes into it.
proof fn lemma_rounded_close(n: int, d: int, e: int)
    requires
        n >= 0,
        d > 0,
        -1021 <= e <= 971,
        n <= unit(e) * d,
    ensures
        ({
            let m = order::rounded(n, d);
            -(unit(e - 53) * d) <= n - m * d <= unit(e - 53) * d
        }),
{
    bounds::lemma_rounded_at_most(n, d, e);
    rounding::lemma_error(n, d);
    let m = order::rounded(n, d);
    let h = unit(e - 53);
    bounds::lemma_unit(e - 53, e);
    lemma_pow2_adds(53, (e - 53 + 1074) as nat);
    lemma2_to64_rest();
    assert(unit(e) == TOP * h);
    let x = n - m * d;
    if -d <= 2 * x <= d {
        assert(d <= h * d) by (nonlinear_arith)
            requires
                h >= 1,
                d > 0,
        ;
    } else {
        assert(m * d <= (TOP * h) * d) by (nonlinear_arith)
            requires
                m <= TOP * h,
                d > 0,
        ;
        assert((TOP * h) * d == TOP * (h * d)) by (nonlinear_arith);
    }
}

/// A sum that is at most a power of two is off by at most one part in 2^53 of that power.
pub proof fn lemma_plus_close(a: Binary64, b: Binary64, e: int)
    requires
        a.finite(),
        b.finite(),
        -1021 <= e <= 971,
        -unit(e) <= a.value() + b.value() <= unit(e),
    ensures
        a.plus(b).finite(),
        -unit(e) <= a.plus(b).value() <= unit(e),
        -unit(e - 53) <= a.plus(b).value() - (a.value() + b.value()) <= unit(e - 53),
{
    let n = a.value() + b.value();
    order::lemma_plus(a, b);
    bounds::lemma_sum_within(a, b, e);
    if n < 0 {
        lemma_rounded_close(-n, 1, e);
        rounding::lemma_nearest_is(Exact::Ratio { n: -n, d: 1 });
    } else {
        lemma_rounded_close(n, 1, e);
    }
    lemma_mul_basics(unit(e));
}

pub proof fn lemma_minus_close(a: Binary64, b: Binary64, e: int)
    requires
        a.finite(),
        b.finite(),
        -1021 <= e <= 971,
        -unit(e) <= a.value() - b.value() <= unit(e),
    ensures
        a.minus(b).finite(),
        -unit(e) <= a.minus(b).value() <= unit(e),
        -unit(e - 53) <= a.minus(b).value() - (a.value() - b.value()) <= unit(e - 53),
{
    order::lemma_negated(b);
    lemma_plus_close(a, b.negated(), e);
}

/// A product of numbers that are not negative, at most a power of two, is off by at most one part in
/// 2^53 of that power.
pub proof fn lemma_times_close(a: Binary64, b: Binary64, e: int)
    requires
        a.finite(),
        b.finite(),
        a.value() >= 0,
        b.value() >= 0,
        -1021 <= e <= 971,
        a.value() * b.value() <= unit(e) * binary64::one_unit(),
    ensures
        a.times(b).finite(),
        0 <= a.times(b).value() <= unit(e),
        ({
            let x = a.times(b).value() * binary64::one_unit() - a.value() * b.value();
            -(unit(e - 53) * binary64::one_unit()) <= x <= unit(e - 53) * binary64::one_unit()
        }),
{
    let u = binary64::one_unit();
    order::lemma_constants();
    order::lemma_times(a, b);
    lemma_mul_nonnegative(a.value(), b.value());
    lemma_rounded_close(a.value() * b.value(), u, e);
    bounds::lemma_rounded_at_most(a.value() * b.value(), u, e);
    bounds::lemma_stays_finite(a.times(b), e);
}

/// A quotient of a number that is not negative, at most a power of two, is off by at most one part in
/// 2^53 of that power.
pub proof fn lemma_over_close(a: Binary64, b: Binary64, e: int)
    requires
        a.finite(),
        b.finite(),
        a.value() >= 0,
        b.value() > 0,
        -1021 <= e <= 971,
        a.value() * binary64::one_unit() <= unit(e) * b.value(),
    ensures
        a.over(b).finite(),
        0 <= a.over(b).value() <= unit(e),
        ({
            let x = a.over(b).value() * b.value() - a.value() * binary64::one_unit();
            -(unit(e - 53) * b.value()) <= x <= unit(e - 53) * b.value()
        }),
{
    let u = binary64::one_unit();
    order::lemma_constants();
    bounds::lemma_over_size(a, b);
    lemma_mul_nonnegative(a.value(), u);
    lemma_rounded_close(a.value() * u, b.value(), e);
    bounds::lemma_rounded_at_most(a.value() * u, b.value(), e);
    bounds::lemma_stays_finite(a.over(b), e);
}

/// The double of a fraction that is at most a power of two is off by at most one part in 2^53 of that
/// power.
pub proof fn lemma_fraction_close(n: int, d: int, e: int)
    requires
        n >= 0,
        d > 0,
        -1021 <= e <= 971,
        n * binary64::one_unit() <= unit(e) * d,
    ensures
        Binary64::fraction(n, d).finite(),
        0 <= Binary64::fraction(n, d).value() <= unit(e),
        ({
            let x = Binary64::fraction(n, d).value() * d - n * binary64::one_unit();
            -(unit(e - 53) * d) <= x <= unit(e - 53) * d
        }),
{
    let u = binary64::one_unit();
    order::lemma_constants();
    order::lemma_fraction(n, d);
    lemma_mul_nonnegative(n, u);
    lemma_rounded_close(n * u, d, e);
    bounds::lemma_rounded_at_most(n * u, d, e);
    bounds::lemma_stays_finite(Binary64::fraction(n, d), e);
}

/// The double of a fraction of at most one is off by at most one grain.
pub proof fn lemma_proper_fraction(n: int, d: int)
    requires
        0 <= n <= d,
        d > 0,
    ensures
        Binary64::fraction(n, d).finite(),
        0 <= Binary64::fraction(n, d).value() <= binary64::one_unit(),
        ({
            let x = Binary64::fraction(n, d).value() * d - n * binary64::one_unit();
            -(grain() * d) <= x <= grain() * d
        }),
{
    lemma_grain();
    assert(n * binary64::one_unit() <= binary64::one_unit() * d) by (nonlinear_arith)
        requires
            0 <= n <= d,
            binary64::one_unit() > 0,
    ;
    lemma_fraction_close(n, d, 0);
}

/// A product of numbers in the unit interval is off by at most one grain.
pub proof fn lemma_share_of(a: Binary64, b: Binary64)
    requires
        a.finite(),
        b.finite(),
        0 <= a.value() <= binary64::one_unit(),
        0 <= b.value() <= binary64::one_unit(),
    ensures
        a.times(b).finite(),
        0 <= a.times(b).value() <= binary64::one_unit(),
        ({
            let x = a.times(b).value() * binary64::one_unit() - a.value() * b.value();
            -(grain() * binary64::one_unit()) <= x <= grain() * binary64::one_unit()
        }),
{
    let u = binary64::one_unit();
    lemma_grain();
    assert(a.value() * b.value() <= u * u) by (nonlinear_arith)
        requires
            0 <= a.value() <= u,
            0 <= b.value() <= u,
    ;
    lemma_times_close(a, b, 0);
}

/// Clamping brings a number no farther from one in the unit interval.
pub proof fn lemma_clamped_close(x: Binary64, exact: int, off: int)
    requires
        !x.nan(),
        0 <= exact <= binary64::one_unit(),
        -off <= x.value() - exact <= off,
    ensures
        x.clamped().finite(),
        0 <= x.clamped().value() <= binary64::one_unit(),
        -off <= x.clamped().value() - exact <= off,
{
    order::lemma_constants();
    order::lemma_clamped(x);
}

/// A product with a rounded fraction, against the exact one.
pub proof fn lemma_scaled(x: int, b: int, f: int, n: int, d: int, off: int, off_b: int)
    requires
        d > 0,
        0 <= f <= binary64::one_unit(),
        off_b >= 0,
        -(off * binary64::one_unit()) <= x * binary64::one_unit() - b * f <= off * binary64::one_unit(),
        -(off_b * d) <= b * d - n * binary64::one_unit() <= off_b * d,
    ensures
        -((off + off_b) * d) <= x * d - n * f <= (off + off_b) * d,
{
    let u = binary64::one_unit();
    order::lemma_constants();
    assert(off_b * d >= 0) by (nonlinear_arith)
        requires
            off_b >= 0,
            d > 0,
    ;
    let p = x * u - b * f;
    let q = b * d - n * u;
    let r = x * d - n * f;
    assert(r * u == p * d + q * f) by (nonlinear_arith)
        requires
            p == x * u - b * f,
            q == b * d - n * u,
            r == x * d - n * f,
    ;
    assert(-(off * u * d) <= p * d <= off * u * d) by (nonlinear_arith)
        requires
            -(off * u) <= p <= off * u,
            d > 0,
    ;
    assert(-(off_b * d * u) <= q * f <= off_b * d * u) by (nonlinear_arith)
        requires
            -(off_b * d) <= q <= off_b * d,
            0 <= f <= u,
            off_b * d >= 0,
    ;
    let t = (off + off_b) * d;
    assert(t * u == off * u * d + off_b * d * u) by (nonlinear_arith)
        requires
            t == (off + off_b) * d,
    ;
    assert(-t <= r <= t) by (nonlinear_arith)
        requires
            -(t * u) <= r * u <= t * u,
            u > 0,
    ;
}

/// A product with a rounded fraction, against the exact one, for numbers up to four.
pub proof fn lemma_scaled_wide(x: int, b: int, f: int, n: int, d: int, off: int, off_b: int)
    requires
        d > 0,
        0 <= f <= 4 * binary64::one_unit(),
        off_b >= 0,
        -(off * binary64::one_unit()) <= x * binary64::one_unit() - b * f <= off * binary64::one_unit(),
        -(off_b * d) <= b * d - n * binary64::one_unit() <= off_b * d,
    ensures
        -((off + 4 * off_b) * d) <= x * d - n * f <= (off + 4 * off_b) * d,
{
    let u = binary64::one_unit();
    order::lemma_constants();
    let w = off_b * d;
    assert(w >= 0) by (nonlinear_arith)
        requires
            w == off_b * d,
            off_b >= 0,
            d > 0,
    ;
    let p = x * u - b * f;
    let q = b * d - n * u;
    let r = x * d - n * f;
    assert(r * u == p * d + q * f) by (nonlinear_arith)
        requires
            p == x * u - b * f,
            q == b * d - n * u,
            r == x * d - n * f,
    ;
    assert(-(off * u * d) <= p * d <= off * u * d) by (nonlinear_arith)
        requires
            -(off * u) <= p <= off * u,
            d > 0,
    ;
    assert(-(w * (4 * u)) <= q * f <= w * (4 * u)) by (nonlinear_arith)
        requires
            -w <= q <= w,
            0 <= f <= 4 * u,
            w >= 0,
    ;
    let t = (off + 4 * off_b) * d;
    assert(t * u == off * u * d + w * (4 * u)) by (nonlinear_arith)
        requires
            t == (off + 4 * off_b) * d,
            w == off_b * d,
    ;
    assert(-t <= r <= t) by (nonlinear_arith)
        requires
            -(t * u) <= r * u <= t * u,
            u > 0,
    ;
}

/// One more term: a sum of `n` terms that are not negative is off by at most two parts in 2^53 for each.
pub proof fn lemma_running_sum(sum: Binary64, x: Binary64, s: int, n: int)
    requires
        sum.finite(),
        x.finite(),
        x.value() >= 0,
        0 <= s,
        s + x.value() <= unit(900),
        0 <= n <= u32::MAX,
        0 <= sum.value() <= 2 * s,
        -(2 * (n * s)) <= (sum.value() - s) * 0x20_0000_0000_0000 <= 2 * (n * s),
    ensures
        ({
            let r = sum.plus(x);
            let t = s + x.value();
            &&& r.finite()
            &&& sum.value() <= r.value()
            &&& x.value() <= r.value()
            &&& 0 <= r.value() <= 2 * t
            &&& -(2 * ((n + 1) * t)) <= (r.value() - t) * 0x20_0000_0000_0000 <= 2 * ((n + 1) * t)
        }),
{
    let t = s + x.value();
    order::lemma_constants();
    assert(0 <= n * s <= 0xffff_ffff * s) by (nonlinear_arith)
        requires
            0 <= n <= 0xffff_ffff,
            0 <= s,
    ;
    bounds::lemma_unit(900, 901);
    bounds::lemma_unit_doubles(900);
    lemma_plus_close(sum, x, 901);
    order::lemma_plus_error(sum, x);
    order::lemma_plus(sum, x);
    order::lemma_rounded_exact(sum, 1);
    order::lemma_rounded_exact(x, 1);
    order::lemma_rounded_grows(sum.value(), 1, sum.value() + x.value(), 1);
    order::lemma_rounded_grows(x.value(), 1, sum.value() + x.value(), 1);
    assert((n + 1) * t == n * s + n * x.value() + t) by (nonlinear_arith)
        requires
            t == s + x.value(),
    ;
    assert(n * x.value() >= 0) by (nonlinear_arith)
        requires
            n >= 0,
            x.value() >= 0,
    ;
}

/// The share of a part in a computed total, against the exact one.
pub proof fn lemma_share_of_total(x: Binary64, d: Binary64, t: int, n: int)
    requires
        x.finite(),
        d.finite(),
        0 <= x.value() <= d.value(),
        d.value() > 0,
        0 <= n,
        0 <= t,
        d.value() <= 2 * t,
        -(2 * (n * t)) <= (d.value() - t) * 0x20_0000_0000_0000 <= 2 * (n * t),
    ensures
        x.over(d).finite(),
        0 <= x.over(d).value() <= binary64::one_unit(),
        ({
            let off = x.over(d).value() * t - x.value() * binary64::one_unit();
            let slack = (2 * n + 2) * (grain() * t);
            -slack <= off <= slack
        }),
{
    let u = binary64::one_unit();
    let g = grain();
    let dv = d.value();
    order::lemma_constants();
    lemma_grain();
    assert(x.value() * u <= u * dv) by (nonlinear_arith)
        requires
            x.value() <= dv,
            u > 0,
    ;
    lemma_over_close(x, d, 0);
    let r = x.over(d).value();
    let h = g * t;
    let e = t - dv;
    let b = 2 * (n * t);
    assert(b >= 0) by (nonlinear_arith)
        requires
            b == 2 * (n * t),
            n >= 0,
            t >= 0,
    ;
    assert(-(u * b) <= r * (e * 0x20_0000_0000_0000) <= u * b) by (nonlinear_arith)
        requires
            -b <= e * 0x20_0000_0000_0000 <= b,
            0 <= r <= u,
            b >= 0,
    ;
    assert(r * (e * 0x20_0000_0000_0000) == (r * e) * 0x20_0000_0000_0000) by (nonlinear_arith);
    assert(u * b == 0x20_0000_0000_0000 * (2 * (n * h))) by (nonlinear_arith)
        requires
            u == 0x20_0000_0000_0000 * g,
            b == 2 * (n * t),
            h == g * t,
    ;
    assert(r * t == r * dv + r * e) by (nonlinear_arith)
        requires
            e == t - dv,
    ;
    assert(g * dv <= 2 * h) by (nonlinear_arith)
        requires
            dv <= 2 * t,
            h == g * t,
            g > 0,
    ;
    let slack = (2 * n + 2) * h;
    assert(slack == 2 * (n * h) + 2 * h) by (nonlinear_arith)
        requires
            slack == (2 * n + 2) * h,
    ;
}

} // verus!
