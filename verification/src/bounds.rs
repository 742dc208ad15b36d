//! Powers of two as bounds on doubles: what stays within them stays finite.

use crate::binary64::{self, Binary64};
use crate::order;
use crate::rounding::{self, Exact, HIDDEN, INFINITE, TOP};
use vstd::arithmetic::mul::*;
use vstd::arithmetic::power2::*;
use vstd::prelude::*;

verus! {

/// The value of two to the power `e`, for `e` from -1074 on.
pub open spec fn unit(e: int) -> int {
    pow2((e + 1074) as nat) as int
}

/// A finite number between `-2^e` and `2^e`.
pub open spec fn within(x: Binary64, e: int) -> bool {
    x.finite() && -unit(e) <= x.value() <= unit(e)
}

/// Powers of two are positive, grow with the exponent, and multiply by adding exponents.
pub proof fn lemma_unit(e: int, f: int)
    requires
        -1074 <= e,
        -1074 <= f,
    ensures
        unit(e) > 0,
        e < f ==> unit(e) < unit(f),
        unit(0) == binary64::one_unit(),
        -1074 <= e + f ==> unit(e) * unit(f) == unit(e + f) * binary64::one_unit(),
{
    lemma_pow2_pos((e + 1074) as nat);
    if e < f {
        lemma_pow2_strictly_increases((e + 1074) as nat, (f + 1074) as nat);
    }
    if -1074 <= e + f {
        lemma_pow2_adds((e + 1074) as nat, (f + 1074) as nat);
        lemma_pow2_adds((e + f + 1074) as nat, 1074);
    }
}

pub proof fn lemma_unit_doubles(e: int)
    requires
        -1074 <= e,
    ensures
        unit(e + 1) == 2 * unit(e),
{
    lemma_pow2_unfold((e + 1075) as nat);
}

/// A power of two is the value of a double.
pub proof fn lemma_power_of_two(e: int) -> (x: Binary64)
    requires
        -1074 <= e <= 971,
    ensures
        x.finite(),
        x.value() == unit(e),
{
    let p = rounding::lemma_representable(1, e + 1074);
    order::lemma_of(false, p);
    Binary64::of(false, p)
}

/// Nothing that rounds is more than a power of two where it was not so before.
pub proof fn lemma_rounded_at_most(n: int, d: int, e: int)
    requires
        n >= 0,
        d > 0,
        -1074 <= e <= 971,
        n <= unit(e) * d,
    ensures
        0 <= order::rounded(n, d) <= unit(e),
        (Exact::Ratio { n, d }).nearest() < INFINITE,
{
    let x = lemma_power_of_two(e);
    lemma_unit(e, e);
    lemma_mul_nonnegative(unit(e), d);
    assert(n * d <= (unit(e) * d) * d) by (nonlinear_arith)
        requires
            n <= unit(e) * d,
            d > 0,
    ;
    order::lemma_rounded_grows(n, d, unit(e) * d, d);
    order::lemma_rounded_exact(x, d);
    rounding::lemma_nearest_is(Exact::Ratio { n, d });
    binary64::lemma_magnitude_order((Exact::Ratio { n, d }).nearest(), 0);
    order::lemma_finite_bounds(x);
}

/// Nothing that rounds is less than a power of two where it was not so before.
pub proof fn lemma_rounded_at_least(n: int, d: int, e: int)
    requires
        d > 0,
        -1074 <= e <= 971,
        unit(e) * d <= n,
    ensures
        unit(e) <= order::rounded(n, d),
{
    let x = lemma_power_of_two(e);
    assert((unit(e) * d) * d <= n * d) by (nonlinear_arith)
        requires
            unit(e) * d <= n,
            d > 0,
    ;
    order::lemma_rounded_grows(unit(e) * d, d, n, d);
    order::lemma_rounded_exact(x, d);
}

/// The distance from zero.
pub open spec fn size(x: Binary64) -> int {
    if x.value() < 0 {
        -x.value()
    } else {
        x.value()
    }
}

/// The size of a product is the rounded product of the sizes, and its sign is that of the product.
pub proof fn lemma_times_size(x: Binary64, y: Binary64)
    requires
        x.finite(),
        y.finite(),
    ensures
        !x.times(y).nan(),
        size(x.times(y)) == order::rounded(size(x) * size(y), binary64::one_unit()),
        size(x) * size(y) >= 0,
        x.value() >= 0 && y.value() >= 0 ==> x.times(y).value() >= 0,
        x.value() >= 0 && y.value() <= 0 ==> x.times(y).value() <= 0,
        x.value() <= 0 && y.value() >= 0 ==> x.times(y).value() <= 0,
        x.value() <= 0 && y.value() <= 0 ==> x.times(y).value() >= 0,
{
    reveal(Binary64::times);
    order::lemma_constants();
    order::lemma_value_sign(x);
    order::lemma_value_sign(y);
    lemma_mul_nonnegative(size(x), size(y));
    let e = Exact::Ratio { n: size(x) * size(y), d: binary64::one_unit() };
    rounding::lemma_nearest_is(e);
    order::lemma_of(x.negative() != y.negative(), e.nearest());
    order::lemma_value_sign(x.times(y));
    if size(x) == 0 || size(y) == 0 {
        assert(size(x) * size(y) == 0) by (nonlinear_arith)
            requires
                size(x) == 0 || size(y) == 0,
        ;
        lemma2_to64();
        rounding::lemma_split(0);
        rounding::lemma_nearest_exact(e, 0);
    }
}

/// A product of bounded numbers is bounded.
pub proof fn lemma_times_within(x: Binary64, y: Binary64, a: int, b: int)
    requires
        within(x, a),
        within(y, b),
        -1074 <= a,
        -1074 <= b,
        -1074 <= a + b <= 971,
    ensures
        within(x.times(y), a + b),
{
    let u = binary64::one_unit();
    order::lemma_constants();
    lemma_times_size(x, y);
    lemma_unit(a, b);
    assert(size(x) * size(y) <= unit(a) * unit(b)) by (nonlinear_arith)
        requires
            0 <= size(x) <= unit(a),
            0 <= size(y) <= unit(b),
    ;
    lemma_rounded_at_most(size(x) * size(y), u, a + b);
    lemma_stays_finite(x.times(y), a + b);
}

/// What is no NaN and no larger than a power of two is finite.
pub proof fn lemma_stays_finite(x: Binary64, e: int)
    requires
        !x.nan(),
        -1074 <= e <= 971,
        size(x) <= unit(e),
    ensures
        within(x, e),
{
    let p = lemma_power_of_two(e);
    order::lemma_finite_bounds(x);
    order::lemma_finite_bounds(p);
}

/// The size of a quotient by a positive number is the rounded quotient.
pub proof fn lemma_over_size(x: Binary64, y: Binary64)
    requires
        x.finite(),
        y.finite(),
        y.value() > 0,
    ensures
        !x.over(y).nan(),
        size(x.over(y)) == order::rounded(size(x) * binary64::one_unit(), y.value()),
        x.value() >= 0 ==> x.over(y).value() >= 0,
        x.value() <= 0 ==> x.over(y).value() <= 0,
{
    reveal(Binary64::over);
    order::lemma_constants();
    order::lemma_value_sign(x);
    order::lemma_value_sign(y);
    lemma_mul_nonnegative(size(x), binary64::one_unit());
    let e = Exact::Ratio { n: size(x) * binary64::one_unit(), d: y.value() };
    rounding::lemma_nearest_is(e);
    order::lemma_of(x.negative() != y.negative(), e.nearest());
    order::lemma_value_sign(x.over(y));
    if size(x) == 0 {
        lemma2_to64();
        rounding::lemma_split(0);
        rounding::lemma_nearest_exact(e, 0);
    }
}

/// A quotient of a bounded number by one that is bounded from below is bounded.
pub proof fn lemma_over_within(x: Binary64, y: Binary64, a: int, b: int)
    requires
        within(x, a),
        y.finite(),
        y.value() >= unit(b),
        -1074 <= a,
        -1074 <= b,
        -1074 <= a - b <= 971,
    ensures
        within(x.over(y), a - b),
{
    let u = binary64::one_unit();
    order::lemma_constants();
    lemma_unit(b, b);
    lemma_over_size(x, y);
    lemma_unit(a - b, b);
    assert(size(x) * u <= unit(a) * u) by (nonlinear_arith)
        requires
            size(x) <= unit(a),
            u > 0,
    ;
    assert(unit(a - b) * unit(b) <= unit(a - b) * y.value()) by (nonlinear_arith)
        requires
            unit(b) <= y.value(),
            unit(a - b) > 0,
    ;
    lemma_mul_nonnegative(size(x), u);
    lemma_rounded_at_most(size(x) * u, y.value(), a - b);
    lemma_stays_finite(x.over(y), a - b);
}

/// A sum or difference of bounded numbers is bounded.
pub proof fn lemma_plus_within(x: Binary64, y: Binary64, e: int)
    requires
        within(x, e),
        within(y, e),
        -1074 <= e <= 970,
    ensures
        within(x.plus(y), e + 1),
        within(x.minus(y), e + 1),
{
    lemma_unit_doubles(e);
    order::lemma_negated(y);
    lemma_sum_within(x, y, e + 1);
    lemma_sum_within(x, y.negated(), e + 1);
}

pub proof fn lemma_sum_within(x: Binary64, y: Binary64, e: int)
    requires
        x.finite(),
        y.finite(),
        -unit(e) <= x.value() + y.value() <= unit(e),
        -1074 <= e <= 971,
    ensures
        within(x.plus(y), e),
{
    let s = x.value() + y.value();
    order::lemma_plus(x, y);
    if s >= 0 {
        lemma_rounded_at_most(s, 1, e);
    } else {
        lemma_rounded_at_most(-s, 1, e);
    }
    lemma_stays_finite(x.plus(y), e);
}

/// A power of two takes in a number that is small beside it.
proof fn lemma_rounded_absorbs(n: int, e: int)
    requires
        -1000 <= e <= 971,
        unit(e) <= n <= unit(e) + unit(e - 54),
    ensures
        order::rounded(n, 1) == unit(e),
{
    let w = pow2((e + 1074 - 52) as nat) as int;
    let h = HIDDEN as int;
    let k = e + 1074 - 52;
    let p = k * h + h;
    lemma2_to64();
    lemma2_to64_rest();
    lemma_pow2_pos(k as nat);
    lemma_pow2_adds(52, k as nat);
    lemma_pow2_adds(2, (k - 2) as nat);
    assert(unit(e) == h * w);
    assert(w == 4 * unit(e - 54));
    rounding::lemma_split_magnitude(k, h);
    rounding::lemma_split_magnitude(k, h + 1);
    assert(rounding::magnitude(p) == unit(e));
    assert((h + 1) * w == h * w + w) by (nonlinear_arith);
    assert(p + 1 == k * h + (h + 1));
    assert(rounding::magnitude(p + 1) == unit(e) + w);
    assert(0 < p < INFINITE) by (nonlinear_arith)
        requires
            p == k * h + h,
            22 <= k <= 1993,
            h == HIDDEN,
    ;
    rounding::lemma_magnitude_grows(p - 1, p);
    let x = Exact::Ratio { n, d: 1 };
    assert(x.excess(rounding::magnitude(p - 1) + rounding::magnitude(p), 1) > 0);
    assert(x.excess(rounding::magnitude(p) + rounding::magnitude(p + 1), 1) < 0);
    assert(x.rounds_to(p));
    x.lemma_nearest(p);
}

/// Adding what is small beside a power of two never leads past it.
pub proof fn lemma_plus_absorbs(x: Binary64, y: Binary64, e: int)
    requires
        x.finite(),
        y.finite(),
        -1000 <= e <= 971,
        -(unit(e) + unit(e - 54)) <= x.value() + y.value() <= unit(e) + unit(e - 54),
    ensures
        within(x.plus(y), e),
{
    let s = x.value() + y.value();
    let top = unit(e) + unit(e - 54);
    lemma_unit(e - 54, e);
    lemma_unit(e, e);
    order::lemma_plus(x, y);
    lemma_rounded_absorbs(top, e);
    if s >= 0 {
        order::lemma_rounded_grows(s, 1, top, 1);
        rounding::lemma_nearest_is(Exact::Ratio { n: s, d: 1 });
        binary64::lemma_magnitude_order((Exact::Ratio { n: s, d: 1 }).nearest(), 0);
    } else {
        order::lemma_rounded_grows(-s, 1, top, 1);
        rounding::lemma_nearest_is(Exact::Ratio { n: -s, d: 1 });
        binary64::lemma_magnitude_order((Exact::Ratio { n: -s, d: 1 }).nearest(), 0);
    }
    lemma_stays_finite(x.plus(y), e);
}

/// Rounding raises what is not tiny by at most an eighth.
pub proof fn lemma_rounded_by_an_eighth(n: int, d: int)
    requires
        d > 0,
        4 * d <= n,
        (Exact::Ratio { n, d }).nearest() < INFINITE,
    ensures
        8 * (order::rounded(n, d) * d) <= 9 * n,
{
    rounding::lemma_error(n, d);
    let m = order::rounded(n, d);
    assert(8 * (m * d) <= 9 * n) by (nonlinear_arith)
        requires
            -d <= 2 * (n - m * d) || -(m * d) <= (n - m * d) * TOP,
            4 * d <= n,
            d > 0,
            TOP == 0x20_0000_0000_0000,
    ;
}

/// The root of what is no smaller than the square of a power of two is no smaller than it, and likewise
/// for no larger.
pub proof fn lemma_root_within(x: Binary64, e: int)
    requires
        x.finite(),
        x.value() >= 0,
        -500 <= e <= 900,
    ensures
        !x.root().nan(),
        x.root().value() >= 0,
        x.value() <= unit(2 * e) ==> within(x.root(), e),
        unit(2 * e) <= x.value() ==> unit(e) <= x.root().value(),
{
    reveal(Binary64::root);
    let u = binary64::one_unit();
    order::lemma_constants();
    order::lemma_value_sign(x);
    lemma_unit(e, e);
    lemma_unit(2 * e, e);
    if x.payload() != 0 {
        let n = x.value() * u;
        let r = Exact::Root { n };
        let y = lemma_power_of_two(e);
        order::lemma_value_sign(y);
        let p = y.payload();
        let q = r.nearest();
        lemma_mul_nonnegative(x.value(), u);
        rounding::lemma_nearest_is(r);
        order::lemma_of(false, q);
        binary64::lemma_magnitude_order(q, 0);
        binary64::lemma_magnitude_order(q, p);
        binary64::lemma_magnitude_order(p, q);
        lemma2_to64();
        // n compares with the square of the bound as x does with the power
        if x.value() <= unit(2 * e) {
            assert(n <= unit(e) * unit(e)) by (nonlinear_arith)
                requires
                    n == x.value() * u,
                    x.value() <= unit(2 * e),
                    unit(e) * unit(e) == unit(2 * e) * u,
                    u > 0,
            ;
            if q > p {
                let c = rounding::magnitude(q - 1) + rounding::magnitude(q);
                rounding::lemma_split(q - 1);
                if q - 1 > p {
                    rounding::lemma_magnitude_grows(p, q - 1);
                }
                assert(c > 2 * unit(e));
                assert(n * 4 - c * c < 0) by (nonlinear_arith)
                    requires
                        n <= unit(e) * unit(e),
                        c > 2 * unit(e),
                        unit(e) > 0,
                ;
                assert(pow2(1) * pow2(1) == 4) by {
                    lemma2_to64();
                }
                assert(r.excess(c, 1) < 0);
            }
            lemma_stays_finite(x.root(), e);
        }
        if unit(2 * e) <= x.value() {
            assert(n >= unit(e) * unit(e)) by (nonlinear_arith)
                requires
                    n == x.value() * u,
                    x.value() >= unit(2 * e),
                    unit(e) * unit(e) == unit(2 * e) * u,
                    u > 0,
            ;
            if q < p {
                let c = rounding::magnitude(q) + rounding::magnitude(q + 1);
                rounding::lemma_split(q);
                if q + 1 < p {
                    rounding::lemma_magnitude_grows(q + 1, p);
                }
                assert(0 <= c < 2 * unit(e));
                assert(n * 4 - c * c > 0) by (nonlinear_arith)
                    requires
                        n >= unit(e) * unit(e),
                        0 <= c < 2 * unit(e),
                ;
                assert(pow2(1) * pow2(1) == 4) by {
                    lemma2_to64();
                }
                assert(r.excess(c, 1) > 0);
            }
        }
    }
}

/// The root of a finite number that is not negative is finite.
pub proof fn lemma_root_finite(x: Binary64)
    requires
        x.finite(),
        x.value() >= 0,
    ensures
        x.root().finite(),
        x.root().value() >= 0,
{
    assert(2046 * HIDDEN + HIDDEN == INFINITE);
    rounding::lemma_split_magnitude(2046, HIDDEN as int);
    lemma_pow2_adds(52, 2046);
    lemma2_to64_rest();
    order::lemma_finite_bounds(x);
    order::lemma_of(false, INFINITE as int);
    lemma_root_within(x, 512);
}

} // verus!
