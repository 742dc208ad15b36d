//! How double arithmetic respects order: sums, products and quotients of ordered numbers are
//! ordered, and stay within the bounds that exact arithmetic gives.

use crate::binary64::{self, Binary64};
use crate::rounding::{self, Exact, HIDDEN, INFINITE, SIGN, TOP};
use vstd::arithmetic::mul::*;
use vstd::arithmetic::power2::*;
use vstd::prelude::*;

verus! {

/// The value that the quotient `n / d` rounds to.
pub open spec fn rounded(n: int, d: int) -> int {
    if n < 0 {
        -rounding::magnitude((Exact::Ratio { n: -n, d }).nearest())
    } else {
        rounding::magnitude((Exact::Ratio { n, d }).nearest())
    }
}

pub proof fn lemma_of(negative: bool, p: int)
    requires
        0 <= p < SIGN,
    ensures
        Binary64::of(negative, p).payload() == p,
        Binary64::of(negative, p).negative() == negative,
{
}

pub proof fn lemma_value_sign(x: Binary64)
    ensures
        x.value() > 0 ==> !x.negative(),
        x.value() < 0 ==> x.negative(),
        (x.value() == 0) == (x.payload() == 0),
        x.negative() ==> x.value() <= 0,
        !x.negative() ==> x.value() >= 0,
        rounding::magnitude(x.payload()) == if x.value() < 0 { -x.value() } else { x.value() },
{
    binary64::lemma_magnitude_order(x.payload(), 0);
    binary64::lemma_magnitude_order(0, x.payload());
}

pub proof fn lemma_constants()
    ensures
        Binary64::zero().value() == 0,
        Binary64::zero().finite(),
        Binary64::one().value() == binary64::one_unit(),
        Binary64::one().finite(),
        binary64::one_unit() > 0,
        Binary64::infinity().infinite(),
        !Binary64::infinity().negative(),
        Binary64::negative_infinity().infinite(),
        Binary64::negative_infinity().negative(),
{
    rounding::lemma_split(0);
    rounding::lemma_split_magnitude(1022, HIDDEN as int);
    assert(1022 * HIDDEN + HIDDEN == 0x3ff0_0000_0000_0000);
    lemma_pow2_adds(52, 1022);
    lemma2_to64_rest();
    lemma_pow2_pos(1074);
}

/// Infinities lie beyond every finite value.
pub proof fn lemma_finite_bounds(x: Binary64)
    requires
        !x.nan(),
    ensures
        x.finite() ==> -Binary64::infinity().value() < x.value() < Binary64::infinity().value(),
        x.infinite() && !x.negative() ==> x.value() == Binary64::infinity().value(),
        x.infinite() && x.negative() ==> x.value() == -Binary64::infinity().value(),
        Binary64::infinity().value() > 0,
{
    binary64::lemma_magnitude_order(x.payload(), INFINITE as int);
    binary64::lemma_magnitude_order(0, INFINITE as int);
}

/// Rounding keeps order.
pub proof fn lemma_rounded_grows(n: int, d: int, m: int, c: int)
    requires
        d > 0,
        c > 0,
        n * c <= m * d,
    ensures
        rounded(n, d) <= rounded(m, c),
{
    if n >= 0 {
        rounding::lemma_nearest_is(Exact::Ratio { n, d });
        lemma_mul_nonnegative(n, c);
        assert(m >= 0) by (nonlinear_arith)
            requires
                m * d >= 0,
                d > 0,
        ;
        rounding::lemma_nearest_is(Exact::Ratio { n: m, d: c });
        rounding::lemma_nearest_grows(n, d, m, c);
        binary64::lemma_magnitude_order(
            (Exact::Ratio { n: m, d: c }).nearest(),
            (Exact::Ratio { n, d }).nearest(),
        );
    } else if m < 0 {
        rounding::lemma_nearest_is(Exact::Ratio { n: -n, d });
        rounding::lemma_nearest_is(Exact::Ratio { n: -m, d: c });
        assert((-m) * d <= (-n) * c) by (nonlinear_arith)
            requires
                n * c <= m * d,
        ;
        rounding::lemma_nearest_grows(-m, c, -n, d);
        binary64::lemma_magnitude_order(
            (Exact::Ratio { n: -n, d }).nearest(),
            (Exact::Ratio { n: -m, d: c }).nearest(),
        );
    } else {
        rounding::lemma_nearest_is(Exact::Ratio { n: -n, d });
        rounding::lemma_nearest_is(Exact::Ratio { n: m, d: c });
        binary64::lemma_magnitude_order((Exact::Ratio { n: -n, d }).nearest(), 0);
        binary64::lemma_magnitude_order((Exact::Ratio { n: m, d: c }).nearest(), 0);
    }
}

/// The value of a double rounds to itself.
pub proof fn lemma_rounded_exact(x: Binary64, d: int)
    requires
        !x.nan(),
        d > 0,
    ensures
        rounded(x.value() * d, d) == x.value(),
{
    lemma_value_sign(x);
    lemma2_to64();
    let mag = rounding::magnitude(x.payload());
    let e = Exact::Ratio { n: mag * d, d };
    lemma_mul_nonnegative(mag, d);
    assert(e.excess(mag, 0) == 0);
    rounding::lemma_nearest_exact(e, x.payload());
    if x.value() < 0 {
        assert(x.value() * d == -(mag * d)) by (nonlinear_arith)
            requires
                x.value() == -mag,
        ;
        assert(mag * d > 0) by (nonlinear_arith)
            requires
                mag > 0,
                d > 0,
        ;
    }
}

/// The sum of two finite numbers is the rounded exact sum.
pub proof fn lemma_plus(a: Binary64, b: Binary64)
    requires
        a.finite(),
        b.finite(),
    ensures
        !a.plus(b).nan(),
        a.plus(b).value() == rounded(a.value() + b.value(), 1),
{
    reveal(Binary64::plus);
    let s = a.value() + b.value();
    lemma2_to64();
    rounding::lemma_split(0);
    if s == 0 {
        lemma_of(a.negative() && b.negative(), 0);
        rounding::lemma_nearest_exact(Exact::Ratio { n: 0, d: 1 }, 0);
    } else if s < 0 {
        rounding::lemma_nearest_is(Exact::Ratio { n: -s, d: 1 });
        lemma_of(true, (Exact::Ratio { n: -s, d: 1 }).nearest());
    } else {
        rounding::lemma_nearest_is(Exact::Ratio { n: s, d: 1 });
        lemma_of(false, (Exact::Ratio { n: s, d: 1 }).nearest());
    }
}

/// Adding a non-negative number never lowers a sum, and the sum is no NaN.
pub proof fn lemma_plus_nonnegative(a: Binary64, b: Binary64)
    requires
        !a.nan(),
        Binary64::zero().at_most(b),
        a.infinite() ==> !a.negative(),
    ensures
        a.at_most(a.plus(b)),
        a.plus(b).infinite() ==> !a.plus(b).negative(),
{
    reveal(Binary64::plus);
    lemma_constants();
    lemma_value_sign(b);
    if a.finite() && b.finite() {
        lemma_plus(a, b);
        lemma_rounded_grows(a.value(), 1, a.value() + b.value(), 1);
        lemma_rounded_exact(a, 1);
        lemma_finite_bounds(a);
        lemma_finite_bounds(a.plus(b));
    } else if b.infinite() {
        lemma_finite_bounds(a);
        lemma_finite_bounds(b);
        if b.negative() {
            lemma_finite_bounds(b);
        }
    }
}

pub proof fn lemma_plus_commutes(a: Binary64, b: Binary64)
    ensures
        a.plus(b) == b.plus(a),
{
    reveal(Binary64::plus);
    if a.infinite() && b.infinite() && a.negative() == b.negative() {
        assert(a.bits == b.bits);
    }
}

/// Sums of ordered finite numbers are ordered.
pub proof fn lemma_plus_grows(a: Binary64, b: Binary64, c: Binary64)
    requires
        a.finite(),
        b.finite(),
        c.finite(),
        a.at_most(b),
    ensures
        a.plus(c).at_most(b.plus(c)),
        c.plus(a).at_most(c.plus(b)),
{
    lemma_plus(a, c);
    lemma_plus(b, c);
    lemma_plus_commutes(a, c);
    lemma_plus_commutes(b, c);
    lemma_rounded_grows(a.value() + c.value(), 1, b.value() + c.value(), 1);
}

/// The product of two finite non-negative numbers is the rounded exact product.
pub proof fn lemma_times(a: Binary64, b: Binary64)
    requires
        a.finite(),
        b.finite(),
        a.value() >= 0,
        b.value() >= 0,
    ensures
        !a.times(b).nan(),
        a.times(b).value() == rounded(a.value() * b.value(), binary64::one_unit()),
        a.times(b).value() >= 0,
{
    reveal(Binary64::times);
    let n = a.value() * b.value();
    let u = binary64::one_unit();
    lemma_constants();
    lemma_value_sign(a);
    lemma_value_sign(b);
    lemma_mul_nonnegative(a.value(), b.value());
    let x = Exact::Ratio { n, d: u };
    rounding::lemma_nearest_is(x);
    lemma_of(a.negative() != b.negative(), x.nearest());
    binary64::lemma_magnitude_order(x.nearest(), 0);
    if a.negative() != b.negative() {
        // one of them is a zero
        lemma2_to64();
        rounding::lemma_split(0);
        assert(n == 0) by (nonlinear_arith)
            requires
                n == a.value() * b.value(),
                a.value() == 0 || b.value() == 0,
        ;
        assert(x.excess(0, 0) == 0);
        rounding::lemma_nearest_exact(x, 0);
    }
}

/// Products with a fixed non-negative factor are ordered.
pub proof fn lemma_times_grows(a: Binary64, b: Binary64, c: Binary64)
    requires
        a.finite(),
        b.finite(),
        c.finite(),
        0 <= a.value() <= b.value(),
        c.value() >= 0,
    ensures
        a.times(c).at_most(b.times(c)),
        c.times(a).at_most(c.times(b)),
{
    let u = binary64::one_unit();
    lemma_constants();
    lemma_times(a, c);
    lemma_times(b, c);
    lemma_times(c, a);
    lemma_times(c, b);
    lemma_mul_inequality(a.value(), b.value(), c.value());
    lemma_mul_is_commutative(a.value(), c.value());
    lemma_mul_is_commutative(b.value(), c.value());
    lemma_mul_inequality(a.value() * c.value(), b.value() * c.value(), u);
    lemma_rounded_grows(a.value() * c.value(), u, b.value() * c.value(), u);
}

/// A factor between zero and one never raises a product.
pub proof fn lemma_times_shrinks(a: Binary64, c: Binary64)
    requires
        a.finite(),
        c.finite(),
        a.value() >= 0,
        0 <= c.value() <= Binary64::one().value(),
    ensures
        a.times(c).at_most(a),
        0 <= a.times(c).value(),
{
    let u = binary64::one_unit();
    lemma_constants();
    lemma_times(a, c);
    lemma_mul_inequality(c.value(), u, a.value());
    lemma_mul_is_commutative(a.value(), c.value());
    lemma_mul_is_commutative(a.value(), u);
    assert((a.value() * c.value()) * u <= (a.value() * u) * u) by {
        lemma_mul_inequality(a.value() * c.value(), a.value() * u, u);
    }
    lemma_rounded_grows(a.value() * c.value(), u, a.value() * u, u);
    lemma_rounded_exact(a, u);
}

/// The quotient of a finite non-negative number by a positive one is no NaN and not negative.
pub proof fn lemma_over(a: Binary64, b: Binary64)
    requires
        a.finite(),
        b.finite(),
        a.value() >= 0,
        b.value() > 0,
    ensures
        !a.over(b).nan(),
        a.over(b).value() == rounded(a.value() * binary64::one_unit(), b.value()),
        a.over(b).value() >= 0,
{
    reveal(Binary64::over);
    let n = a.value() * binary64::one_unit();
    lemma_constants();
    lemma_value_sign(a);
    lemma_value_sign(b);
    lemma_mul_nonnegative(a.value(), binary64::one_unit());
    let x = Exact::Ratio { n, d: b.value() };
    rounding::lemma_nearest_is(x);
    lemma_of(a.negative() != b.negative(), x.nearest());
    binary64::lemma_magnitude_order(x.nearest(), 0);
    if a.negative() {
        lemma2_to64();
        rounding::lemma_split(0);
        assert(n == 0) by (nonlinear_arith)
            requires
                n == a.value() * binary64::one_unit(),
                a.value() == 0,
        ;
        assert(x.excess(0, 0) == 0);
        rounding::lemma_nearest_exact(x, 0);
    }
}

/// The quotient of a number by one that is no smaller lies in `[0, 1]`.
pub proof fn lemma_over_at_most_one(a: Binary64, b: Binary64)
    requires
        a.finite(),
        !b.nan(),
        0 <= a.value() <= b.value(),
        b.value() > 0,
    ensures
        a.over(b).finite(),
        0 <= a.over(b).value() <= Binary64::one().value(),
{
    reveal(Binary64::over);
    let u = binary64::one_unit();
    lemma_constants();
    lemma_value_sign(b);
    if b.finite() {
        lemma_over(a, b);
        lemma_mul_inequality(a.value(), b.value(), u);
        assert(a.value() * u <= u * b.value()) by {
            lemma_mul_is_commutative(u, b.value());
        }
        assert((a.value() * u) * 1 <= u * b.value());
        lemma_rounded_grows(a.value() * u, b.value(), u, 1);
        lemma_rounded_exact(Binary64::one(), 1);
        lemma_finite_bounds(Binary64::one());
        lemma_finite_bounds(a.over(b));
    } else {
        lemma_of(a.negative() != b.negative(), 0);
        binary64::lemma_magnitude_order(0, 0);
        rounding::lemma_split(0);
    }
}

/// Quotients by a fixed positive number are ordered.
pub proof fn lemma_over_grows(a: Binary64, b: Binary64, c: Binary64)
    requires
        a.finite(),
        b.finite(),
        c.finite(),
        0 <= a.value() <= b.value(),
        c.value() > 0,
    ensures
        a.over(c).at_most(b.over(c)),
{
    let u = binary64::one_unit();
    lemma_constants();
    lemma_over(a, c);
    lemma_over(b, c);
    lemma_mul_inequality(a.value(), b.value(), u);
    lemma_mul_inequality(a.value() * u, b.value() * u, c.value());
    lemma_rounded_grows(a.value() * u, c.value(), b.value() * u, c.value());
}

/// A clamped number lies in `[0, 1]`.
pub proof fn lemma_clamped(x: Binary64)
    ensures
        x.clamped().finite(),
        0 <= x.clamped().value() <= Binary64::one().value(),
{
    lemma_constants();
    if !x.nan() {
        lemma_finite_bounds(x);
        lemma_finite_bounds(Binary64::one());
    }
}

/// Clamping keeps order.
pub proof fn lemma_clamped_grows(x: Binary64, y: Binary64)
    requires
        x.at_most(y),
    ensures
        x.clamped().at_most(y.clamped()),
{
    lemma_constants();
    lemma_clamped(x);
    lemma_clamped(y);
}

/// An integer below 2^53 has its own double.
pub proof fn lemma_whole_number(n: int)
    requires
        0 <= n < TOP,
    ensures
        Binary64::fraction(n, 1).finite(),
        Binary64::fraction(n, 1).value() == n * binary64::one_unit(),
{
    reveal(Binary64::fraction);
    let p = rounding::lemma_representable(n, 1074);
    let x = Exact::Ratio { n: n * binary64::one_unit(), d: 1 };
    lemma_constants();
    lemma2_to64();
    lemma_mul_nonnegative(n, binary64::one_unit());
    rounding::lemma_nearest_exact(x, p);
    lemma_of(false, p);
}

/// A power of two has its own double.
pub proof fn lemma_power(k: nat)
    requires
        k <= 971,
    ensures
        Binary64::fraction(pow2(k) as int, 1).finite(),
        Binary64::fraction(pow2(k) as int, 1).value() == pow2(k) * binary64::one_unit(),
{
    reveal(Binary64::fraction);
    let n = pow2(k) as int;
    let u = binary64::one_unit();
    let p = rounding::lemma_representable(1, (1074 + k) as int);
    lemma_pow2_adds(k, 1074);
    let x = Exact::Ratio { n: n * u, d: 1 };
    lemma_constants();
    lemma2_to64();
    lemma_mul_nonnegative(n, u);
    rounding::lemma_nearest_exact(x, p);
    lemma_of(false, p);
}

/// An integer up to 2^64 has a finite double.
pub proof fn lemma_wide_number(n: int)
    requires
        0 <= n <= 0x1_0000_0000_0000_0000,
    ensures
        Binary64::fraction(n, 1).finite(),
        Binary64::fraction(n, 1).value() >= 0,
{
    lemma2_to64();
    lemma_power(64);
    lemma_fraction(n, 1);
    lemma_fraction_grows(n, pow2(64) as int, 1);
    lemma_finite_bounds(Binary64::fraction(n, 1));
    lemma_finite_bounds(Binary64::fraction(pow2(64) as int, 1));
}

/// A fraction of non-negative integers is no NaN and not negative.
pub proof fn lemma_fraction(n: int, d: int)
    requires
        n >= 0,
        d > 0,
    ensures
        !Binary64::fraction(n, d).nan(),
        Binary64::fraction(n, d).value() == rounded(n * binary64::one_unit(), d),
        Binary64::fraction(n, d).value() >= 0,
{
    reveal(Binary64::fraction);
    let x = Exact::Ratio { n: n * binary64::one_unit(), d };
    lemma_constants();
    lemma_mul_nonnegative(n, binary64::one_unit());
    rounding::lemma_nearest_is(x);
    lemma_of(false, x.nearest());
    binary64::lemma_magnitude_order(x.nearest(), 0);
}

/// A larger numerator never gives a smaller fraction.
pub proof fn lemma_fraction_grows(n: int, m: int, d: int)
    requires
        0 <= n <= m,
        d > 0,
    ensures
        Binary64::fraction(n, d).at_most(Binary64::fraction(m, d)),
{
    let u = binary64::one_unit();
    lemma_constants();
    lemma_fraction(n, d);
    lemma_fraction(m, d);
    assert((n * u) * d <= (m * u) * d) by (nonlinear_arith)
        requires
            0 <= n <= m,
            u > 0,
            d > 0,
    ;
    lemma_rounded_grows(n * u, d, m * u, d);
}

/// A proper fraction lies in `[0, 1]`.
pub proof fn lemma_fraction_at_most_one(n: int, d: int)
    requires
        0 <= n <= d,
        d > 0,
    ensures
        Binary64::fraction(n, d).finite(),
        0 <= Binary64::fraction(n, d).value() <= Binary64::one().value(),
{
    let u = binary64::one_unit();
    lemma_constants();
    lemma_fraction(n, d);
    lemma_mul_inequality(n, d, u);
    lemma_mul_is_commutative(u, d);
    lemma_rounded_grows(n * u, d, u, 1);
    lemma_rounded_exact(Binary64::one(), 1);
    lemma_finite_bounds(Binary64::one());
    lemma_finite_bounds(Binary64::fraction(n, d));
}

/// A number less a non-negative one, plus a finite one, is no NaN, unless infinity is taken from
/// infinity.
pub proof fn lemma_adjusted(s: Binary64, t: Binary64, b: Binary64)
    requires
        !s.nan(),
        !t.nan(),
        t.value() >= 0,
        s == Binary64::infinity() ==> t.finite(),
        b.finite(),
    ensures
        !s.minus(t).plus(b).nan(),
        s.infinite() ==> s.minus(t).plus(b) == s,
{
    reveal(Binary64::plus);
    let n = t.negated();
    lemma_negated(t);
    lemma_finite_bounds(t);
    lemma_constants();
    if s.infinite() && !s.negative() {
        assert(s.bits == Binary64::infinity().bits);
    }
    if s.finite() && n.finite() {
        lemma_plus(s, n);
    }
    let d = s.minus(t);
    if d.finite() {
        lemma_plus(d, b);
    }
}

/// A number less a larger non-negative one, plus a finite one, is no larger.
pub proof fn lemma_adjusted_shrinks(s: Binary64, t: Binary64, r: Binary64, b: Binary64)
    requires
        !s.nan(),
        t.at_most(r),
        t.value() >= 0,
        s == Binary64::infinity() ==> r.finite(),
        b.finite(),
    ensures
        s.minus(r).plus(b).at_most(s.minus(t).plus(b)),
{
    lemma_negated(t);
    lemma_negated(r);
    lemma_finite_bounds(t);
    lemma_finite_bounds(r);
    lemma_adjusted(s, t, b);
    lemma_adjusted(s, r, b);
    let d = s.minus(t);
    let e = s.minus(r);
    if s.infinite() {
    } else if r.finite() {
        lemma_plus_grows(r.negated(), t.negated(), s);
        lemma_finite_bounds(d);
        lemma_finite_bounds(e);
        if d.finite() && e.finite() {
            lemma_plus_grows(e, d, b);
        } else {
            reveal(Binary64::plus);
            lemma_finite_bounds(e.plus(b));
            lemma_finite_bounds(d.plus(b));
        }
    } else {
        reveal(Binary64::plus);
        lemma_finite_bounds(e.plus(b));
        lemma_finite_bounds(d.plus(b));
    }
}

/// Sums of ordered non-negative numbers are ordered.
pub proof fn lemma_plus_grows_nonnegative(a: Binary64, b: Binary64, c: Binary64)
    requires
        Binary64::zero().at_most(a),
        a.at_most(b),
        Binary64::zero().at_most(c),
    ensures
        a.plus(c).at_most(b.plus(c)),
        Binary64::zero().at_most(a.plus(c)),
{
    reveal(Binary64::plus);
    lemma_constants();
    lemma_finite_bounds(a);
    lemma_finite_bounds(b);
    lemma_finite_bounds(c);
    lemma_plus_nonnegative(a, c);
    lemma_plus_nonnegative(b, c);
    if a.finite() && b.finite() && c.finite() {
        lemma_plus_grows(a, b, c);
    } else {
        lemma_finite_bounds(a.plus(c));
        lemma_finite_bounds(b.plus(c));
    }
}

/// The negative of a number.
pub proof fn lemma_negated(x: Binary64)
    ensures
        x.negated().value() == -x.value(),
        x.negated().nan() == x.nan(),
        x.negated().finite() == x.finite(),
        x.negated().infinite() == x.infinite(),
        x.negated().negative() == !x.negative(),
{
    lemma_of(!x.negative(), x.payload());
}

/// A negative number over a positive one is not positive.
pub proof fn lemma_over_negative(a: Binary64, b: Binary64)
    requires
        a.finite(),
        b.finite(),
        a.value() < 0,
        b.value() > 0,
    ensures
        !a.over(b).nan(),
        a.over(b).value() <= 0,
{
    reveal(Binary64::over);
    lemma_value_sign(a);
    lemma_value_sign(b);
    lemma_constants();
    let n = rounding::magnitude(a.payload()) * binary64::one_unit();
    lemma_mul_nonnegative(rounding::magnitude(a.payload()), binary64::one_unit());
    let x = Exact::Ratio { n, d: rounding::magnitude(b.payload()) };
    rounding::lemma_nearest_is(x);
    lemma_of(true, x.nearest());
    lemma_value_sign(a.over(b));
}

/// Clamped quotients of ordered numbers by a positive one are ordered.
pub proof fn lemma_over_clamped_grows(a: Binary64, b: Binary64, c: Binary64)
    requires
        a.at_most(b),
        Binary64::zero().less(c),
    ensures
        a.over(c).clamped().at_most(b.over(c).clamped()),
{
    lemma_constants();
    lemma_clamped(a.over(c));
    lemma_clamped(b.over(c));
    lemma_finite_bounds(a);
    lemma_finite_bounds(b);
    lemma_finite_bounds(c);
    lemma_value_sign(a);
    lemma_value_sign(b);
    lemma_value_sign(c);
    if c.infinite() {
        reveal(Binary64::over);
        lemma_of(a.negative() != c.negative(), 0);
        lemma_value_sign(a.over(c));
        lemma_value_sign(b.over(c));
    } else if a.value() < 0 {
        if a.finite() {
            lemma_over_negative(a, c);
        } else {
            reveal(Binary64::over);
            lemma_of(true, INFINITE as int);
            lemma_finite_bounds(a.over(c));
        }
    } else if b.infinite() {
        reveal(Binary64::over);
        lemma_of(false, INFINITE as int);
        lemma_finite_bounds(b.over(c));
        lemma_finite_bounds(Binary64::one());
    } else {
        lemma_over_grows(a, b, c);
        lemma_clamped_grows(a.over(c), b.over(c));
    }
}

/// What is left of one shrinks as what is taken off grows.
pub proof fn lemma_one_minus_shrinks(a: Binary64, b: Binary64)
    requires
        a.at_most(b),
    ensures
        Binary64::one().minus(b).clamped().at_most(Binary64::one().minus(a).clamped()),
{
    let one = Binary64::one();
    lemma_constants();
    lemma_negated(a);
    lemma_negated(b);
    lemma_clamped(one.minus(a));
    lemma_clamped(one.minus(b));
    lemma_finite_bounds(a);
    lemma_finite_bounds(b);
    lemma_finite_bounds(one);
    if a.finite() && b.finite() {
        lemma_plus_grows(b.negated(), a.negated(), one);
        lemma_clamped_grows(one.minus(b), one.minus(a));
    } else {
        reveal(Binary64::plus);
        lemma_finite_bounds(a.negated());
        lemma_finite_bounds(b.negated());
        if b.infinite() && !b.negative() {
            assert(one.minus(b) == b.negated());
        } else {
            assert(one.minus(a) == a.negated());
        }
    }
}

/// Quotients of ordered finite numbers by a positive finite one are ordered.
pub proof fn lemma_over_ordered(a: Binary64, b: Binary64, c: Binary64)
    requires
        a.finite(),
        b.finite(),
        c.finite(),
        a.at_most(b),
        c.value() > 0,
    ensures
        a.over(c).at_most(b.over(c)),
{
    if a.value() >= 0 {
        lemma_over_grows(a, b, c);
    } else if b.value() >= 0 {
        lemma_over_negative(a, c);
        lemma_over(b, c);
    } else {
        reveal(Binary64::over);
        lemma_constants();
        lemma_value_sign(a);
        lemma_value_sign(b);
        lemma_value_sign(c);
        lemma_over_negative(a, c);
        lemma_over_negative(b, c);
        let u = binary64::one_unit();
        let n = -a.value() * u;
        let m = -b.value() * u;
        let d = c.value();
        lemma_mul_nonnegative(-a.value(), u);
        lemma_mul_nonnegative(-b.value(), u);
        let x = Exact::Ratio { n, d };
        let y = Exact::Ratio { n: m, d };
        rounding::lemma_nearest_is(x);
        rounding::lemma_nearest_is(y);
        lemma_of(true, x.nearest());
        lemma_of(true, y.nearest());
        assert(m * d <= n * d) by (nonlinear_arith)
            requires
                n == -a.value() * u,
                m == -b.value() * u,
                a.value() <= b.value(),
                u > 0,
                d > 0,
        ;
        lemma_rounded_grows(m, d, n, d);
    }
}

/// A positive number over itself is one.
pub proof fn lemma_over_itself(x: Binary64)
    requires
        x.finite(),
        x.value() > 0,
    ensures
        x.over(x) == Binary64::one(),
{
    lemma_constants();
    lemma_over(x, x);
    lemma_rounded_exact(Binary64::one(), x.value());
    assert(x.value() * binary64::one_unit() == binary64::one_unit() * x.value()) by (nonlinear_arith);
    lemma_over_at_most_one(x, x);
    lemma_same_value(x.over(x), Binary64::one());
}

/// Numbers of one value that is not zero are one number.
pub proof fn lemma_same_value(x: Binary64, y: Binary64)
    requires
        x.value() == y.value(),
        x.value() != 0,
    ensures
        x == y,
{
    lemma_value_sign(x);
    lemma_value_sign(y);
    binary64::lemma_magnitude_order(x.payload(), y.payload());
    binary64::lemma_magnitude_order(y.payload(), x.payload());
}

/// Products of ordered non-negative numbers, which may be infinite, with a positive finite one are
/// ordered.
pub proof fn lemma_times_positive_grows(a: Binary64, b: Binary64, c: Binary64)
    requires
        Binary64::zero().at_most(a),
        a.at_most(b),
        c.finite(),
        c.value() > 0,
    ensures
        a.times(c).at_most(b.times(c)),
        Binary64::zero().at_most(a.times(c)),
{
    lemma_constants();
    lemma_finite_bounds(a);
    lemma_finite_bounds(b);
    lemma_value_sign(a);
    lemma_value_sign(b);
    lemma_value_sign(c);
    if a.finite() {
        lemma_times(a, c);
        lemma_finite_bounds(a.times(c));
    }
    if b.infinite() {
        reveal(Binary64::times);
        lemma_of(false, INFINITE as int);
        lemma_finite_bounds(b.times(c));
        if a.infinite() {
            assert(a.times(c) == b.times(c));
        }
    } else {
        lemma_times_grows(a, b, c);
    }
}

/// One is neutral.
pub proof fn lemma_times_one(a: Binary64)
    requires
        a.finite(),
        a.value() > 0,
    ensures
        a.times(Binary64::one()) == a,
        Binary64::one().times(a) == a,
{
    lemma_constants();
    let u = binary64::one_unit();
    lemma_times(a, Binary64::one());
    lemma_times(Binary64::one(), a);
    lemma_rounded_exact(a, u);
    assert(a.value() * u == u * a.value()) by (nonlinear_arith);
    lemma_same_value(a.times(Binary64::one()), a);
    lemma_same_value(Binary64::one().times(a), a);
}

/// A finite sum of non-negative numbers has finite terms.
pub proof fn lemma_finite_sum(a: Binary64, b: Binary64)
    requires
        Binary64::zero().at_most(a),
        Binary64::zero().at_most(b),
        a.plus(b).finite(),
    ensures
        a.finite(),
        b.finite(),
{
    lemma_constants();
    lemma_finite_bounds(a);
    lemma_finite_bounds(b);
    lemma_finite_bounds(a.plus(b));
    lemma_plus_nonnegative(a, b);
    lemma_plus_commutes(a, b);
    lemma_plus_nonnegative(b, a);
}

/// An infinite number times a positive finite one is infinite.
pub proof fn lemma_infinite_times(a: Binary64, b: Binary64)
    requires
        a.infinite(),
        !a.negative(),
        b.finite(),
        b.value() > 0,
    ensures
        a.times(b) == Binary64::infinity(),
{
    reveal(Binary64::times);
    lemma_value_sign(b);
}

/// Ordered fractions have ordered doubles.
pub proof fn lemma_fraction_ordered(n: int, d: int, m: int, c: int)
    requires
        n >= 0,
        m >= 0,
        d > 0,
        c > 0,
        n * c <= m * d,
    ensures
        Binary64::fraction(n, d).at_most(Binary64::fraction(m, c)),
{
    let u = binary64::one_unit();
    lemma_constants();
    lemma_fraction(n, d);
    lemma_fraction(m, c);
    assert((n * u) * c <= (m * u) * d) by (nonlinear_arith)
        requires
            n * c <= m * d,
            u > 0,
    ;
    lemma_rounded_grows(n * u, d, m * u, c);
}

/// A fraction whose denominator is a power of two has its own double.
pub proof fn lemma_dyadic(n: int, k: nat)
    requires
        0 <= n < TOP,
        k <= 1074,
    ensures
        Binary64::fraction(n, pow2(k) as int).finite(),
        Binary64::fraction(n, pow2(k) as int).value() * pow2(k) == n * binary64::one_unit(),
{
    reveal(Binary64::fraction);
    let d = pow2(k) as int;
    let w = pow2((1074 - k) as nat) as int;
    let u = binary64::one_unit();
    let p = rounding::lemma_representable(n, 1074 - k);
    lemma_pow2_adds((1074 - k) as nat, k);
    lemma_pow2_pos(k);
    let x = Exact::Ratio { n: n * u, d };
    lemma_constants();
    lemma2_to64();
    lemma_mul_nonnegative(n, u);
    assert((n * w) * d == n * u) by (nonlinear_arith)
        requires
            w * d == u,
    ;
    rounding::lemma_nearest_exact(x, p);
    lemma_of(false, p);
}

/// A fraction of at least a half is positive, one of at most three quarters is below one, and one of
/// at least nine eighths is above one.
pub proof fn lemma_fraction_apart(n: int, d: int)
    requires
        n >= 0,
        d > 0,
    ensures
        2 * n >= d ==> Binary64::fraction(n, d).value() > 0,
        4 * n <= 3 * d ==> Binary64::fraction(n, d).less(Binary64::one()),
        8 * n >= 9 * d ==> Binary64::one().less(Binary64::fraction(n, d)),
{
    lemma_constants();
    lemma2_to64();
    lemma_dyadic(1, 1);
    lemma_dyadic(3, 2);
    lemma_dyadic(9, 3);
    lemma_fraction(n, d);
    if 2 * n >= d {
        lemma_fraction_ordered(1, 2, n, d);
    }
    if 4 * n <= 3 * d {
        lemma_fraction_ordered(n, d, 3, 4);
    }
    if 8 * n >= 9 * d {
        lemma_fraction_ordered(9, 8, n, d);
    }
}

/// A finite sum of non-negative numbers is off by at most one part in 2^53.
pub proof fn lemma_plus_error(a: Binary64, b: Binary64)
    requires
        a.usable(),
        b.usable(),
        a.plus(b).finite(),
    ensures
        ({
            let s = a.plus(b).value();
            -s <= (a.value() + b.value() - s) * TOP <= s
        }),
{
    reveal(Binary64::plus);
    lemma_constants();
    lemma_value_sign(a);
    lemma_value_sign(b);
    let n = a.value() + b.value();
    if n > 0 {
        let x = Exact::Ratio { n, d: 1 };
        rounding::lemma_nearest_is(x);
        lemma_of(false, x.nearest());
        rounding::lemma_error(n, 1);
    } else {
        lemma_of(a.negative() && b.negative(), 0);
        lemma_value_sign(a.plus(b));
    }
}

/// A finite quotient of non-negative numbers is off by at most half a unit or one part in 2^53.
pub proof fn lemma_over_error(a: Binary64, b: Binary64)
    requires
        a.usable(),
        b.positive(),
        a.over(b).finite(),
    ensures
        ({
            let r = a.over(b).value();
            let e = a.value() * binary64::one_unit() - r * b.value();
            ||| -b.value() <= 2 * e <= b.value()
            ||| -(r * b.value()) <= e * TOP <= r * b.value()
        }),
{
    lemma_constants();
    lemma_over(a, b);
    let n = a.value() * binary64::one_unit();
    lemma_mul_nonnegative(a.value(), binary64::one_unit());
    let x = Exact::Ratio { n, d: b.value() };
    rounding::lemma_nearest_is(x);
    lemma_finite_bounds(a.over(b));
    if x.nearest() >= INFINITE {
        lemma_finite_bounds(Binary64::infinity());
    }
    rounding::lemma_error(n, b.value());
}

/// The square of a difference does not depend on its direction.
pub proof fn lemma_difference_squared(a: Binary64, b: Binary64)
    ensures
        a.minus(b).times(a.minus(b)) == b.minus(a).times(b.minus(a)),
{
    reveal(Binary64::plus);
    reveal(Binary64::times);
    lemma_negated(a);
    lemma_negated(b);
    lemma_of(!a.negative(), a.payload());
    lemma_of(!b.negative(), b.payload());
    let x = a.minus(b);
    let y = b.minus(a);
    if a.finite() && b.finite() {
        let s = a.value() - b.value();
        let m = if s < 0 { -s } else { s };
        let e = Exact::Ratio { n: m, d: 1 };
        rounding::lemma_nearest_is(e);
        lemma_of(true, e.nearest());
        lemma_of(false, e.nearest());
        lemma_of(true, 0);
        lemma_of(false, 0);
    }
    assert(x.nan() == y.nan());
    if !x.nan() {
        assert(x.payload() == y.payload());
    }
}

} // verus!
