//! The layout of network coordinates, in numbers.

use crate::accuracy::{self, grain};
use crate::api::MeshEdgeView;
use crate::binary64::{self, Binary64};
use crate::bounds::{self, unit};
use crate::counting::{self, sum_of};
use crate::embedding::{self, EmbeddingOptions, SpringView};
use crate::order;
use crate::roster;
use crate::rounding::{self, Exact, HIDDEN, INFINITE};
use vstd::arithmetic::mul::*;
use vstd::arithmetic::power2::*;
use vstd::prelude::*;

verus! {

// ---- tuning ----

/// The trust in a measurement of `s` samples is `s / (s + 4)`, and a quarter without any, within one part
/// in 2^53.
pub proof fn lemma_trust_in_samples(samples: u64)
    requires
        samples < 0x10_0000_0000_0000,
    ensures
        ({
            let u = binary64::one_unit();
            let c = embedding::confidence(samples);
            let s = samples as int;
            &&& c.finite()
            &&& 0 <= c.value() <= u
            &&& s == 0 ==> -(100 * u) <= (100 * c.value() - 25 * u) * 0x20_0000_0000_0000 <= 100 * u
            &&& s > 0 ==> -(u * (s + 4)) <= (c.value() * (s + 4) - s * u) * 0x20_0000_0000_0000 <= u * (s + 4)
        }),
{
    let u = binary64::one_unit();
    let g = grain();
    let s = samples as int;
    order::lemma_constants();
    accuracy::lemma_grain();
    accuracy::lemma_proper_fraction(25, 100);
    if s > 0 {
        order::lemma_whole_number(s);
        order::lemma_whole_number(4);
        order::lemma_whole_number(s + 4);
        let a = Binary64::fraction(s, 1);
        let four = Binary64::fraction(4, 1);
        let b = a.plus(four);
        let exact = Binary64::fraction(s + 4, 1);
        order::lemma_plus(a, four);
        order::lemma_rounded_exact(exact, 1);
        assert(s * u + 4 * u == (s + 4) * u) by (nonlinear_arith);
        assert(b.value() == exact.value());
        order::lemma_finite_bounds(b);
        order::lemma_finite_bounds(exact);
        let k = s + 4;
        assert(s * u >= 0 && k * u > 0 && (s * u) * u <= u * (k * u)) by (nonlinear_arith)
            requires
                0 <= s <= k,
                k > 0,
                u > 0,
        ;
        accuracy::lemma_over_close(a, b, 0);
        let c = a.over(b).value();
        assert(-(g * k) <= c * k - s * u <= g * k) by (nonlinear_arith)
            requires
                -(g * (k * u)) <= c * (k * u) - (s * u) * u <= g * (k * u),
                u > 0,
        ;
        assert(u * k == 0x20_0000_0000_0000 * (g * k)) by (nonlinear_arith)
            requires
                u == 0x20_0000_0000_0000 * g,
        ;
    }
}

/// The step falls in a line from the first sweep to the last, within one part in 2^51: of the way from the
/// initial step to the least one, sweep `it` has gone the part `it / last`.
pub proof fn lemma_steps_fall_in_a_line(options: EmbeddingOptions, it: int, last: int)
    requires
        last == if options.iterations > 2 { options.iterations - 1 } else { 1 },
        0 <= it <= last < 0x20_0000_0000_0000,
        options.initial_step.finite(),
        options.min_step.finite(),
        0 <= options.min_step.value() <= options.initial_step.value() <= binary64::one_unit(),
    ensures
        ({
            let u = binary64::one_unit();
            let (first, least) = (options.initial_step.value(), options.min_step.value());
            let s = options.step(it);
            let exact = first * last - (first - least) * it;
            &&& s.finite()
            &&& -(u * last) <= (s.value() * last - exact) * 0x8_0000_0000_0000 <= u * last
        }),
{
    let u = binary64::one_unit();
    let g = grain();
    let (a, b) = (options.initial_step, options.min_step);
    order::lemma_constants();
    accuracy::lemma_grain();
    order::lemma_whole_number(it);
    order::lemma_whole_number(last);
    let d = a.minus(b);
    accuracy::lemma_minus_close(a, b, 0);
    order::lemma_negated(b);
    order::lemma_plus(a, b.negated());
    order::lemma_rounded_exact(Binary64::zero(), 1);
    order::lemma_rounded_grows(0, 1, a.value() - b.value(), 1);
    let x = Binary64::fraction(it, 1);
    let y = Binary64::fraction(last, 1);
    assert(it * u >= 0 && last * u > 0 && (it * u) * u <= u * (last * u)) by (nonlinear_arith)
        requires
            0 <= it <= last,
            last > 0,
            u > 0,
    ;
    let q = x.over(y);
    accuracy::lemma_over_close(x, y, 0);
    assert(-(g * last) <= q.value() * last - it * u <= g * last) by (nonlinear_arith)
        requires
            -(g * (last * u)) <= q.value() * (last * u) - (it * u) * u <= g * (last * u),
            u > 0,
    ;
    let p = d.times(q);
    accuracy::lemma_share_of(d, q);
    accuracy::lemma_minus_close(a, p, 0);
    let s = a.minus(p).value();
    let h = g * last;
    lemma_line(a.value(), b.value(), d.value(), q.value(), p.value(), s, it, last);
    assert(u * last == 0x20_0000_0000_0000 * h) by (nonlinear_arith)
        requires
            u == 0x20_0000_0000_0000 * g,
            h == g * last,
    ;
}

proof fn lemma_line(a: int, b: int, d: int, q: int, p: int, s: int, it: int, last: int)
    requires
        0 <= it <= last,
        0 <= d <= binary64::one_unit(),
        -grain() <= d - (a - b) <= grain(),
        -(grain() * last) <= q * last - it * binary64::one_unit() <= grain() * last,
        -(grain() * binary64::one_unit()) <= p * binary64::one_unit() - d * q <= grain() * binary64::one_unit(),
        -grain() <= s - (a - p) <= grain(),
    ensures
        -(4 * (grain() * last)) <= s * last - (a * last - (a - b) * it) <= 4 * (grain() * last),
{
    let u = binary64::one_unit();
    let g = grain();
    let h = g * last;
    accuracy::lemma_grain();
    let e1 = d - (a - b);
    let e2 = q * last - it * u;
    let e3 = p * u - d * q;
    let e4 = s - (a - p);
    let r = s * last - (a * last - (a - b) * it);
    assert(r * u == (e4 * last) * u - e3 * last - d * e2 - (e1 * it) * u) by {
        let t1 = (s * last) * u;
        let t2 = (a * last) * u;
        let t3 = (p * last) * u;
        let t4 = (d * q) * last;
        let t5 = (d * it) * u;
        let t6 = ((a - b) * it) * u;
        assert(r * u == t1 - t2 + t6) by (nonlinear_arith)
            requires
                r == s * last - (a * last - (a - b) * it),
                t1 == (s * last) * u,
                t2 == (a * last) * u,
                t6 == ((a - b) * it) * u,
        ;
        assert((e4 * last) * u == t1 - t2 + t3) by (nonlinear_arith)
            requires
                e4 == s - (a - p),
                t1 == (s * last) * u,
                t2 == (a * last) * u,
                t3 == (p * last) * u,
        ;
        assert(e3 * last == t3 - t4) by (nonlinear_arith)
            requires
                e3 == p * u - d * q,
                t3 == (p * last) * u,
                t4 == (d * q) * last,
        ;
        assert(d * e2 == t4 - t5) by (nonlinear_arith)
            requires
                e2 == q * last - it * u,
                t4 == (d * q) * last,
                t5 == (d * it) * u,
        ;
        assert((e1 * it) * u == t5 - t6) by (nonlinear_arith)
            requires
                e1 == d - (a - b),
                t5 == (d * it) * u,
                t6 == ((a - b) * it) * u,
        ;
    }
    let hu = h * u;
    assert(-hu <= (e4 * last) * u <= hu) by (nonlinear_arith)
        requires
            -g <= e4 <= g,
            h == g * last,
            hu == h * u,
            last >= 0,
            u > 0,
    ;
    assert(-hu <= e3 * last <= hu) by (nonlinear_arith)
        requires
            -(g * u) <= e3 <= g * u,
            h == g * last,
            hu == h * u,
            last >= 0,
    ;
    assert(-hu <= d * e2 <= hu) by (nonlinear_arith)
        requires
            -h <= e2 <= h,
            0 <= d <= u,
            hu == h * u,
    ;
    assert(-hu <= (e1 * it) * u <= hu) by {
        assert(-h <= e1 * it <= h) by (nonlinear_arith)
            requires
                -g <= e1 <= g,
                0 <= it <= last,
                h == g * last,
                g > 0,
        ;
        assert(-hu <= (e1 * it) * u <= hu) by (nonlinear_arith)
            requires
                -h <= e1 * it <= h,
                hu == h * u,
                u > 0,
        ;
    }
    assert(-(4 * h) <= r <= 4 * h) by (nonlinear_arith)
        requires
            -(4 * hu) <= r * u <= 4 * hu,
            hu == h * u,
            u > 0,
    ;
}

// ---- distance ----

/// A root is off by at most one part in 2^51, squared.
pub proof fn lemma_root_error(x: Binary64)
    requires
        x.finite(),
        x.value() >= 0,
    ensures
        ({
            let r = x.root().value();
            let n = x.value() * binary64::one_unit();
            &&& x.root().finite()
            &&& r >= 0
            &&& -(r * r) <= (n - r * r) * 0x8_0000_0000_0000 <= r * r
        }),
{
    let u = binary64::one_unit();
    let n = x.value() * u;
    order::lemma_constants();
    order::lemma_value_sign(x);
    bounds::lemma_root_finite(x);
    reveal(Binary64::root);
    if x.payload() != 0 {
        let e = Exact::Root { n };
        let p = e.nearest();
        assert(n > 0 && n >= u) by (nonlinear_arith)
            requires
                n == x.value() * u,
                x.value() >= 1,
                u > 0,
        ;
        rounding::lemma_nearest_is(e);
        order::lemma_of(false, p);
        let r = x.root();
        let m = r.value();
        order::lemma_value_sign(r);
        assert(p < INFINITE) by {
            order::lemma_finite_bounds(r);
        }
        assert(m == rounding::magnitude(p));
        lemma2_to64();
        lemma2_to64_rest();
        rounding::lemma_split(p);
        let g = pow2(rounding::split_e(p) as nat) as int;
        lemma_pow2_pos(rounding::split_e(p) as nat);
        assert(g == 1 || g * HIDDEN <= m) by {
            if rounding::split_e(p) > 0 {
                assert(g * HIDDEN <= rounding::split_sig(p) * g) by (nonlinear_arith)
                    requires
                        rounding::split_sig(p) >= HIDDEN,
                        g > 0,
                ;
            }
        }
        // the root is far from the small numbers
        assert(m >= 0x40_0000_0000_0000) by {
            lemma_root_large(n, m, g);
        }
        assert(g * HIDDEN <= m);
        assert(4 * n <= (2 * m + g) * (2 * m + g)) by {
            assert(n * (pow2(1) * pow2(1)) == 4 * n) by (nonlinear_arith)
                requires
                    pow2(1) == 2,
            ;
            assert((m + (m + g)) * (m + (m + g)) == (2 * m + g) * (2 * m + g)) by (nonlinear_arith);
        }
        let q = rounding::magnitude(p - 1);
        assert(p > 0) by {
            if p == 0 {
                rounding::lemma_split(0);
            }
        }
        rounding::lemma_split(p - 1);
        lemma_pow2_pos(rounding::split_e(p - 1) as nat);
        let h = m - q;
        assert(h == 1 || h * HIDDEN <= m) by {
            if rounding::split_e(p - 1) > 0 {
                assert(h * HIDDEN <= rounding::split_sig(p - 1) * h) by (nonlinear_arith)
                    requires
                        rounding::split_sig(p - 1) >= HIDDEN,
                        h > 0,
                ;
            }
        }
        assert(4 * n >= (2 * m - h) * (2 * m - h)) by {
            assert(n * (pow2(1) * pow2(1)) == 4 * n) by (nonlinear_arith)
                requires
                    pow2(1) == 2,
            ;
            assert((q + m) * (q + m) == (2 * m - h) * (2 * m - h)) by (nonlinear_arith)
                requires
                    h == m - q,
            ;
        }
        lemma_square_bounds(n, m, g, h);
    } else {
        assert(n == 0) by (nonlinear_arith)
            requires
                n == x.value() * u,
                x.value() == 0,
        ;
    }
}

proof fn lemma_root_large(n: int, m: int, g: int)
    requires
        n >= binary64::one_unit(),
        m >= 0,
        g == 1 || g * HIDDEN <= m,
        g >= 1,
        n * (pow2(1) * pow2(1)) - (m + (m + g)) * (m + (m + g)) <= 0,
    ensures
        m >= 0x40_0000_0000_0000,
{
    lemma2_to64();
    lemma2_to64_rest();
    lemma_pow2_adds(60, 60);
    lemma_pow2_adds(120, 954);
    lemma_pow2_pos(954);
    let k = 0x1000_0000_0000_0000int;
    let w = pow2(954) as int;
    assert(binary64::one_unit() >= k * k) by (nonlinear_arith)
        requires
            binary64::one_unit() == (k * k) * w,
            w >= 1,
            k > 0,
    ;
    if m < 0x40_0000_0000_0000 {
        let y = 2 * m + g;
        assert(g <= 0x40_0000_0000_0000);
        assert(0 <= y < k);
        assert(y * y < k * k) by (nonlinear_arith)
            requires
                0 <= y < k,
        ;
        assert((m + (m + g)) * (m + (m + g)) == y * y) by (nonlinear_arith)
            requires
                y == 2 * m + g,
        ;
        assert(n * (pow2(1) * pow2(1)) == 4 * n) by (nonlinear_arith)
            requires
                pow2(1) == 2,
        ;
    }
}

proof fn lemma_square_bounds(n: int, m: int, g: int, h: int)
    requires
        m >= 0x40_0000_0000_0000,
        0 <= g,
        0 <= h,
        g * HIDDEN <= m,
        h == 1 || h * HIDDEN <= m,
        4 * n <= (2 * m + g) * (2 * m + g),
        4 * n >= (2 * m - h) * (2 * m - h),
    ensures
        -(m * m) <= (n - m * m) * 0x8_0000_0000_0000 <= m * m,
{
    let mm = m * m;
    assert((2 * m + g) * (2 * m + g) == 4 * mm + 4 * (m * g) + g * g) by (nonlinear_arith)
        requires
            mm == m * m,
    ;
    assert((2 * m - h) * (2 * m - h) == 4 * mm - 4 * (m * h) + h * h) by (nonlinear_arith)
        requires
            mm == m * m,
    ;
    assert((m * g) * 0x10_0000_0000_0000 <= mm) by (nonlinear_arith)
        requires
            g * 0x10_0000_0000_0000 <= m,
            mm == m * m,
            m >= 0,
    ;
    assert(g * g <= m * g) by (nonlinear_arith)
        requires
            0 <= g <= m,
    ;
    assert((m * h) * 0x10_0000_0000_0000 <= mm) by (nonlinear_arith)
        requires
            h * 0x10_0000_0000_0000 <= m,
            mm == m * m,
            m >= 0,
    ;
    assert(h * h >= 0 && m * g >= 0 && m * h >= 0) by (nonlinear_arith)
        requires
            h >= 0,
            g >= 0,
            m >= 0,
    ;
}

spec fn between(x: int, bound: int) -> bool {
    -bound <= x <= bound
}

/// A squared difference is off by little.
proof fn lemma_squared_difference(a: Binary64, b: Binary64)
    requires
        a.finite(),
        b.finite(),
        between(a.value(), unit(300)),
        between(b.value(), unit(300)),
    ensures
        ({
            let u = binary64::one_unit();
            let d = a.minus(b);
            let q = d.times(d);
            let exact = (a.value() - b.value()) * (a.value() - b.value());
            &&& q.finite()
            &&& 0 <= q.value() <= unit(602)
            &&& exact >= 0
            &&& -(exact + 2 * u * 0x4_0000_0000_0000) <= (q.value() * u - exact) * 0x4_0000_0000_0000 <= exact + 2 * u
                * 0x4_0000_0000_0000
        }),
{
    let u = binary64::one_unit();
    let d = a.minus(b);
    let w = a.value() - b.value();
    order::lemma_constants();
    bounds::lemma_plus_within(a, b, 300);
    order::lemma_negated(b);
    order::lemma_plus(a, b.negated());
    let x = if w < 0 { -w } else { w };
    let m = bounds::size(d);
    bounds::lemma_unit(301, 301);
    bounds::lemma_unit_doubles(300);
    bounds::lemma_rounded_at_most(x, 1, 301);
    rounding::lemma_nearest_is(Exact::Ratio { n: x, d: 1 });
    rounding::lemma_error(x, 1);
    assert(m == order::rounded(x, 1)) by {
        if w < 0 {
            binary64::lemma_magnitude_order((Exact::Ratio { n: x, d: 1 }).nearest(), 0);
        }
    }
    let e = x - m;
    assert(-m <= e * 0x20_0000_0000_0000 <= m);
    // the square
    bounds::lemma_times_within(d, d, 301, 301);
    bounds::lemma_times_size(d, d);
    let q = d.times(d).value();
    let mm = m * m;
    bounds::lemma_unit(301, 301);
    assert(mm >= 0 && mm <= unit(602) * u) by (nonlinear_arith)
        requires
            mm == m * m,
            0 <= m <= unit(301),
            unit(301) * unit(301) == unit(602) * u,
    ;
    bounds::lemma_rounded_at_most(mm, u, 602);
    rounding::lemma_error(mm, u);
    assert(q == order::rounded(mm, u));
    let exact = w * w;
    assert(exact == x * x) by (nonlinear_arith)
        requires
            exact == w * w,
            x == w || x == -w,
    ;
    lemma_squares_close(x, m, q, exact, mm);
}

proof fn lemma_squares_close(x: int, m: int, q: int, exact: int, mm: int)
    requires
        x >= 0,
        m >= 0,
        q >= 0,
        exact == x * x,
        mm == m * m,
        -m <= (x - m) * 0x20_0000_0000_0000 <= m,
        ({
            let u = binary64::one_unit();
            ||| -u <= 2 * (mm - q * u) <= u
            ||| -(q * u) <= (mm - q * u) * 0x20_0000_0000_0000 <= q * u
        }),
    ensures
        exact >= 0,
        ({
            let u = binary64::one_unit();
            let bound = exact + 2 * u * 0x4_0000_0000_0000;
            -bound <= (q * u - exact) * 0x4_0000_0000_0000 <= bound
        }),
{
    let u = binary64::one_unit();
    order::lemma_constants();
    let e = x - m;
    assert(exact - mm == e * (x + m)) by (nonlinear_arith)
        requires
            exact == x * x,
            mm == m * m,
            e == x - m,
    ;
    assert(m <= 2 * x);
    let xm = x + m;
    assert(-(6 * exact) <= (e * xm) * 0x20_0000_0000_0000 <= 6 * exact) by {
        assert(-(2 * x) <= e * 0x20_0000_0000_0000 <= 2 * x);
        let f = e * 0x20_0000_0000_0000;
        assert(-(6 * exact) <= f * xm <= 6 * exact) by (nonlinear_arith)
            requires
                -(2 * x) <= f <= 2 * x,
                0 <= xm <= 3 * x,
                exact == x * x,
                x >= 0,
        ;
        assert(f * xm == (e * xm) * 0x20_0000_0000_0000) by (nonlinear_arith)
            requires
                f == e * 0x20_0000_0000_0000,
        ;
    }
    assert(exact >= 0 && mm >= 0) by (nonlinear_arith)
        requires
            exact == x * x,
            mm == m * m,
    ;
    assert(mm <= 2 * exact);
    let qu = q * u;
    assert(2 * u * 0x4_0000_0000_0000 == 0x8_0000_0000_0000 * u) by (nonlinear_arith);
    if -u <= 2 * (mm - qu) <= u {
    } else {
        assert(qu <= 2 * mm);
        assert(-(4 * exact) <= (mm - qu) * 0x20_0000_0000_0000 <= 4 * exact);
    }
}

proof fn lemma_squares_in_numbers(a: Seq<Binary64>, b: Seq<Binary64>, n: nat)
    requires
        n <= a.len() <= 1024,
        a.len() == b.len(),
        forall|k: int|
            0 <= k < a.len() ==> (#[trigger] a[k]).finite() && between(a[k].value(), unit(300)),
        forall|k: int|
            0 <= k < b.len() ==> (#[trigger] b[k]).finite() && between(b[k].value(), unit(300)),
    ensures
        ({
            let u = binary64::one_unit();
            let s = embedding::squares(a, b, n);
            let exact = sum_of(
                Seq::new(n, |k: int| k),
                |k: int| (a[k].value() - b[k].value()) * (a[k].value() - b[k].value()),
            );
            let bound = n * exact + 0x8_0000_0000_0000 * (n * u);
            &&& s.finite()
            &&& 0 <= s.value() <= n * unit(603)
            &&& exact >= 0
            &&& -bound <= (s.value() * u - exact) * 0x2_0000_0000_0000 <= bound
        }),
    decreases n,
{
    let u = binary64::one_unit();
    let f = |k: int| (a[k].value() - b[k].value()) * (a[k].value() - b[k].value());
    let ks = Seq::new(n, |k: int| k);
    order::lemma_constants();
    counting::lemma_sum_last(ks, f);
    if n == 0 {
        assert(0 * unit(603) == 0) by (nonlinear_arith);
        assert(0 * u == 0) by (nonlinear_arith);
    } else {
        let m = (n - 1) as nat;
        let before = Seq::new(m, |k: int| k);
        assert(ks.drop_last() =~= before);
        lemma_squares_in_numbers(a, b, m);
        let s = embedding::squares(a, b, m);
        let e0 = sum_of(before, f);
        let x = a[n - 1];
        let y = b[n - 1];
        lemma_squared_difference(x, y);
        let d = x.minus(y);
        let q = d.times(d);
        bounds::lemma_unit(602, 614);
        bounds::lemma_unit(603, 614);
        bounds::lemma_unit_doubles(602);
        let c = unit(603);
        assert((m + 1) * c == m * c + c) by (nonlinear_arith);
        assert(m * c >= 0 && (m + 1) * c <= 1024 * c) by (nonlinear_arith)
            requires
                0 <= m,
                m + 1 <= 1024,
                c > 0,
        ;
        lemma2_to64();
        lemma_pow2_adds(11, (603 + 1074) as nat);
        assert(unit(614) == 2048 * c);
        accuracy::lemma_plus_close(s, q, 614);
        order::lemma_plus_error(s, q);
        order::lemma_plus(s, q);
        order::lemma_rounded_exact(Binary64::zero(), 1);
        order::lemma_rounded_grows(0, 1, s.value() + q.value(), 1);
        let t = s.plus(q).value();
        let term = f(n - 1);
        assert(t <= (m + 1) * c) by {
            lemma_sum_below(s, q, m as int, c);
        }
        lemma_next_square(s.value(), q.value(), t, e0, term, m as int);
    }
}

proof fn lemma_sum_below(s: Binary64, q: Binary64, m: int, c: int)
    requires
        s.finite(),
        q.finite(),
        0 <= m < 1024,
        c == unit(603),
        0 <= s.value() <= m * c,
        0 <= q.value(),
        2 * q.value() <= c,
        -s.plus(q).value() <= (s.value() + q.value() - s.plus(q).value()) * 0x20_0000_0000_0000 <= s.plus(q).value(),
    ensures
        s.plus(q).value() <= (m + 1) * c,
{
    let t = s.plus(q).value();
    let x = s.value() + q.value();
    bounds::lemma_unit(603, 603);
    assert(t * 0x1f_ffff_ffff_ffff <= x * 0x20_0000_0000_0000);
    let y = m * c;
    assert((m + 1) * c == y + c) by (nonlinear_arith)
        requires
            y == m * c,
    ;
    assert(y <= 1024 * c) by (nonlinear_arith)
        requires
            y == m * c,
            m <= 1024,
            c > 0,
    ;
}

proof fn lemma_next_square(s: int, q: int, t: int, e0: int, term: int, m: int)
    requires
        0 <= m < 1024,
        s >= 0,
        q >= 0,
        t >= 0,
        e0 >= 0,
        term >= 0,
        -t <= (s + q - t) * 0x20_0000_0000_0000 <= t,
        ({
            let u = binary64::one_unit();
            let bound = m * e0 + 0x8_0000_0000_0000 * (m * u);
            -bound <= (s * u - e0) * 0x2_0000_0000_0000 <= bound
        }),
        ({
            let u = binary64::one_unit();
            let bound = term + 2 * u * 0x4_0000_0000_0000;
            -bound <= (q * u - term) * 0x4_0000_0000_0000 <= bound
        }),
    ensures
        ({
            let u = binary64::one_unit();
            let bound = (m + 1) * (e0 + term) + 0x8_0000_0000_0000 * ((m + 1) * u);
            -bound <= (t * u - (e0 + term)) * 0x2_0000_0000_0000 <= bound
        }),
{
    let u = binary64::one_unit();
    order::lemma_constants();
    let all = e0 + term;
    let (su, qu, tu) = (s * u, q * u, t * u);
    let mu = m * u;
    let me = m * e0;
    assert(2 * u * 0x4_0000_0000_0000 == 0x8_0000_0000_0000 * u) by (nonlinear_arith);
    assert(0 <= me <= 1024 * e0 && 0 <= mu <= 1024 * u) by (nonlinear_arith)
        requires
            me == m * e0,
            mu == m * u,
            0 <= m < 1024,
            e0 >= 0,
            u > 0,
    ;
    let z = s + q - t;
    assert(-tu <= (z * u) * 0x20_0000_0000_0000 <= tu) by (nonlinear_arith)
        requires
            -t <= z * 0x20_0000_0000_0000 <= t,
            tu == t * u,
            u > 0,
    ;
    assert(z * u == su + qu - tu) by (nonlinear_arith)
        requires
            z == s + q - t,
            su == s * u,
            qu == q * u,
            tu == t * u,
    ;
    assert((m + 1) * all == me + m * term + all) by (nonlinear_arith)
        requires
            all == e0 + term,
            me == m * e0,
    ;
    assert(m * term >= 0) by (nonlinear_arith)
        requires
            m >= 0,
            term >= 0,
    ;
    assert((m + 1) * u == mu + u) by (nonlinear_arith)
        requires
            mu == m * u,
    ;
    assert(tu <= 2 * all + 0x2000 * u);
}

/// The distance of two nodes is Euclidean: its square is the sum of the squared differences of their
/// coordinates, off by at most one part in 2^48 for each coordinate and the rounding of tiny numbers.
pub proof fn lemma_distance_in_numbers(a: Seq<Binary64>, b: Seq<Binary64>)
    requires
        a.len() == b.len(),
        0 < a.len() <= 1024,
        forall|k: int|
            0 <= k < a.len() ==> (#[trigger] a[k]).finite() && -unit(300) <= a[k].value() <= unit(300),
        forall|k: int|
            0 <= k < b.len() ==> (#[trigger] b[k]).finite() && -unit(300) <= b[k].value() <= unit(300),
    ensures
        ({
            let r = embedding::distance(a, b).value();
            let exact = sum_of(
                Seq::new(a.len(), |k: int| k),
                |k: int| (a[k].value() - b[k].value()) * (a[k].value() - b[k].value()),
            );
            let slack = 2 * (a.len() * (exact + 0x8_0000_0000_0000 * binary64::one_unit()));
            &&& embedding::distance(a, b).finite()
            &&& r >= 0
            &&& -slack <= (r * r - exact) * 0x2_0000_0000_0000 <= slack
        }),
{
    let u = binary64::one_unit();
    let n = a.len();
    let s = embedding::squares(a, b, n);
    let f = |k: int| (a[k].value() - b[k].value()) * (a[k].value() - b[k].value());
    let exact = sum_of(Seq::new(n, |k: int| k), f);
    order::lemma_constants();
    lemma_squares_in_numbers(a, b, n);
    lemma_root_error(s);
    let r = s.root().value();
    let rr = r * r;
    let su = s.value() * u;
    let ne = n * exact;
    let nu = n * u;
    assert(ne >= exact && nu >= u && ne <= 1024 * exact && nu <= 1024 * u) by (nonlinear_arith)
        requires
            ne == n * exact,
            nu == n * u,
            1 <= n <= 1024,
            exact >= 0,
            u > 0,
    ;
    assert(n * (exact + 0x8_0000_0000_0000 * u) == ne + 0x8_0000_0000_0000 * nu) by (nonlinear_arith)
        requires
            ne == n * exact,
            nu == n * u,
    ;
    assert(rr <= 2 * su);
    assert(su <= 2 * exact + 0x2000 * u);
}

// ---- springs ----

proof fn lemma_moves(x: Binary64, delta: Binary64)
    requires
        x.finite(),
        delta.finite(),
        between(x.value(), unit(300)),
        between(delta.value(), unit(700)),
    ensures
        delta.value() >= 0 ==> x.minus(delta).value() <= x.value() <= x.plus(delta).value(),
        delta.value() <= 0 ==> x.plus(delta).value() <= x.value() <= x.minus(delta).value(),
{
    order::lemma_negated(delta);
    order::lemma_plus(x, delta);
    order::lemma_plus(x, delta.negated());
    order::lemma_rounded_exact(x, 1);
    let (v, d) = (x.value(), delta.value());
    if d >= 0 {
        order::lemma_rounded_grows(v - d, 1, v, 1);
        order::lemma_rounded_grows(v, 1, v + d, 1);
    }
    if d <= 0 {
        order::lemma_rounded_grows(v, 1, v - d, 1);
        order::lemma_rounded_grows(v + d, 1, v, 1);
    }
}

proof fn lemma_difference_sign(x: Binary64, y: Binary64, e: int)
    requires
        x.finite(),
        y.finite(),
        0 <= e <= 900,
        between(x.value(), unit(e)),
        between(y.value(), unit(e)),
    ensures
        bounds::within(x.minus(y), e + 1),
        x.value() >= y.value() ==> x.minus(y).value() >= 0,
        x.value() <= y.value() ==> x.minus(y).value() <= 0,
{
    order::lemma_constants();
    bounds::lemma_plus_within(x, y, e);
    order::lemma_negated(y);
    order::lemma_plus(x, y.negated());
    order::lemma_rounded_exact(Binary64::zero(), 1);
    if x.value() >= y.value() {
        order::lemma_rounded_grows(0, 1, x.value() - y.value(), 1);
    }
    if x.value() <= y.value() {
        order::lemma_rounded_grows(x.value() - y.value(), 1, 0, 1);
    }
}

proof fn lemma_push(x: Binary64, y: Binary64, force: Binary64, d: Binary64)
    requires
        x.finite(),
        y.finite(),
        between(x.value(), unit(300)),
        between(y.value(), unit(300)),
        bounds::within(force, 310),
        d.finite(),
        unit(-30) <= d.value(),
    ensures
        ({
            let delta = force.times(x.minus(y).over(d));
            let x2 = x.minus(delta).value();
            let y2 = y.plus(delta).value();
            &&& force.value() >= 0 && x.value() >= y.value() ==> x2 <= x.value() && y2 >= y.value()
            &&& force.value() >= 0 && x.value() <= y.value() ==> x2 >= x.value() && y2 <= y.value()
            &&& force.value() <= 0 && x.value() >= y.value() ==> x2 >= x.value() && y2 <= y.value()
            &&& force.value() <= 0 && x.value() <= y.value() ==> x2 <= x.value() && y2 >= y.value()
        }),
{
    let w = x.minus(y);
    order::lemma_constants();
    bounds::lemma_unit(-30, -30);
    lemma_difference_sign(x, y, 300);
    bounds::lemma_over_within(w, d, 301, -30);
    bounds::lemma_over_size(w, d);
    let q = w.over(d);
    bounds::lemma_times_within(force, q, 310, 331);
    bounds::lemma_times_size(force, q);
    let delta = force.times(q);
    bounds::lemma_unit(641, 700);
    lemma_moves(x, delta);
    lemma_moves(y, delta);
}

proof fn lemma_distance_bounded(a: Seq<Binary64>, b: Seq<Binary64>)
    requires
        a.len() == b.len(),
        0 < a.len() <= 1024,
        forall|k: int|
            0 <= k < a.len() ==> (#[trigger] a[k]).finite() && between(a[k].value(), unit(300)),
        forall|k: int|
            0 <= k < b.len() ==> (#[trigger] b[k]).finite() && between(b[k].value(), unit(300)),
    ensures
        bounds::within(embedding::distance(a, b), 307),
        embedding::distance(a, b).value() >= 0,
{
    let n = a.len();
    let s = embedding::squares(a, b, n);
    lemma_squares_in_numbers(a, b, n);
    let c = unit(603);
    bounds::lemma_unit(603, 614);
    lemma2_to64();
    lemma_pow2_adds(11, (603 + 1074) as nat);
    assert(n * c <= 1024 * c) by (nonlinear_arith)
        requires
            n <= 1024,
            c > 0,
    ;
    bounds::lemma_root_within(s, 307);
}

/// A spring moves its two ends towards each other where they are farther apart than its rest length, and
/// apart where they are nearer, coordinate by coordinate, unless they all but coincide; and it moves no
/// other node.
pub proof fn lemma_springs_act_towards_their_rest(
    pos: Seq<Seq<Binary64>>,
    s: SpringView,
    step: Binary64,
    dims: nat,
    k: int,
)
    requires
        0 <= s.i < pos.len(),
        0 <= s.j < pos.len(),
        s.i != s.j,
        0 < dims <= 1024,
        pos[s.i].len() == dims,
        pos[s.j].len() == dims,
        forall|m: int|
            0 <= m < dims ==> (#[trigger] pos[s.i][m]).finite() && -unit(300) <= pos[s.i][m].value() <= unit(300),
        forall|m: int|
            0 <= m < dims ==> (#[trigger] pos[s.j][m]).finite() && -unit(300) <= pos[s.j][m].value() <= unit(300),
        step.finite(),
        0 <= step.value() <= binary64::one_unit(),
        s.confidence.finite(),
        0 <= s.confidence.value() <= binary64::one_unit(),
        s.rest.finite(),
        0 <= s.rest.value() <= unit(300),
        0 <= k < dims,
    ensures
        ({
            let after = embedding::pulled(pos, s, step, dims);
            let d = embedding::distance(pos[s.i], pos[s.j]).value();
            let (x, y) = (pos[s.i][k].value(), pos[s.j][k].value());
            let (x2, y2) = (after[s.i][k].value(), after[s.j][k].value());
            &&& after.len() == pos.len()
            &&& forall|m: int| 0 <= m < pos.len() && m != s.i && m != s.j ==> #[trigger] after[m] == pos[m]
            &&& d * 0x2000_0000 >= binary64::one_unit() ==> {
                &&& d >= s.rest.value() && x >= y ==> x2 <= x && y2 >= y
                &&& d >= s.rest.value() && x <= y ==> x2 >= x && y2 <= y
                &&& d <= s.rest.value() && x >= y ==> x2 >= x && y2 <= y
                &&& d <= s.rest.value() && x <= y ==> x2 <= x && y2 >= y
            }
        }),
{
    let u = binary64::one_unit();
    let a = pos[s.i];
    let b = pos[s.j];
    let d = embedding::distance(a, b);
    let least = Binary64::fraction(1, 1_000_000_000);
    order::lemma_constants();
    accuracy::lemma_grain();
    lemma2_to64();
    lemma2_to64_rest();
    lemma_pow2_adds(29, 1045);
    assert(unit(-29) * 0x2000_0000 == u);
    bounds::lemma_unit(-30, -29);
    lemma_distance_bounded(a, b);
    if d.value() * 0x2000_0000 >= u {
        order::lemma_dyadic(1, 29);
        order::lemma_fraction_ordered(1, 1_000_000_000, 1, 0x2000_0000);
        let rate = step.times(s.confidence);
        accuracy::lemma_share_of(step, s.confidence);
        bounds::lemma_unit(300, 308);
        bounds::lemma_unit(307, 308);
        lemma_difference_sign(d, s.rest, 308);
        let gap = d.minus(s.rest);
        bounds::lemma_times_within(rate, gap, 0, 309);
        bounds::lemma_times_size(rate, gap);
        let force = rate.times(gap);
        bounds::lemma_unit(309, 310);
        lemma_push(a[k], b[k], force, d);
    }
}

/// A spring stands for an edge between two listed nodes: its ends are theirs, its rest length is the RTT,
/// at least a thousandth, and its confidence that of the samples.
pub proof fn lemma_springs_stand_for_edges(ids: Seq<Seq<char>>, edges: Seq<MeshEdgeView>, k: int) -> (e: int)
    requires
        0 <= k < embedding::springs(ids, edges).len(),
    ensures
        ({
            let s = embedding::springs(ids, edges)[k];
            let least = Binary64::fraction(1, 1000);
            &&& 0 <= e < edges.len()
            &&& 0 <= s.i < ids.len() && ids[s.i] == edges[e].a
            &&& 0 <= s.j < ids.len() && ids[s.j] == edges[e].b
            &&& s.i != s.j
            &&& s.confidence == embedding::confidence(edges[e].samples)
            &&& edges[e].rtt_ms.finite() && edges[e].rtt_ms.value() >= least.value() ==> s.rest == edges[e].rtt_ms
            &&& edges[e].rtt_ms.finite() && edges[e].rtt_ms.value() < least.value() ==> s.rest == least
        }),
    decreases edges.len(),
{
    let before = embedding::springs(ids, edges.drop_last());
    accuracy::lemma_proper_fraction(1, 1000);
    if k < before.len() {
        let e = lemma_springs_stand_for_edges(ids, edges.drop_last(), k);
        assert(embedding::springs(ids, edges)[k] == before[k]);
        e
    } else {
        let e = edges.last();
        roster::lemma_position(ids, e.a);
        roster::lemma_position(ids, e.b);
        edges.len() - 1
    }
}

proof fn lemma_rtt_sum(edges: Seq<MeshEdgeView>)
    requires
        edges.len() <= u32::MAX,
        forall|k: int| 0 <= k < edges.len() ==> (#[trigger] edges[k]).rtt_ms.finite() && edges[k].rtt_ms.value() >= 0,
        sum_of(edges, |e: MeshEdgeView| e.rtt_ms.value()) <= unit(900),
    ensures
        ({
            let r = embedding::rtt_sum(edges);
            let t = sum_of(edges, |e: MeshEdgeView| e.rtt_ms.value());
            let n = edges.len() as int;
            &&& r.finite()
            &&& 0 <= t
            &&& 0 <= r.value() <= 2 * t
            &&& -(2 * (n * t)) <= (r.value() - t) * 0x20_0000_0000_0000 <= 2 * (n * t)
        }),
    decreases edges.len(),
{
    let f = |e: MeshEdgeView| e.rtt_ms.value();
    order::lemma_constants();
    counting::lemma_sum_last(edges, f);
    if edges.len() > 0 {
        let rest = edges.drop_last();
        assert forall|k: int| 0 <= k < rest.len() implies (#[trigger] rest[k]).rtt_ms.finite() && rest[k].rtt_ms.value()
            >= 0 by {
            assert(rest[k] == edges[k]);
        }
        assert(edges[edges.len() - 1].rtt_ms.value() >= 0);
        lemma_rtt_sum(rest);
        accuracy::lemma_running_sum(
            embedding::rtt_sum(rest),
            edges.last().rtt_ms,
            sum_of(rest, f),
            rest.len() as int,
        );
    }
}

/// The scale of the first layout is the mean RTT of the edges, off by at most two parts in 2^53 for each of
/// them and four more, and the rounding of tiny numbers; 50 ms without edges.
pub proof fn lemma_scale_is_the_mean(edges: Seq<MeshEdgeView>)
    requires
        edges.len() <= u32::MAX,
        forall|k: int| 0 <= k < edges.len() ==> (#[trigger] edges[k]).rtt_ms.finite() && edges[k].rtt_ms.value() >= 0,
        sum_of(edges, |e: MeshEdgeView| e.rtt_ms.value()) <= unit(900),
    ensures
        ({
            let m = embedding::mean_rtt(edges);
            let t = sum_of(edges, |e: MeshEdgeView| e.rtt_ms.value());
            let n = edges.len() as int;
            let slack = 2 * ((n + 2) * t) + 0x10_0000_0000_0000 * n;
            &&& m.finite()
            &&& n == 0 ==> m.value() == 50 * binary64::one_unit()
            &&& n > 0 ==> -slack <= (m.value() * n - t) * 0x20_0000_0000_0000 <= slack
        }),
{
    let u = binary64::one_unit();
    let c = edges.len() as int;
    let t = sum_of(edges, |e: MeshEdgeView| e.rtt_ms.value());
    order::lemma_constants();
    order::lemma_whole_number(50);
    lemma_rtt_sum(edges);
    if c > 0 {
        let s = embedding::rtt_sum(edges);
        let d = Binary64::fraction(c, 1);
        order::lemma_whole_number(c);
        assert(c * u >= u) by (nonlinear_arith)
            requires
                c >= 1,
                u > 0,
        ;
        bounds::lemma_unit(0, 901);
        bounds::lemma_unit_doubles(900);
        bounds::lemma_over_within(s, d, 901, 0);
        bounds::lemma_over_size(s, d);
        order::lemma_over_error(s, d);
        let r = s.over(d).value();
        let rc = r * c;
        let z = s.value() - rc;
        assert(s.value() * u - r * (c * u) == z * u) by (nonlinear_arith)
            requires
                z == s.value() - r * c,
        ;
        assert((c + 2) * t == c * t + 2 * t) by (nonlinear_arith);
        let slack = 2 * ((c + 2) * t) + 0x10_0000_0000_0000 * c;
        if -(c * u) <= 2 * (z * u) <= c * u {
            assert(-c <= 2 * z <= c) by (nonlinear_arith)
                requires
                    -(c * u) <= 2 * (z * u) <= c * u,
                    u > 0,
            ;
            assert(-slack <= (rc - t) * 0x20_0000_0000_0000 <= slack);
        } else {
            assert(-rc <= z * 0x20_0000_0000_0000 <= rc) by (nonlinear_arith)
                requires
                    -(r * (c * u)) <= (z * u) * 0x20_0000_0000_0000 <= r * (c * u),
                    rc == r * c,
                    u > 0,
            ;
            assert(rc <= 4 * t);
            assert(-slack <= (rc - t) * 0x20_0000_0000_0000 <= slack);
        }
    }
}

} // verus!
