//! What a score is made of, in numbers.

use crate::accuracy::{self, grain};
use crate::api::{JobSpecView, Objective, Weights};
use crate::binary64::{self, Binary64};
use crate::bounds::{self, unit};
use crate::candidate::CandidateView;
use crate::latency::LatencyModel;
use crate::order;
use crate::preferences::{self, in_unit};
use crate::scorer::{self, Trust};
use vstd::prelude::*;

verus! {

/// Four weighted axes, before clamping.
spec fn mixed(w: Weights, l: Binary64, f: Binary64, t: Binary64, p: Binary64) -> Binary64 {
    w.w_l.times(l).plus(w.w_b.times(f)).plus(w.w_t.times(t)).plus(w.w_p.times(p))
}

proof fn lemma_mixed_close(w: Weights, l: Binary64, f: Binary64, t: Binary64, p: Binary64)
    requires
        in_unit(w.w_l) && in_unit(w.w_b) && in_unit(w.w_t) && in_unit(w.w_p),
        in_unit(l) && in_unit(f) && in_unit(t) && in_unit(p),
    ensures
        scorer::blend(w, l, f, t, p) == mixed(w, l, f, t, p).clamped(),
        mixed(w, l, f, t, p).finite(),
        mixed(w, l, f, t, p).value() >= 0,
        ({
            let s = w.w_l.value() * l.value() + w.w_b.value() * f.value() + w.w_t.value() * t.value() + w.w_p.value()
                * p.value();
            let e = mixed(w, l, f, t, p).value() * binary64::one_unit() - s;
            -(18 * grain() * binary64::one_unit()) <= e <= 18 * grain() * binary64::one_unit()
        }),
{
    let u = binary64::one_unit();
    let g = grain();
    let a = w.w_l.times(l);
    let b = w.w_b.times(f);
    let c = w.w_t.times(t);
    let d = w.w_p.times(p);
    let x = a.plus(b);
    let y = x.plus(c);
    let z = y.plus(d);
    order::lemma_constants();
    accuracy::lemma_grain();
    accuracy::lemma_share_of(w.w_l, l);
    accuracy::lemma_share_of(w.w_b, f);
    accuracy::lemma_share_of(w.w_t, t);
    accuracy::lemma_share_of(w.w_p, p);
    accuracy::lemma_plus_close(a, b, 1);
    accuracy::lemma_plus_close(x, c, 2);
    order::lemma_plus_nonnegative(a, b);
    order::lemma_plus_nonnegative(x, c);
    accuracy::lemma_plus_close(y, d, 3);
    order::lemma_plus_nonnegative(y, d);
    let e = z.value() - (a.value() + b.value() + c.value() + d.value());
    assert(-(14 * g) <= e <= 14 * g);
    assert(-(14 * g * u) <= e * u <= 14 * g * u) by (nonlinear_arith)
        requires
            -(14 * g) <= e <= 14 * g,
            u > 0,
    ;
    assert(e * u == z.value() * u - (a.value() * u + b.value() * u + c.value() * u + d.value() * u)) by (nonlinear_arith)
        requires
            e == z.value() - (a.value() + b.value() + c.value() + d.value()),
    ;
    let gu = g * u;
    assert(14 * g * u == 14 * gu && 18 * g * u == 18 * gu) by (nonlinear_arith)
        requires
            gu == g * u,
    ;
}

/// The blend is the sum of the four axes, each times its own weight, at most one, to within one part in
/// 2^48.
pub proof fn lemma_blend_is_the_weighted_sum(w: Weights, l: Binary64, f: Binary64, t: Binary64, p: Binary64)
    requires
        in_unit(w.w_l) && in_unit(w.w_b) && in_unit(w.w_t) && in_unit(w.w_p),
        in_unit(l) && in_unit(f) && in_unit(t) && in_unit(p),
    ensures
        ({
            let u = binary64::one_unit();
            let s = w.w_l.value() * l.value() + w.w_b.value() * f.value() + w.w_t.value() * t.value() + w.w_p.value()
                * p.value();
            let r = scorer::blend(w, l, f, t, p).value();
            &&& s <= u * u ==> -(u * u) <= (r * u - s) * 0x1_0000_0000_0000 <= u * u
            &&& s > u * u ==> -(u * u) <= (r * u - u * u) * 0x1_0000_0000_0000 <= u * u
        }),
{
    let u = binary64::one_unit();
    let g = grain();
    let z = mixed(w, l, f, t, p);
    let r = scorer::blend(w, l, f, t, p);
    let s = w.w_l.value() * l.value() + w.w_b.value() * f.value() + w.w_t.value() * t.value() + w.w_p.value()
        * p.value();
    order::lemma_constants();
    accuracy::lemma_grain();
    lemma_mixed_close(w, l, f, t, p);
    assert(u * u == 0x20_0000_0000_0000 * (g * u)) by (nonlinear_arith)
        requires
            u == 0x20_0000_0000_0000 * g,
    ;
    assert(18 * g * u == 18 * (g * u)) by (nonlinear_arith);
    assert(g * u > 0) by (nonlinear_arith)
        requires
            g > 0,
            u > 0,
    ;
    assert(z.value() > u ==> z.value() * u > u * u) by (nonlinear_arith)
        requires
            u > 0,
    ;
    assert(z.value() <= u ==> z.value() * u <= u * u) by (nonlinear_arith)
        requires
            u > 0,
    ;
}

proof fn lemma_term_vanishes(w: Binary64, x: Binary64)
    requires
        in_unit(w),
        in_unit(x),
        w.value() == 0,
    ensures
        w.times(x).finite(),
        w.times(x).value() == 0,
{
    order::lemma_constants();
    accuracy::lemma_share_of(w, x);
    order::lemma_times(w, x);
    order::lemma_rounded_exact(Binary64::zero(), binary64::one_unit());
    assert(w.value() * x.value() == 0) by (nonlinear_arith)
        requires
            w.value() == 0,
    ;
}

proof fn lemma_term_stays(w: Binary64, x: Binary64)
    requires
        in_unit(w),
        in_unit(x),
        w.value() == binary64::one_unit(),
    ensures
        w.times(x).finite(),
        w.times(x).value() == x.value(),
{
    order::lemma_constants();
    accuracy::lemma_share_of(w, x);
    order::lemma_times(w, x);
    order::lemma_rounded_exact(x, binary64::one_unit());
    assert(w.value() * x.value() == x.value() * w.value()) by (nonlinear_arith);
}

proof fn lemma_plus_nothing(a: Binary64, b: Binary64)
    requires
        in_unit(a),
        in_unit(b),
    ensures
        b.value() == 0 ==> in_unit(a.plus(b)) && a.plus(b).value() == a.value(),
        a.value() == 0 ==> in_unit(a.plus(b)) && a.plus(b).value() == b.value(),
{
    order::lemma_constants();
    accuracy::lemma_grain();
    accuracy::lemma_plus_close(a, b, 1);
    order::lemma_plus(a, b);
    order::lemma_rounded_exact(a, 1);
    order::lemma_rounded_exact(b, 1);
}

/// Each weight acts on its own axis: where one of the weights is one and the others are zero, the blend
/// is the axis of that weight.
pub proof fn lemma_each_weight_acts_on_its_own_axis(w: Weights, l: Binary64, f: Binary64, t: Binary64, p: Binary64)
    requires
        in_unit(w.w_l) && in_unit(w.w_b) && in_unit(w.w_t) && in_unit(w.w_p),
        in_unit(l) && in_unit(f) && in_unit(t) && in_unit(p),
        w.w_l.value() + w.w_b.value() + w.w_t.value() + w.w_p.value() == binary64::one_unit(),
    ensures
        w.w_l.value() == binary64::one_unit() ==> scorer::blend(w, l, f, t, p).value() == l.value(),
        w.w_b.value() == binary64::one_unit() ==> scorer::blend(w, l, f, t, p).value() == f.value(),
        w.w_t.value() == binary64::one_unit() ==> scorer::blend(w, l, f, t, p).value() == t.value(),
        w.w_p.value() == binary64::one_unit() ==> scorer::blend(w, l, f, t, p).value() == p.value(),
{
    let u = binary64::one_unit();
    order::lemma_constants();
    if w.w_l.value() == u || w.w_b.value() == u || w.w_t.value() == u || w.w_p.value() == u {
        if w.w_l.value() == u {
            lemma_term_stays(w.w_l, l);
        } else {
            lemma_term_vanishes(w.w_l, l);
        }
        if w.w_b.value() == u {
            lemma_term_stays(w.w_b, f);
        } else {
            lemma_term_vanishes(w.w_b, f);
        }
        if w.w_t.value() == u {
            lemma_term_stays(w.w_t, t);
        } else {
            lemma_term_vanishes(w.w_t, t);
        }
        if w.w_p.value() == u {
            lemma_term_stays(w.w_p, p);
        } else {
            lemma_term_vanishes(w.w_p, p);
        }
        let a = w.w_l.times(l);
        let b = w.w_b.times(f);
        let c = w.w_t.times(t);
        let d = w.w_p.times(p);
        lemma_plus_nothing(a, b);
        lemma_plus_nothing(a.plus(b), c);
        lemma_plus_nothing(a.plus(b).plus(c), d);
    }
}

/// An axis with a weight of zero has no part in the blend.
pub proof fn lemma_a_zero_weight_mutes_its_axis(
    w: Weights,
    l: Binary64,
    f: Binary64,
    t: Binary64,
    p: Binary64,
    other: Binary64,
)
    requires
        in_unit(w.w_l) && in_unit(w.w_b) && in_unit(w.w_t) && in_unit(w.w_p),
        in_unit(l) && in_unit(f) && in_unit(t) && in_unit(p),
        in_unit(other),
    ensures
        w.w_l.value() == 0 ==> scorer::blend(w, l, f, t, p).value() == scorer::blend(w, other, f, t, p).value(),
        w.w_b.value() == 0 ==> scorer::blend(w, l, f, t, p).value() == scorer::blend(w, l, other, t, p).value(),
        w.w_t.value() == 0 ==> scorer::blend(w, l, f, t, p).value() == scorer::blend(w, l, f, other, p).value(),
        w.w_p.value() == 0 ==> scorer::blend(w, l, f, t, p).value() == scorer::blend(w, l, f, t, other).value(),
{
    order::lemma_constants();
    lemma_mixed_of_values(w, l, f, t, p, w, other, f, t, p);
    lemma_mixed_of_values(w, l, f, t, p, w, l, other, t, p);
    lemma_mixed_of_values(w, l, f, t, p, w, l, f, other, p);
    lemma_mixed_of_values(w, l, f, t, p, w, l, f, t, other);
}

proof fn lemma_same_term(v: Binary64, x: Binary64, w: Binary64, y: Binary64)
    requires
        in_unit(v) && in_unit(x) && in_unit(w) && in_unit(y),
        v.value() == w.value(),
        v.value() == 0 || x.value() == y.value(),
    ensures
        v.times(x).value() == w.times(y).value(),
        in_unit(v.times(x)),
        in_unit(w.times(y)),
{
    order::lemma_constants();
    accuracy::lemma_share_of(v, x);
    accuracy::lemma_share_of(w, y);
    if v.value() == 0 {
        lemma_term_vanishes(v, x);
        lemma_term_vanishes(w, y);
    } else {
        order::lemma_times(v, x);
        order::lemma_times(w, y);
    }
}

/// The blend depends on the numbers alone, and not on those of an axis with a weight of zero.
proof fn lemma_mixed_of_values(
    w: Weights,
    l: Binary64,
    f: Binary64,
    t: Binary64,
    p: Binary64,
    v: Weights,
    k: Binary64,
    e: Binary64,
    s: Binary64,
    q: Binary64,
)
    requires
        in_unit(w.w_l) && in_unit(w.w_b) && in_unit(w.w_t) && in_unit(w.w_p),
        in_unit(v.w_l) && in_unit(v.w_b) && in_unit(v.w_t) && in_unit(v.w_p),
        in_unit(l) && in_unit(f) && in_unit(t) && in_unit(p),
        in_unit(k) && in_unit(e) && in_unit(s) && in_unit(q),
    ensures
        w.w_l.value() == v.w_l.value() && w.w_b.value() == v.w_b.value() && w.w_t.value() == v.w_t.value()
            && w.w_p.value() == v.w_p.value() && (w.w_l.value() == 0 || l.value() == k.value()) && (w.w_b.value() == 0
            || f.value() == e.value()) && (w.w_t.value() == 0 || t.value() == s.value()) && (w.w_p.value() == 0
            || p.value() == q.value()) ==> scorer::blend(w, l, f, t, p).value() == scorer::blend(v, k, e, s, q).value(),
{
    order::lemma_constants();
    if w.w_l.value() == v.w_l.value() && w.w_b.value() == v.w_b.value() && w.w_t.value() == v.w_t.value()
        && w.w_p.value() == v.w_p.value() && (w.w_l.value() == 0 || l.value() == k.value()) && (w.w_b.value() == 0
        || f.value() == e.value()) && (w.w_t.value() == 0 || t.value() == s.value()) && (w.w_p.value() == 0
        || p.value() == q.value()) {
        lemma_same_term(w.w_l, l, v.w_l, k);
        lemma_same_term(w.w_b, f, v.w_b, e);
        lemma_same_term(w.w_t, t, v.w_t, s);
        lemma_same_term(w.w_p, p, v.w_p, q);
        lemma_mixed_close(w, l, f, t, p);
        lemma_mixed_close(v, k, e, s, q);
        accuracy::lemma_grain();
        let a = w.w_l.times(l);
        let b = w.w_b.times(f);
        let c = w.w_t.times(t);
        let d = w.w_p.times(p);
        let a2 = v.w_l.times(k);
        let b2 = v.w_b.times(e);
        let c2 = v.w_t.times(s);
        let d2 = v.w_p.times(q);
        accuracy::lemma_plus_close(a, b, 1);
        accuracy::lemma_plus_close(a2, b2, 1);
        order::lemma_plus(a, b);
        order::lemma_plus(a2, b2);
        accuracy::lemma_plus_close(a.plus(b), c, 2);
        accuracy::lemma_plus_close(a2.plus(b2), c2, 2);
        order::lemma_plus(a.plus(b), c);
        order::lemma_plus(a2.plus(b2), c2);
        order::lemma_plus(a.plus(b).plus(c), d);
        order::lemma_plus(a2.plus(b2).plus(c2), d2);
    }
}

// ---- weights ----

spec fn total(o: Weights) -> int {
    o.w_l.value() + o.w_b.value() + o.w_t.value() + o.w_p.value()
}

proof fn lemma_small_sum(a: Binary64, b: Binary64, e: int)
    requires
        a.finite(),
        b.finite(),
        0 <= a.value(),
        0 <= b.value(),
        a.value() + b.value() <= unit(e),
        -1021 <= e <= 971,
    ensures
        ({
            let s = a.plus(b).value();
            &&& a.plus(b).finite()
            &&& 0 <= s <= unit(e)
            &&& a.value() <= s && b.value() <= s
            &&& -s <= (a.value() + b.value() - s) * 0x20_0000_0000_0000 <= s
        }),
{
    order::lemma_constants();
    accuracy::lemma_plus_close(a, b, e);
    order::lemma_plus_nonnegative(a, b);
    order::lemma_plus_error(a, b);
    order::lemma_plus(a, b);
    order::lemma_rounded_exact(a, 1);
    order::lemma_rounded_exact(b, 1);
    order::lemma_rounded_grows(a.value(), 1, a.value() + b.value(), 1);
    order::lemma_rounded_grows(b.value(), 1, a.value() + b.value(), 1);
}

/// The double that stands for the sum of the weights.
proof fn lemma_total(o: Weights) -> (d: int)
    requires
        o.w_l.finite() && o.w_b.finite() && o.w_t.finite() && o.w_p.finite(),
        0 <= o.w_l.value() && 0 <= o.w_b.value() && 0 <= o.w_t.value() && 0 <= o.w_p.value(),
        0 < total(o) <= unit(968),
    ensures
        ({
            let s = o.w_l.plus(o.w_b).plus(o.w_t).plus(o.w_p);
            &&& s.finite() && d == s.value() && d > 0
            &&& o.w_l.value() <= d && o.w_b.value() <= d && o.w_t.value() <= d && o.w_p.value() <= d
            &&& -(3 * d) <= (total(o) - d) * 0x20_0000_0000_0000 <= 3 * d
            &&& d <= 2 * total(o)
        }),
{
    let a = o.w_l.plus(o.w_b);
    let b = a.plus(o.w_t);
    let s = b.plus(o.w_p);
    bounds::lemma_unit(968, 969);
    bounds::lemma_unit_doubles(968);
    bounds::lemma_unit_doubles(969);
    lemma_small_sum(o.w_l, o.w_b, 968);
    lemma_small_sum(a, o.w_t, 969);
    lemma_small_sum(b, o.w_p, 970);
    s.value()
}

proof fn lemma_share_close(x: Binary64, s: Binary64, t: int)
    requires
        x.finite(),
        s.finite(),
        0 <= x.value() <= s.value(),
        s.value() > 0,
        -(3 * s.value()) <= (t - s.value()) * 0x20_0000_0000_0000 <= 3 * s.value(),
        s.value() <= 2 * t,
    ensures
        in_unit(x.over(s)),
        -(8 * (grain() * t)) <= x.over(s).value() * t - x.value() * binary64::one_unit() <= 8 * (grain() * t),
{
    let u = binary64::one_unit();
    let g = grain();
    let d = s.value();
    order::lemma_constants();
    accuracy::lemma_grain();
    assert(x.value() * u <= u * d) by (nonlinear_arith)
        requires
            x.value() <= d,
            u > 0,
    ;
    accuracy::lemma_over_close(x, s, 0);
    let r = x.over(s).value();
    let f = t - d;
    assert(-(3 * (g * d)) <= r * f <= 3 * (g * d)) by {
        assert(-(u * (3 * d)) <= r * (f * 0x20_0000_0000_0000) <= u * (3 * d)) by (nonlinear_arith)
            requires
                -(3 * d) <= f * 0x20_0000_0000_0000 <= 3 * d,
                0 <= r <= u,
                d > 0,
        ;
        assert(r * (f * 0x20_0000_0000_0000) == (r * f) * 0x20_0000_0000_0000) by (nonlinear_arith);
        assert(u * (3 * d) == 0x20_0000_0000_0000 * (3 * (g * d))) by (nonlinear_arith)
            requires
                u == 0x20_0000_0000_0000 * g,
        ;
    }
    assert(r * t == r * d + r * f) by (nonlinear_arith)
        requires
            f == t - d,
    ;
    assert(g * d <= 2 * (g * t)) by (nonlinear_arith)
        requires
            d <= 2 * t,
            g > 0,
    ;
}

/// The weights that a job names keep their proportions: each normalized weight is the weight over the
/// sum of the four, to within one part in 2^50.
pub proof fn lemma_weights_in_proportion(spec: JobSpecView, o: Weights)
    requires
        spec.weights == Some(o),
        o.w_l.finite() && o.w_b.finite() && o.w_t.finite() && o.w_p.finite(),
        0 <= o.w_l.value() && 0 <= o.w_b.value() && 0 <= o.w_t.value() && 0 <= o.w_p.value(),
        0 < o.w_l.value() + o.w_b.value() + o.w_t.value() + o.w_p.value() <= unit(968),
    ensures
        ({
            let v = scorer::normalized(scorer::raw_weights(spec));
            let u = binary64::one_unit();
            let sum = o.w_l.value() + o.w_b.value() + o.w_t.value() + o.w_p.value();
            let slack = u * sum;
            &&& -slack <= (v.w_l.value() * sum - o.w_l.value() * u) * 0x4_0000_0000_0000 <= slack
            &&& -slack <= (v.w_b.value() * sum - o.w_b.value() * u) * 0x4_0000_0000_0000 <= slack
            &&& -slack <= (v.w_t.value() * sum - o.w_t.value() * u) * 0x4_0000_0000_0000 <= slack
            &&& -slack <= (v.w_p.value() * sum - o.w_p.value() * u) * 0x4_0000_0000_0000 <= slack
            &&& o.w_d.finite() && 0 <= o.w_d.value() ==> v.w_d == o.w_d
        }),
{
    let u = binary64::one_unit();
    let g = grain();
    let t = total(o);
    order::lemma_constants();
    accuracy::lemma_grain();
    let d = lemma_total(o);
    let s = o.w_l.plus(o.w_b).plus(o.w_t).plus(o.w_p);
    lemma_share_close(o.w_l, s, t);
    lemma_share_close(o.w_b, s, t);
    lemma_share_close(o.w_t, s, t);
    lemma_share_close(o.w_p, s, t);
    assert(u * t == 0x20_0000_0000_0000 * (g * t)) by (nonlinear_arith)
        requires
            u == 0x20_0000_0000_0000 * g,
    ;
}

/// A job's score is the mean of the four axes, weighed by the weights that it names, times the runtime
/// factor of the host; to within one part in 2^46 for a host without such a factor.
pub proof fn lemma_score_is_the_weighed_mean(
    c: CandidateView,
    spec: JobSpecView,
    graph: Option<LatencyModel>,
    trust: Trust,
    o: Weights,
)
    requires
        in_unit(trust.score),
        spec.weights == Some(o),
        o.w_l.finite() && o.w_b.finite() && o.w_t.finite() && o.w_p.finite(),
        0 <= o.w_l.value() && 0 <= o.w_b.value() && 0 <= o.w_t.value() && 0 <= o.w_p.value(),
        0 < o.w_l.value() + o.w_b.value() + o.w_t.value() + o.w_p.value() <= unit(968),
    ensures
        ({
            let r = scorer::scored_with(c, spec, graph, trust);
            let u = binary64::one_unit();
            let sum = o.w_l.value() + o.w_b.value() + o.w_t.value() + o.w_p.value();
            let axes = o.w_l.value() * r.parts.latency.value() + o.w_b.value() * r.parts.bench_fit.value()
                + o.w_t.value() * trust.score.value() + o.w_p.value() * r.parts.price.value();
            &&& r.parts.trust == trust.score
            &&& r.parts.bench_fit == r.bench_fit.score
            &&& r.benchmark_suspect == trust.benchmark_suspect
            &&& r.parts.runtime_factor == Binary64::one() ==> -(u * sum) <= (r.score.value() * sum - axes)
                * 0x4000_0000_0000 <= u * sum
        }),
{
    let u = binary64::one_unit();
    let g = grain();
    let t = total(o);
    let v = scorer::normalized(scorer::raw_weights(spec));
    let r = scorer::scored_with(c, spec, graph, trust);
    let l = r.parts.latency;
    let f = r.parts.bench_fit;
    let p = r.parts.price;
    order::lemma_constants();
    accuracy::lemma_grain();
    preferences::lemma_axes_in_unit(c, spec, graph, Binary64::zero(), Binary64::zero());
    let d = lemma_total(o);
    let s = o.w_l.plus(o.w_b).plus(o.w_t).plus(o.w_p);
    lemma_share_close(o.w_l, s, t);
    lemma_share_close(o.w_b, s, t);
    lemma_share_close(o.w_t, s, t);
    lemma_share_close(o.w_p, s, t);
    lemma_mixed_close(v, l, f, trust.score, p);
    let z = mixed(v, l, f, trust.score, p);
    let b = z.clamped();
    if r.parts.runtime_factor == Binary64::one() {
        order::lemma_clamped(z);
        lemma_times_by_one(b);
        let axes = o.w_l.value() * l.value() + o.w_b.value() * f.value() + o.w_t.value() * trust.score.value()
            + o.w_p.value() * p.value();
        let gt = g * t;
        lemma_part_close(v.w_l.value(), o.w_l.value(), l.value(), t, gt);
        lemma_part_close(v.w_b.value(), o.w_b.value(), f.value(), t, gt);
        lemma_part_close(v.w_t.value(), o.w_t.value(), trust.score.value(), t, gt);
        lemma_part_close(v.w_p.value(), o.w_p.value(), p.value(), t, gt);
        let m = v.w_l.value() * l.value() + v.w_b.value() * f.value() + v.w_t.value() * trust.score.value()
            + v.w_p.value() * p.value();
        assert(m * t == (v.w_l.value() * l.value()) * t + (v.w_b.value() * f.value()) * t + (v.w_t.value()
            * trust.score.value()) * t + (v.w_p.value() * p.value()) * t) by (nonlinear_arith)
            requires
                m == v.w_l.value() * l.value() + v.w_b.value() * f.value() + v.w_t.value() * trust.score.value()
                    + v.w_p.value() * p.value(),
        ;
        assert(axes * u == (o.w_l.value() * l.value()) * u + (o.w_b.value() * f.value()) * u + (o.w_t.value()
            * trust.score.value()) * u + (o.w_p.value() * p.value()) * u) by (nonlinear_arith)
            requires
                axes == o.w_l.value() * l.value() + o.w_b.value() * f.value() + o.w_t.value() * trust.score.value()
                    + o.w_p.value() * p.value(),
        ;
        assert(-(32 * (gt * u)) <= m * t - axes * u <= 32 * (gt * u));
        assert(-(18 * (gt * u)) <= (z.value() * u - m) * t <= 18 * (gt * u)) by (nonlinear_arith)
            requires
                -(18 * g * u) <= z.value() * u - m <= 18 * g * u,
                gt == g * t,
                t > 0,
        ;
        assert((z.value() * u - m) * t == (z.value() * t) * u - m * t) by (nonlinear_arith);
        assert(-(50 * (gt * u)) <= (z.value() * t) * u - axes * u <= 50 * (gt * u));
        assert(-(50 * gt) <= z.value() * t - axes <= 50 * gt) by (nonlinear_arith)
            requires
                -(50 * (gt * u)) <= (z.value() * t) * u - axes * u <= 50 * (gt * u),
                u > 0,
        ;
        assert(axes <= u * t) by {
            lemma_part_bounded(o.w_l.value(), l.value());
            lemma_part_bounded(o.w_b.value(), f.value());
            lemma_part_bounded(o.w_t.value(), trust.score.value());
            lemma_part_bounded(o.w_p.value(), p.value());
            assert(u * t == u * o.w_l.value() + u * o.w_b.value() + u * o.w_t.value() + u * o.w_p.value())
                by (nonlinear_arith)
                requires
                    t == o.w_l.value() + o.w_b.value() + o.w_t.value() + o.w_p.value(),
            ;
        }
        assert(b.value() < z.value() ==> b.value() * t == u * t && u * t <= z.value() * t) by (nonlinear_arith)
            requires
                b.value() < z.value() ==> b.value() == u,
                t > 0,
        ;
        assert(u * t == 0x20_0000_0000_0000 * gt) by (nonlinear_arith)
            requires
                u == 0x20_0000_0000_0000 * g,
                gt == g * t,
        ;
        assert(-(50 * gt) <= r.score.value() * t - axes <= 50 * gt);
    }
}

proof fn lemma_part_close(v: int, o: int, x: int, t: int, gt: int)
    requires
        -(8 * gt) <= v * t - o * binary64::one_unit() <= 8 * gt,
        0 <= x <= binary64::one_unit(),
        gt >= 0,
    ensures
        -(8 * (gt * binary64::one_unit())) <= (v * x) * t - (o * x) * binary64::one_unit() <= 8 * (gt
            * binary64::one_unit()),
{
    let u = binary64::one_unit();
    let e = v * t - o * u;
    assert((v * x) * t - (o * x) * u == e * x) by (nonlinear_arith)
        requires
            e == v * t - o * u,
    ;
    assert(-(8 * (gt * u)) <= e * x <= 8 * (gt * u)) by (nonlinear_arith)
        requires
            -(8 * gt) <= e <= 8 * gt,
            0 <= x <= u,
            gt >= 0,
    ;
}

proof fn lemma_part_bounded(w: int, x: int)
    by (nonlinear_arith)
    requires
        0 <= w,
        0 <= x <= binary64::one_unit(),
    ensures
        w * x <= binary64::one_unit() * w,
{
}

/// A number in the unit interval times one keeps its value.
proof fn lemma_times_by_one(b: Binary64)
    requires
        in_unit(b),
    ensures
        b.times(Binary64::one()).clamped().value() == b.value(),
{
    order::lemma_constants();
    order::lemma_times(b, Binary64::one());
    order::lemma_rounded_exact(b, binary64::one_unit());
}

/// A share of nothing is nothing, and the whole is one.
proof fn lemma_extreme_shares(x: Binary64, s: Binary64)
    requires
        x.finite(),
        s.finite(),
        0 <= x.value() <= s.value(),
        s.value() > 0,
    ensures
        in_unit(x.over(s)),
        x.value() == 0 ==> x.over(s).value() == 0,
        x.value() == s.value() ==> x.over(s).value() == binary64::one_unit(),
{
    let u = binary64::one_unit();
    order::lemma_constants();
    order::lemma_over_at_most_one(x, s);
    bounds::lemma_over_size(x, s);
    order::lemma_rounded_exact(Binary64::zero(), s.value());
    order::lemma_rounded_exact(Binary64::one(), s.value());
    assert(x.value() == s.value() ==> x.value() * u == u * s.value()) by (nonlinear_arith);
    assert(x.value() == 0 ==> x.value() * u == 0) by (nonlinear_arith);
}

proof fn lemma_named_weights(spec: JobSpecView, o: Weights)
    requires
        spec.weights == Some(o),
        o.w_l.finite() && o.w_b.finite() && o.w_t.finite() && o.w_p.finite(),
        0 <= o.w_l.value() && 0 <= o.w_b.value() && 0 <= o.w_t.value() && 0 <= o.w_p.value(),
        0 < total(o) <= unit(968),
    ensures
        ({
            let v = scorer::normalized(scorer::raw_weights(spec));
            let u = binary64::one_unit();
            &&& in_unit(v.w_l) && in_unit(v.w_b) && in_unit(v.w_t) && in_unit(v.w_p)
            &&& o.w_l.value() == 0 ==> v.w_l.value() == 0
            &&& o.w_b.value() == 0 ==> v.w_b.value() == 0
            &&& o.w_t.value() == 0 ==> v.w_t.value() == 0
            &&& o.w_p.value() == 0 ==> v.w_p.value() == 0
            &&& o.w_l.value() == total(o) ==> v.w_l.value() == u
            &&& o.w_b.value() == total(o) ==> v.w_b.value() == u
            &&& o.w_t.value() == total(o) ==> v.w_t.value() == u
            &&& o.w_p.value() == total(o) ==> v.w_p.value() == u
        }),
{
    order::lemma_constants();
    let d = lemma_total(o);
    let a = o.w_l.plus(o.w_b);
    let b = a.plus(o.w_t);
    let s = b.plus(o.w_p);
    lemma_extreme_shares(o.w_l, s);
    lemma_extreme_shares(o.w_b, s);
    lemma_extreme_shares(o.w_t, s);
    lemma_extreme_shares(o.w_p, s);
    if o.w_l.value() == total(o) || o.w_b.value() == total(o) || o.w_t.value() == total(o) || o.w_p.value() == total(o) {
        bounds::lemma_unit(968, 969);
        bounds::lemma_unit_doubles(968);
        bounds::lemma_unit_doubles(969);
        lemma_small_sum(o.w_l, o.w_b, 968);
        lemma_small_sum(a, o.w_t, 969);
        lemma_small_sum(b, o.w_p, 970);
        order::lemma_plus(o.w_l, o.w_b);
        order::lemma_plus(a, o.w_t);
        order::lemma_plus(b, o.w_p);
        order::lemma_rounded_exact(o.w_l, 1);
        order::lemma_rounded_exact(o.w_b, 1);
        order::lemma_rounded_exact(o.w_t, 1);
        order::lemma_rounded_exact(o.w_p, 1);
        order::lemma_rounded_exact(Binary64::zero(), 1);
        assert(d == total(o));
    }
}

/// A job that names one weight alone scores a host without a runtime factor by the axis of that weight.
pub proof fn lemma_a_lone_weight_is_its_axis(
    c: CandidateView,
    spec: JobSpecView,
    graph: Option<LatencyModel>,
    trust: Trust,
    o: Weights,
)
    requires
        in_unit(trust.score),
        spec.weights == Some(o),
        o.w_l.finite() && o.w_b.finite() && o.w_t.finite() && o.w_p.finite(),
        0 <= o.w_l.value() && 0 <= o.w_b.value() && 0 <= o.w_t.value() && 0 <= o.w_p.value(),
        0 < o.w_l.value() + o.w_b.value() + o.w_t.value() + o.w_p.value() <= unit(968),
        scorer::scored_with(c, spec, graph, trust).parts.runtime_factor == Binary64::one(),
    ensures
        ({
            let r = scorer::scored_with(c, spec, graph, trust);
            let sum = o.w_l.value() + o.w_b.value() + o.w_t.value() + o.w_p.value();
            &&& o.w_l.value() == sum ==> r.score.value() == r.parts.latency.value()
            &&& o.w_b.value() == sum ==> r.score.value() == r.bench_fit.score.value()
            &&& o.w_t.value() == sum ==> r.score.value() == trust.score.value()
            &&& o.w_p.value() == sum ==> r.score.value() == r.parts.price.value()
        }),
{
    let r = scorer::scored_with(c, spec, graph, trust);
    let v = scorer::normalized(scorer::raw_weights(spec));
    order::lemma_constants();
    preferences::lemma_axes_in_unit(c, spec, graph, Binary64::zero(), Binary64::zero());
    lemma_named_weights(spec, o);
    let b = scorer::blend(v, r.parts.latency, r.parts.bench_fit, trust.score, r.parts.price);
    order::lemma_clamped(
        v.w_l.times(r.parts.latency).plus(v.w_b.times(r.parts.bench_fit)).plus(v.w_t.times(trust.score)).plus(
            v.w_p.times(r.parts.price),
        ),
    );
    lemma_times_by_one(b);
    if o.w_l.value() == total(o) || o.w_b.value() == total(o) || o.w_t.value() == total(o) || o.w_p.value() == total(o) {
        lemma_each_weight_acts_on_its_own_axis(v, r.parts.latency, r.parts.bench_fit, trust.score, r.parts.price);
    }
}

/// Where a job names a price weight of zero, neither a host's ask nor the job's price cap moves the
/// score.
pub proof fn lemma_unweighted_prices_move_nothing(
    c: CandidateView,
    d: CandidateView,
    spec: JobSpecView,
    other: JobSpecView,
    graph: Option<LatencyModel>,
    trust: Trust,
    o: Weights,
)
    requires
        in_unit(trust.score),
        spec.weights == Some(o),
        o.w_l.finite() && o.w_b.finite() && o.w_t.finite() && o.w_p.finite(),
        0 <= o.w_l.value() && 0 <= o.w_b.value() && 0 <= o.w_t.value() && 0 <= o.w_p.value(),
        0 < o.w_l.value() + o.w_b.value() + o.w_t.value() + o.w_p.value() <= unit(968),
        o.w_p.value() == 0,
        d == (CandidateView { ask_base_units: d.ask_base_units, ..c }),
        other == (JobSpecView {
            price_cap_base_units: other.price_cap_base_units,
            default_price_score: other.default_price_score,
            ..spec
        }),
    ensures
        scorer::scored_with(c, spec, graph, trust).score.value() == scorer::scored_with(
            d,
            other,
            graph,
            trust,
        ).score.value(),
{
    lemma_named_weights(spec, o);
    lemma_same_fit(c, spec, d, other);
    lemma_scores_alike(c, spec, graph, trust, d, other, graph, trust);
}

/// Where a job names a latency weight of zero, neither a host's RTT, the graph nor the soft cap moves
/// the score.
pub proof fn lemma_unweighted_latencies_move_nothing(
    c: CandidateView,
    d: CandidateView,
    spec: JobSpecView,
    other: JobSpecView,
    graph: Option<LatencyModel>,
    map: Option<LatencyModel>,
    trust: Trust,
    o: Weights,
)
    requires
        in_unit(trust.score),
        spec.weights == Some(o),
        o.w_l.finite() && o.w_b.finite() && o.w_t.finite() && o.w_p.finite(),
        0 <= o.w_l.value() && 0 <= o.w_b.value() && 0 <= o.w_t.value() && 0 <= o.w_p.value(),
        0 < o.w_l.value() + o.w_b.value() + o.w_t.value() + o.w_p.value() <= unit(968),
        o.w_l.value() == 0,
        d == (CandidateView { rtt_ms: d.rtt_ms, ..c }),
        other == (JobSpecView { rtt_soft_cap_ms: other.rtt_soft_cap_ms, ..spec }),
    ensures
        scorer::scored_with(c, spec, graph, trust).score.value() == scorer::scored_with(
            d,
            other,
            map,
            trust,
        ).score.value(),
{
    lemma_named_weights(spec, o);
    lemma_same_fit(c, spec, d, other);
    lemma_scores_alike(c, spec, graph, trust, d, other, map, trust);
}

/// Where a job names a trust weight of zero, trust does not move the score; and likewise the demand
/// where it names a fit weight of zero.
pub proof fn lemma_unweighted_trust_and_fit_move_nothing(
    c: CandidateView,
    spec: JobSpecView,
    other: JobSpecView,
    graph: Option<LatencyModel>,
    trust: Trust,
    doubt: Trust,
    o: Weights,
)
    requires
        in_unit(trust.score),
        in_unit(doubt.score),
        spec.weights == Some(o),
        o.w_l.finite() && o.w_b.finite() && o.w_t.finite() && o.w_p.finite(),
        0 <= o.w_l.value() && 0 <= o.w_b.value() && 0 <= o.w_t.value() && 0 <= o.w_p.value(),
        0 < o.w_l.value() + o.w_b.value() + o.w_t.value() + o.w_p.value() <= unit(968),
        other == (JobSpecView { demand: other.demand, ..spec }),
    ensures
        o.w_t.value() == 0 ==> scorer::scored_with(c, spec, graph, trust).score.value() == scorer::scored_with(
            c,
            spec,
            graph,
            doubt,
        ).score.value(),
        o.w_b.value() == 0 ==> scorer::scored_with(c, spec, graph, trust).score.value() == scorer::scored_with(
            c,
            other,
            graph,
            trust,
        ).score.value(),
{
    lemma_named_weights(spec, o);
    lemma_scores_alike(c, spec, graph, trust, c, spec, graph, doubt);
    lemma_scores_alike(c, spec, graph, trust, c, other, graph, trust);
}

/// The fit depends on the demand, the profile and the capacity alone.
proof fn lemma_same_fit(c: CandidateView, spec: JobSpecView, d: CandidateView, other: JobSpecView)
    requires
        c.profile == d.profile,
        c.capacity == d.capacity,
        spec.demand == other.demand,
    ensures
        scorer::bench_fit(c, spec) == scorer::bench_fit(d, other),
{
    lemma_same_sums(scorer::asked_axes(spec.demand), c, d);
}

proof fn lemma_same_sums(axes: Seq<(scorer::ProfileAxis, crate::api::DemandAxis)>, c: CandidateView, d: CandidateView)
    requires
        c.profile == d.profile,
        c.capacity == d.capacity,
    ensures
        scorer::fit_sums(axes, c) == scorer::fit_sums(axes, d),
    decreases axes.len(),
{
    if axes.len() > 0 {
        lemma_same_sums(axes.drop_last(), c, d);
    }
}

proof fn lemma_scores_alike(
    c: CandidateView,
    spec: JobSpecView,
    graph: Option<LatencyModel>,
    trust: Trust,
    d: CandidateView,
    other: JobSpecView,
    map: Option<LatencyModel>,
    doubt: Trust,
)
    requires
        in_unit(trust.score),
        in_unit(doubt.score),
    ensures
        ({
            let v = scorer::normalized(scorer::raw_weights(spec));
            let a = scorer::scored_with(c, spec, graph, trust);
            let b = scorer::scored_with(d, other, map, doubt);
            v == scorer::normalized(scorer::raw_weights(other)) && a.parts.runtime_factor == b.parts.runtime_factor && (
            v.w_l.value() == 0 || a.parts.latency == b.parts.latency) && (v.w_b.value() == 0 || a.parts.bench_fit
                == b.parts.bench_fit) && (v.w_t.value() == 0 || trust.score == doubt.score) && (v.w_p.value() == 0
                || a.parts.price == b.parts.price) ==> a.score.value() == b.score.value()
        }),
{
    let v = scorer::normalized(scorer::raw_weights(spec));
    let a = scorer::scored_with(c, spec, graph, trust);
    let b = scorer::scored_with(d, other, map, doubt);
    order::lemma_constants();
    preferences::lemma_weights_in_unit(spec);
    preferences::lemma_axes_in_unit(c, spec, graph, Binary64::zero(), Binary64::zero());
    preferences::lemma_axes_in_unit(d, other, map, Binary64::zero(), Binary64::zero());
    preferences::lemma_runtime_factor(c, spec.payer, v);
    let x = scorer::blend(v, a.parts.latency, a.parts.bench_fit, trust.score, a.parts.price);
    let y = scorer::blend(v, b.parts.latency, b.parts.bench_fit, doubt.score, b.parts.price);
    lemma_mixed_of_values(
        v,
        a.parts.latency,
        a.parts.bench_fit,
        trust.score,
        a.parts.price,
        v,
        b.parts.latency,
        b.parts.bench_fit,
        doubt.score,
        b.parts.price,
    );
    lemma_mixed_close(v, a.parts.latency, a.parts.bench_fit, trust.score, a.parts.price);
    lemma_mixed_close(v, b.parts.latency, b.parts.bench_fit, doubt.score, b.parts.price);
    order::lemma_clamped(mixed(v, a.parts.latency, a.parts.bench_fit, trust.score, a.parts.price));
    order::lemma_clamped(mixed(v, b.parts.latency, b.parts.bench_fit, doubt.score, b.parts.price));
    order::lemma_times(x, a.parts.runtime_factor);
    order::lemma_times(y, a.parts.runtime_factor);
}

// ---- defaults ----

/// A number that is a fraction, within one part in 2^41.
pub open spec fn about(x: Binary64, n: int, d: int) -> bool {
    &&& x.finite()
    &&& -binary64::one_unit() <= (x.value() * d - n * binary64::one_unit()) * 0x200_0000_0000 <= binary64::one_unit()
}

proof fn lemma_default_share(v: int, o: int, t: int, n: int, sum: int)
    requires
        0 <= v <= binary64::one_unit(),
        0 <= t <= 2 * binary64::one_unit(),
        0 <= n <= sum <= 100,
        -(100 * grain()) <= 100 * o - n * binary64::one_unit() <= 100 * grain(),
        -(400 * grain()) <= 100 * t - sum * binary64::one_unit() <= 400 * grain(),
        -(8 * (grain() * t)) <= v * t - o * binary64::one_unit() <= 8 * (grain() * t),
    ensures
        -binary64::one_unit() <= (v * sum - n * binary64::one_unit()) * 0x200_0000_0000 <= binary64::one_unit(),
{
    let u = binary64::one_unit();
    let g = grain();
    accuracy::lemma_grain();
    let x = 100 * t - sum * u;
    let y = 100 * o - n * u;
    let z = v * t - o * u;
    let e = v * sum - n * u;
    let gu = g * u;
    assert(e * u == 100 * z - v * x + y * u) by (nonlinear_arith)
        requires
            x == 100 * t - sum * u,
            y == 100 * o - n * u,
            z == v * t - o * u,
            e == v * sum - n * u,
    ;
    assert(-(16 * gu) <= z <= 16 * gu) by {
        assert(g * t <= 2 * gu) by (nonlinear_arith)
            requires
                t <= 2 * u,
                gu == g * u,
                g > 0,
        ;
    }
    assert(-(400 * gu) <= v * x <= 400 * gu) by (nonlinear_arith)
        requires
            -(400 * g) <= x <= 400 * g,
            0 <= v <= u,
            gu == g * u,
            g > 0,
    ;
    assert(-(100 * gu) <= y * u <= 100 * gu) by (nonlinear_arith)
        requires
            -(100 * g) <= y <= 100 * g,
            gu == g * u,
            u > 0,
    ;
    assert(-(2100 * gu) <= e * u <= 2100 * gu);
    assert(-(2100 * g) <= e <= 2100 * g) by (nonlinear_arith)
        requires
            -(2100 * gu) <= e * u <= 2100 * gu,
            gu == g * u,
            u > 0,
    ;
}

proof fn lemma_default_weights(spec: JobSpecView, l: int, b: int, t: int, p: int, d: int)
    requires
        0 <= l && 0 <= b && 0 <= t && 0 <= p && 0 <= d <= 100,
        0 < l + b + t + p <= 100,
        scorer::raw_weights(spec) == (Weights {
            w_l: Binary64::fraction(l, 100),
            w_b: Binary64::fraction(b, 100),
            w_t: Binary64::fraction(t, 100),
            w_p: Binary64::fraction(p, 100),
            w_d: Binary64::fraction(d, 100),
        }),
    ensures
        ({
            let v = scorer::normalized(scorer::raw_weights(spec));
            let sum = l + b + t + p;
            about(v.w_l, l, sum) && about(v.w_b, b, sum) && about(v.w_t, t, sum) && about(v.w_p, p, sum) && about(
                v.w_d,
                d,
                100,
            )
        }),
{
    let u = binary64::one_unit();
    let o = scorer::raw_weights(spec);
    let sum = l + b + t + p;
    order::lemma_constants();
    accuracy::lemma_grain();
    accuracy::lemma_proper_fraction(l, 100);
    accuracy::lemma_proper_fraction(b, 100);
    accuracy::lemma_proper_fraction(t, 100);
    accuracy::lemma_proper_fraction(p, 100);
    accuracy::lemma_proper_fraction(d, 100);
    bounds::lemma_unit(2, 968);
    let all = total(o);
    assert(l * u + b * u + t * u + p * u == sum * u) by (nonlinear_arith)
        requires
            sum == l + b + t + p,
    ;
    assert(sum * u >= u) by (nonlinear_arith)
        requires
            sum >= 1,
            u > 0,
    ;
    assert(sum * u <= 100 * u) by (nonlinear_arith)
        requires
            sum <= 100,
            u > 0,
    ;
    let s = lemma_total(o);
    let x = o.w_l.plus(o.w_b).plus(o.w_t).plus(o.w_p);
    lemma_share_close(o.w_l, x, all);
    lemma_share_close(o.w_b, x, all);
    lemma_share_close(o.w_t, x, all);
    lemma_share_close(o.w_p, x, all);
    let v = scorer::normalized(o);
    lemma_default_share(v.w_l.value(), o.w_l.value(), all, l, sum);
    lemma_default_share(v.w_b.value(), o.w_b.value(), all, b, sum);
    lemma_default_share(v.w_t.value(), o.w_t.value(), all, t, sum);
    lemma_default_share(v.w_p.value(), o.w_p.value(), all, p, sum);
}

/// The blend of each objective, latency to fit to trust to price, and the penalty coefficient: 50 : 15 :
/// 20 : 5 and 0.10 for latency, 10 : 50 : 25 : 5 and 0.10 for throughput, 10 : 20 : 20 : 40 and 0.10 for a
/// cheap job, 25 : 25 : 25 : 10 and 0.15 for a balanced one, which a job is that names no objective.
pub proof fn lemma_blends_of_objectives(spec: JobSpecView)
    requires
        spec.weights is None,
    ensures
        ({
            let v = scorer::normalized(scorer::raw_weights(spec));
            match spec.objective {
                Some(Objective::Latency) => about(v.w_l, 50, 90) && about(v.w_b, 15, 90) && about(v.w_t, 20, 90)
                    && about(v.w_p, 5, 90) && about(v.w_d, 10, 100),
                Some(Objective::Throughput) => about(v.w_l, 10, 90) && about(v.w_b, 50, 90) && about(v.w_t, 25, 90)
                    && about(v.w_p, 5, 90) && about(v.w_d, 10, 100),
                Some(Objective::Cheap) => about(v.w_l, 10, 90) && about(v.w_b, 20, 90) && about(v.w_t, 20, 90)
                    && about(v.w_p, 40, 90) && about(v.w_d, 10, 100),
                _ => about(v.w_l, 25, 85) && about(v.w_b, 25, 85) && about(v.w_t, 25, 85) && about(v.w_p, 10, 85)
                    && about(v.w_d, 15, 100),
            }
        }),
{
    match spec.objective {
        Some(Objective::Latency) => lemma_default_weights(spec, 50, 15, 20, 5, 10),
        Some(Objective::Throughput) => lemma_default_weights(spec, 10, 50, 25, 5, 10),
        Some(Objective::Cheap) => lemma_default_weights(spec, 10, 20, 20, 40, 10),
        _ => lemma_default_weights(spec, 25, 25, 25, 10, 15),
    }
}

/// A weight that is negative or no finite number is as good as none: the default of the objective takes
/// its place, axis by axis.
pub proof fn lemma_unusable_weights_fall_back(spec: JobSpecView, o: Weights)
    requires
        spec.weights == Some(o),
    ensures
        ({
            let named = |x: Binary64| x.finite() && x.value() >= 0;
            let w = scorer::raw_weights(spec);
            let d = scorer::raw_weights(JobSpecView { weights: None, ..spec });
            &&& w.w_l == if named(o.w_l) { o.w_l } else { d.w_l }
            &&& w.w_b == if named(o.w_b) { o.w_b } else { d.w_b }
            &&& w.w_t == if named(o.w_t) { o.w_t } else { d.w_t }
            &&& w.w_p == if named(o.w_p) { o.w_p } else { d.w_p }
            &&& w.w_d == if named(o.w_d) { o.w_d } else { d.w_d }
        }),
{
    order::lemma_constants();
}

} // verus!
