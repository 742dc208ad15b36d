//! What the scores prefer: every axis lies in the unit interval, and a host that is better on one
//! axis and no worse on the others never scores lower.

use crate::api::{DemandAxis, JobSpecView, Objective, Weights};
use crate::binary64::{self, Binary64};
use crate::candidate::CandidateView;
use crate::elementary::{self, Elementary};
use crate::latency::LatencyModel;
use crate::order;
use crate::scorer::{self, ProfileAxis, Trust};
use vstd::prelude::*;

verus! {

/// Between zero and one.
pub open spec fn in_unit(x: Binary64) -> bool {
    x.finite() && 0 <= x.value() <= Binary64::one().value()
}

// ---- weights ----

/// All five coefficients are finite and not negative.
pub open spec fn weights_usable(w: Weights) -> bool {
    w.w_l.usable() && w.w_b.usable() && w.w_t.usable() && w.w_p.usable() && w.w_d.usable()
}

proof fn lemma_defaults_usable(o: Objective)
    ensures
        weights_usable(Weights::defaults(o)),
{
    order::lemma_constants();
    order::lemma_fraction_at_most_one(5, 100);
    order::lemma_fraction_at_most_one(10, 100);
    order::lemma_fraction_at_most_one(15, 100);
    order::lemma_fraction_at_most_one(20, 100);
    order::lemma_fraction_at_most_one(25, 100);
    order::lemma_fraction_at_most_one(40, 100);
    order::lemma_fraction_at_most_one(50, 100);
}

proof fn lemma_raw_usable(spec: JobSpecView)
    ensures
        weights_usable(scorer::raw_weights(spec)),
{
    lemma_defaults_usable(
        match spec.objective {
            Some(o) => o,
            None => Objective::Balanced,
        },
    );
}

/// The sum of the four convex coefficients.
pub open spec fn weight_sum(w: Weights) -> Binary64 {
    w.w_l.plus(w.w_b).plus(w.w_t).plus(w.w_p)
}

proof fn lemma_sum_covers(w: Weights)
    requires
        weights_usable(w),
    ensures
        !weight_sum(w).nan(),
        w.w_l.at_most(weight_sum(w)),
        w.w_b.at_most(weight_sum(w)),
        w.w_t.at_most(weight_sum(w)),
        w.w_p.at_most(weight_sum(w)),
{
    order::lemma_constants();
    let a = w.w_l.plus(w.w_b);
    let b = a.plus(w.w_t);
    order::lemma_plus_nonnegative(w.w_l, w.w_b);
    order::lemma_plus_commutes(w.w_l, w.w_b);
    order::lemma_plus_nonnegative(w.w_b, w.w_l);
    order::lemma_plus_nonnegative(a, w.w_t);
    order::lemma_plus_commutes(a, w.w_t);
    order::lemma_plus_nonnegative(w.w_t, a);
    order::lemma_plus_nonnegative(b, w.w_p);
    order::lemma_plus_commutes(b, w.w_p);
    order::lemma_plus_nonnegative(w.w_p, b);
}

/// The four convex weights of a job lie between zero and one; the penalty coefficient is taken over
/// as it is.
pub proof fn lemma_weights_in_unit(spec: JobSpecView)
    ensures
        in_unit(scorer::normalized(scorer::raw_weights(spec)).w_l),
        in_unit(scorer::normalized(scorer::raw_weights(spec)).w_b),
        in_unit(scorer::normalized(scorer::raw_weights(spec)).w_t),
        in_unit(scorer::normalized(scorer::raw_weights(spec)).w_p),
        scorer::normalized(scorer::raw_weights(spec)).w_d == scorer::raw_weights(spec).w_d,
{
    let w = scorer::raw_weights(spec);
    let s = weight_sum(w);
    lemma_raw_usable(spec);
    lemma_sum_covers(w);
    order::lemma_constants();
    if Binary64::zero().less(s) {
        order::lemma_over_at_most_one(w.w_l, s);
        order::lemma_over_at_most_one(w.w_b, s);
        order::lemma_over_at_most_one(w.w_t, s);
        order::lemma_over_at_most_one(w.w_p, s);
    } else {
        order::lemma_fraction_at_most_one(1, 4);
    }
}

/// The blend is convex: where the weights have a positive finite sum, the four normalized ones add up
/// to one, to within one part in 2^50.
pub proof fn lemma_weights_sum_to_one(w: Weights)
    requires
        weights_usable(w),
        weight_sum(w).positive(),
    ensures
        ({
            let v = scorer::normalized(w);
            let sum = v.w_l.value() + v.w_b.value() + v.w_t.value() + v.w_p.value();
            let one = Binary64::one().value();
            -one <= (sum - one) * 0x4_0000_0000_0000 <= one
        }),
{
    let v = scorer::normalized(w);
    let a = w.w_l.plus(w.w_b);
    let b = a.plus(w.w_t);
    let s = weight_sum(w);
    let u = binary64::one_unit();
    order::lemma_constants();
    lemma_sum_covers(w);
    order::lemma_plus_nonnegative(w.w_l, w.w_b);
    order::lemma_plus_nonnegative(a, w.w_t);
    order::lemma_plus_nonnegative(b, w.w_p);
    order::lemma_finite_sum(b, w.w_p);
    order::lemma_finite_sum(a, w.w_t);
    order::lemma_plus_error(w.w_l, w.w_b);
    order::lemma_plus_error(a, w.w_t);
    order::lemma_plus_error(b, w.w_p);
    lemma_share_error(w.w_l, s);
    lemma_share_error(w.w_b, s);
    lemma_share_error(w.w_t, s);
    lemma_share_error(w.w_p, s);
    let sum = v.w_l.value() + v.w_b.value() + v.w_t.value() + v.w_p.value();
    let total = w.w_l.value() + w.w_b.value() + w.w_t.value() + w.w_p.value();
    let d = s.value();
    let top = 0x20_0000_0000_0000int;
    assert(sum * d == v.w_l.value() * d + v.w_b.value() * d + v.w_t.value() * d + v.w_p.value() * d)
        by (nonlinear_arith)
        requires
            sum == v.w_l.value() + v.w_b.value() + v.w_t.value() + v.w_p.value(),
    ;
    assert(total * u == w.w_l.value() * u + w.w_b.value() * u + w.w_t.value() * u + w.w_p.value() * u)
        by (nonlinear_arith)
        requires
            total == w.w_l.value() + w.w_b.value() + w.w_t.value() + w.w_p.value(),
    ;
    let e = total * u - sum * d;
    assert(-(sum * d + 4 * (d * 0x10_0000_0000_0000)) <= e * top <= sum * d + 4 * (d * 0x10_0000_0000_0000));
    let f = total - d;
    assert(-(3 * d) <= f * top <= 3 * d);
    assert(sum <= 4 * u);
    assert(4 * 0x10_0000_0000_0000 <= u) by {
        vstd::arithmetic::power2::lemma2_to64_rest();
        vstd::arithmetic::power2::lemma_pow2_strictly_increases(54, 1074);
    }
    lemma_sum_bound(sum, d, u, total, e, f, top);
}

/// One share of a sum is off by little.
proof fn lemma_share_error(w: Binary64, s: Binary64)
    requires
        w.usable(),
        s.positive(),
        w.at_most(s),
    ensures
        ({
            let r = w.over(s).value();
            let e = w.value() * binary64::one_unit() - r * s.value();
            let bound = r * s.value() + s.value() * 0x10_0000_0000_0000;
            &&& -bound <= e * 0x20_0000_0000_0000 <= bound
            &&& 0 <= r <= binary64::one_unit()
        }),
{
    order::lemma_constants();
    order::lemma_over_at_most_one(w, s);
    order::lemma_over_error(w, s);
    let r = w.over(s).value();
    let d = s.value();
    assert(r * d >= 0) by (nonlinear_arith)
        requires
            r >= 0,
            d > 0,
    ;
}

proof fn lemma_sum_bound(sum: int, d: int, u: int, total: int, e: int, f: int, top: int)
    requires
        d > 0,
        u > 0,
        top == 0x20_0000_0000_0000,
        e == total * u - sum * d,
        f == total - d,
        -(sum * d + 4 * (d * 0x10_0000_0000_0000)) <= e * top <= sum * d + 4 * (d * 0x10_0000_0000_0000),
        -(3 * d) <= f * top <= 3 * d,
        0 <= sum <= 4 * u,
        4 * 0x10_0000_0000_0000 <= u,
    ensures
        -u <= (sum - u) * 0x4_0000_0000_0000 <= u,
{
    // d (sum - u) = f u - e.
    assert(d * (sum - u) == f * u - e) by (nonlinear_arith)
        requires
            e == total * u - sum * d,
            f == total - d,
    ;
    assert(-(3 * d) * u <= (f * top) * u <= (3 * d) * u) by (nonlinear_arith)
        requires
            -(3 * d) <= f * top <= 3 * d,
            u > 0,
    ;
    assert((d * (sum - u)) * top == (f * top) * u - e * top) by (nonlinear_arith)
        requires
            d * (sum - u) == f * u - e,
    ;
    assert(sum * d <= (4 * u) * d) by (nonlinear_arith)
        requires
            sum <= 4 * u,
            d > 0,
    ;
    assert(d * 0x40_0000_0000_0000 <= d * u) by (nonlinear_arith)
        requires
            0x40_0000_0000_0000 <= u,
            d > 0,
    ;
    let k = (sum - u) * top;
    let (du, sd, fu, et) = (d * u, sum * d, (f * top) * u, e * top);
    assert((d * (sum - u)) * top == d * k) by (nonlinear_arith)
        requires
            k == (sum - u) * top,
    ;
    assert((3 * d) * u == 3 * du && -(3 * d) * u == -(3 * du) && (4 * u) * d == 4 * du) by (nonlinear_arith)
        requires
            du == d * u,
    ;
    assert(d * k == fu - et);
    assert(-(3 * du) <= fu <= 3 * du);
    assert(sd <= 4 * du);
    assert(-(sd + du) <= et <= sd + du);
    assert(-(8 * du) <= d * k <= 8 * du);
    assert(-(8 * u) <= k <= 8 * u) by (nonlinear_arith)
        requires
            -(8 * du) <= d * k <= 8 * du,
            du == d * u,
            d > 0,
    ;
}

/// Weights that are all zero split the blend equally.
pub proof fn lemma_zero_weights_split_equally(w: Weights)
    requires
        weights_usable(w),
        w.w_l.value() == 0,
        w.w_b.value() == 0,
        w.w_t.value() == 0,
        w.w_p.value() == 0,
    ensures
        scorer::normalized(w).w_l == Binary64::fraction(1, 4),
        scorer::normalized(w).w_b == Binary64::fraction(1, 4),
        scorer::normalized(w).w_t == Binary64::fraction(1, 4),
        scorer::normalized(w).w_p == Binary64::fraction(1, 4),
{
    order::lemma_constants();
    order::lemma_rounded_exact(Binary64::zero(), 1);
    order::lemma_plus(w.w_l, w.w_b);
    let a = w.w_l.plus(w.w_b);
    order::lemma_finite_bounds(a);
    order::lemma_plus(a, w.w_t);
    let b = a.plus(w.w_t);
    order::lemma_finite_bounds(b);
    order::lemma_plus(b, w.w_p);
}

// ---- axes ----

/// Every axis of a score lies in the unit interval.
pub proof fn lemma_axes_in_unit(
    c: CandidateView,
    spec: JobSpecView,
    graph: Option<LatencyModel>,
    ln_delivered: Binary64,
    ln_saturation: Binary64,
)
    ensures
        in_unit(scorer::latency_fit(c, spec, graph)),
        in_unit(scorer::bench_fit(c, spec).score),
        in_unit(scorer::trust_given(c, ln_delivered, ln_saturation).score),
        in_unit(scorer::price_fit(c, spec)),
{
    order::lemma_constants();
    order::lemma_fraction_at_most_one(1, 2);
    let cap = scorer::usable_or(spec.rtt_soft_cap_ms, Binary64::fraction(250, 1));
    order::lemma_clamped(Binary64::one().minus(scorer::rtt_of(c, spec, graph).over(cap)));
    let (n, d) = scorer::fit_sums(scorer::asked_axes(spec.demand), c);
    order::lemma_clamped(n.over(d));
    order::lemma_clamped(Binary64::fraction(1, 2));
    assert forall|x: Binary64| in_unit(#[trigger] x.clamped()) by {
        order::lemma_clamped(x);
    }
}

/// Nearer is better: of two reachable hosts the one with the lower RTT never has the lower latency
/// score, and an unreachable host scores zero.
pub proof fn lemma_nearer_is_no_worse(
    near: CandidateView,
    far: CandidateView,
    spec: JobSpecView,
    graph: Option<LatencyModel>,
)
    requires
        scorer::rtt_of(near, spec, graph).at_most(scorer::rtt_of(far, spec, graph)),
        scorer::rtt_of(near, spec, graph).finite(),
    ensures
        scorer::latency_fit(far, spec, graph).at_most(scorer::latency_fit(near, spec, graph)),
        !scorer::rtt_of(far, spec, graph).finite() ==> scorer::latency_fit(far, spec, graph) == Binary64::zero(),
{
    let a = scorer::rtt_of(near, spec, graph);
    let b = scorer::rtt_of(far, spec, graph);
    let cap = scorer::usable_or(spec.rtt_soft_cap_ms, Binary64::fraction(250, 1));
    order::lemma_constants();
    order::lemma_whole_number(250);
    order::lemma_clamped(Binary64::one().minus(a.over(cap)));
    if Binary64::zero().less(cap) && b.finite() {
        order::lemma_over_ordered(a, b, cap);
        order::lemma_one_minus_shrinks(a.over(cap), b.over(cap));
    }
}

/// At or past the soft cap, latency contributes nothing.
pub proof fn lemma_latency_floors_past_the_cap(c: CandidateView, spec: JobSpecView, graph: Option<LatencyModel>)
    requires
        scorer::usable_or(spec.rtt_soft_cap_ms, Binary64::fraction(250, 1)).at_most(
            scorer::rtt_of(c, spec, graph),
        ),
    ensures
        scorer::latency_fit(c, spec, graph).value() == 0,
{
    let cap = scorer::usable_or(spec.rtt_soft_cap_ms, Binary64::fraction(250, 1));
    let rtt = scorer::rtt_of(c, spec, graph);
    order::lemma_constants();
    order::lemma_whole_number(250);
    if Binary64::zero().less(cap) && rtt.finite() {
        let one = Binary64::one();
        order::lemma_over_itself(cap);
        order::lemma_over_grows(cap, rtt, cap);
        order::lemma_one_minus_shrinks(one, rtt.over(cap));
        order::lemma_negated(one);
        order::lemma_plus(one, one.negated());
        order::lemma_rounded_exact(Binary64::zero(), 1);
        order::lemma_clamped(one.minus(rtt.over(cap)));
        order::lemma_clamped(one.minus(one));
    }
}

// ---- price ----

proof fn lemma_price_steps_grow(ask: int, more: int, cap: int)
    requires
        0 < ask <= more < cap <= i128::MAX,
    ensures
        0 <= scorer::price_steps(ask, cap) <= scorer::price_steps(more, cap) <= 2_000_000,
{
    let s = scorer::PRICE_SCALE as int;
    assert(0 <= (ask * s) / cap <= (more * s) / cap <= s) by (nonlinear_arith)
        requires
            0 < ask <= more < cap,
            s == 1_000_000,
    ;
    if more * s > i128::MAX {
        let q = cap / s;
        assert(q >= 1_000_000);
        assert((more * s) / cap <= more / q) by (nonlinear_arith)
            requires
                0 < more < cap,
                q * s <= cap,
                q >= 1_000_000,
                s == 1_000_000,
        {
            let x = (more * s) / cap;
            assert(x * cap <= more * s);
            assert(x * (q * s) <= x * cap) by (nonlinear_arith)
                requires
                    q * s <= cap,
                    x >= 0,
            ;
            assert(x * q <= more) by (nonlinear_arith)
                requires
                    x * (q * s) <= more * s,
                    s == 1_000_000,
            ;
            assert(x <= more / q) by (nonlinear_arith)
                requires
                    x * q <= more,
                    q >= 1,
            ;
        }
        assert(ask / q <= more / q) by (nonlinear_arith)
            requires
                0 < ask <= more,
                q >= 1,
        ;
        assert(0 <= ask / q) by (nonlinear_arith)
            requires
                0 < ask,
                q >= 1,
        ;
        assert(more / q <= 2_000_000) by (nonlinear_arith)
            requires
                0 < more < cap,
                cap < (q + 1) * 1_000_000,
                q >= 1_000_000,
        ;
    }
}

/// Cheaper is better: of two hosts that ask, the one that asks less never has the lower price score.
pub proof fn lemma_cheaper_is_no_worse(cheap: CandidateView, dear: CandidateView, spec: JobSpecView)
    requires
        scorer::given_amount(cheap.ask_base_units) is Some,
        scorer::given_amount(dear.ask_base_units) is Some,
        scorer::given_amount(cheap.ask_base_units)->0 <= scorer::given_amount(dear.ask_base_units)->0,
    ensures
        scorer::price_fit(dear, spec).at_most(scorer::price_fit(cheap, spec)),
{
    order::lemma_constants();
    order::lemma_clamped(scorer::usable_or(spec.default_price_score, Binary64::fraction(1, 2)));
    match scorer::given_amount(spec.price_cap_base_units) {
        Some(cap) => {
            let a = scorer::given_amount(cheap.ask_base_units)->0;
            let b = scorer::given_amount(dear.ask_base_units)->0;
            let scale = Binary64::fraction(scorer::PRICE_SCALE as int, 1);
            let x = Binary64::fraction(scorer::price_steps(a, cap), 1);
            let y = Binary64::fraction(scorer::price_steps(b, cap), 1);
            order::lemma_clamped(Binary64::one().minus(x.over(scale)));
            order::lemma_clamped(Binary64::one().minus(y.over(scale)));
            if 0 < a && b < cap {
                lemma_price_steps_grow(a, b, cap);
                order::lemma_whole_number(scorer::PRICE_SCALE as int);
                order::lemma_whole_number(scorer::price_steps(a, cap));
                order::lemma_whole_number(scorer::price_steps(b, cap));
                order::lemma_fraction_grows(scorer::price_steps(a, cap), scorer::price_steps(b, cap), 1);
                order::lemma_fraction(scorer::price_steps(a, cap), 1);
                let u = binary64::one_unit();
                assert(scorer::PRICE_SCALE * u > 0) by (nonlinear_arith)
                    requires
                        u > 0,
                        scorer::PRICE_SCALE == 1_000_000,
                ;
                order::lemma_over_grows(x, y, scale);
                order::lemma_one_minus_shrinks(x.over(scale), y.over(scale));
            }
        },
        None => {},
    }
}

/// A free host has the best price score and one at or over a positive cap the worst; without an ask
/// or without a cap the score is the default.
pub proof fn lemma_price_at_the_ends(c: CandidateView, spec: JobSpecView)
    ensures
        match (scorer::given_amount(c.ask_base_units), scorer::given_amount(spec.price_cap_base_units)) {
            (Some(ask), Some(cap)) => {
                &&& cap > 0 && ask <= 0 ==> scorer::price_fit(c, spec) == Binary64::one()
                &&& cap > 0 && ask >= cap ==> scorer::price_fit(c, spec) == Binary64::zero()
            },
            _ => scorer::price_fit(c, spec) == scorer::usable_or(
                spec.default_price_score,
                Binary64::fraction(1, 2),
            ).clamped(),
        },
{
}

// ---- benchmark fit ----

/// Every axis that is asked for has a positive weight.
pub open spec fn weights_positive(axes: Seq<(ProfileAxis, DemandAxis)>) -> bool {
    forall|k: int| 0 <= k < axes.len() ==> Binary64::zero().less((#[trigger] axes[k]).1.weight)
}

/// The candidate offers at most what the other offers on every axis that counts.
pub open spec fn offers_no_more(axes: Seq<(ProfileAxis, DemandAxis)>, c: CandidateView, d: CandidateView) -> bool {
    forall|k: int|
        0 <= k < axes.len() && Binary64::zero().less((#[trigger] axes[k]).1.target) ==> scorer::offered(
            axes[k].0,
            c,
        ).at_most(scorer::offered(axes[k].0, d))
}

/// The candidate clears the target on every axis that counts.
pub open spec fn clears_targets(axes: Seq<(ProfileAxis, DemandAxis)>, c: CandidateView) -> bool {
    forall|k: int|
        0 <= k < axes.len() && Binary64::zero().less((#[trigger] axes[k]).1.target) ==> cleared(axes[k], c)
}

proof fn lemma_fit_sums(axes: Seq<(ProfileAxis, DemandAxis)>, c: CandidateView)
    requires
        weights_positive(axes),
        scorer::fit_sums(axes, c).1.finite(),
    ensures
        Binary64::zero().at_most(scorer::fit_sums(axes, c).0),
        scorer::fit_sums(axes, c).0.at_most(scorer::fit_sums(axes, c).1),
    decreases axes.len(),
{
    order::lemma_constants();
    if axes.len() > 0 {
        let rest = axes.drop_last();
        let (n, d) = scorer::fit_sums(rest, c);
        let (axis, a) = axes.last();
        assert(axes[axes.len() - 1] == (axis, a));
        lemma_weight_total(rest, c);
        if Binary64::zero().less(a.target) {
            order::lemma_finite_sum(d, a.weight);
            lemma_fit_sums(rest, c);
            let fit = scorer::offered(axis, c).over(a.target).clamped();
            order::lemma_clamped(scorer::offered(axis, c).over(a.target));
            order::lemma_times_shrinks(a.weight, fit);
            let t = a.weight.times(fit);
            order::lemma_plus_grows_nonnegative(n, d, t);
            order::lemma_plus_grows_nonnegative(t, a.weight, d);
            order::lemma_plus_commutes(t, d);
            order::lemma_plus_commutes(a.weight, d);
        } else {
            lemma_fit_sums(rest, c);
        }
    }
}

proof fn lemma_weight_total(axes: Seq<(ProfileAxis, DemandAxis)>, c: CandidateView)
    requires
        weights_positive(axes),
    ensures
        Binary64::zero().at_most(scorer::fit_sums(axes, c).1),
    decreases axes.len(),
{
    order::lemma_constants();
    if axes.len() > 0 {
        let rest = axes.drop_last();
        let (n, d) = scorer::fit_sums(rest, c);
        let (axis, a) = axes.last();
        assert(axes[axes.len() - 1] == (axis, a));
        lemma_weight_total(rest, c);
        order::lemma_finite_bounds(d);
        order::lemma_value_sign(d);
        order::lemma_plus_nonnegative(d, a.weight);
    }
}

proof fn lemma_fit_sums_grow(axes: Seq<(ProfileAxis, DemandAxis)>, c: CandidateView, d: CandidateView)
    requires
        weights_positive(axes),
        scorer::fit_sums(axes, c).1.finite(),
        offers_no_more(axes, c, d),
    ensures
        scorer::fit_sums(axes, c).1 == scorer::fit_sums(axes, d).1,
        scorer::fit_sums(axes, c).0.at_most(scorer::fit_sums(axes, d).0),
    decreases axes.len(),
{
    order::lemma_constants();
    if axes.len() > 0 {
        let rest = axes.drop_last();
        let (axis, a) = axes.last();
        assert(axes[axes.len() - 1] == (axis, a));
        assert forall|k: int| 0 <= k < rest.len() && Binary64::zero().less((#[trigger] rest[k]).1.target) implies scorer::offered(
            rest[k].0,
            c,
        ).at_most(scorer::offered(rest[k].0, d)) by {
            assert(rest[k] == axes[k]);
        }
        let (n, total) = scorer::fit_sums(rest, c);
        lemma_weight_total(rest, c);
        if Binary64::zero().less(a.target) {
            order::lemma_finite_sum(total, a.weight);
            lemma_fit_sums_grow(rest, c, d);
            lemma_fit_sums(rest, c);
            lemma_fit_sums(rest, d);
            let x = scorer::offered(axis, c).over(a.target);
            let y = scorer::offered(axis, d).over(a.target);
            order::lemma_over_clamped_grows(scorer::offered(axis, c), scorer::offered(axis, d), a.target);
            order::lemma_clamped(x);
            order::lemma_clamped(y);
            order::lemma_times_grows(x.clamped(), y.clamped(), a.weight);
            order::lemma_times_shrinks(a.weight, x.clamped());
            order::lemma_times_shrinks(a.weight, y.clamped());
            let s = a.weight.times(x.clamped());
            let t = a.weight.times(y.clamped());
            let m = scorer::fit_sums(rest, d).0;
            order::lemma_plus_grows_nonnegative(n, m, s);
            order::lemma_plus_grows_nonnegative(s, t, m);
            order::lemma_plus_commutes(s, m);
            order::lemma_plus_commutes(t, m);
        } else {
            lemma_fit_sums_grow(rest, c, d);
        }
    }
}

proof fn lemma_asked_weights(spec: JobSpecView)
    ensures
        weights_positive(scorer::asked_axes(spec.demand)),
{
}

proof fn lemma_same_total(axes: Seq<(ProfileAxis, DemandAxis)>, c: CandidateView, d: CandidateView)
    ensures
        scorer::fit_sums(axes, c).1 == scorer::fit_sums(axes, d).1,
    decreases axes.len(),
{
    if axes.len() > 0 {
        lemma_same_total(axes.drop_last(), c, d);
    }
}

/// Over an infinite total nothing is left.
proof fn lemma_over_infinite(n: Binary64, total: Binary64)
    requires
        total.infinite(),
    ensures
        !n.over(total).clamped().nan(),
        n.over(total).clamped().value() == 0,
{
    reveal(Binary64::over);
    order::lemma_constants();
    order::lemma_clamped(n.over(total));
    if n.finite() {
        order::lemma_of(n.negative() != total.negative(), 0);
    }
}

/// Fitter is better: of two hosts the one that offers no less on any axis that counts never has the
/// lower fit.
pub proof fn lemma_fitter_is_no_worse(less: CandidateView, more: CandidateView, spec: JobSpecView)
    requires
        offers_no_more(scorer::asked_axes(spec.demand), less, more),
    ensures
        scorer::bench_fit(less, spec).score.at_most(scorer::bench_fit(more, spec).score),
{
    let axes = scorer::asked_axes(spec.demand);
    order::lemma_constants();
    order::lemma_fraction_at_most_one(1, 2);
    order::lemma_clamped(Binary64::fraction(1, 2));
    lemma_asked_weights(spec);
    lemma_same_total(axes, less, more);
    lemma_weight_total(axes, less);
    let (n, total) = scorer::fit_sums(axes, less);
    let m = scorer::fit_sums(axes, more).0;
    if total.finite() {
        lemma_fit_sums_grow(axes, less, more);
        lemma_fit_sums(axes, less);
        lemma_fit_sums(axes, more);
        if Binary64::zero().less(total) {
            order::lemma_over_clamped_grows(n, m, total);
        }
    } else {
        lemma_over_infinite(n, total);
        lemma_over_infinite(m, total);
    }
}

/// A number that is at least the target saturates.
proof fn lemma_cleared(x: Binary64, target: Binary64)
    requires
        Binary64::zero().less(target),
        target.at_most(x),
        x.finite(),
    ensures
        x.over(target).clamped() == Binary64::one(),
{
    order::lemma_constants();
    order::lemma_finite_bounds(x);
    order::lemma_finite_bounds(target);
    order::lemma_over_itself(target);
    order::lemma_over_grows(target, x, target);
    if !Binary64::one().less(x.over(target)) {
        order::lemma_same_value(x.over(target), Binary64::one());
    }
}

/// On every axis that counts the two candidates offer the same, or both clear the target.
pub open spec fn alike_or_cleared(axes: Seq<(ProfileAxis, DemandAxis)>, c: CandidateView, d: CandidateView) -> bool {
    forall|k: int|
        0 <= k < axes.len() && Binary64::zero().less((#[trigger] axes[k]).1.target) ==> {
            ||| scorer::offered(axes[k].0, c) == scorer::offered(axes[k].0, d)
            ||| cleared(axes[k], c) && cleared(axes[k], d)
        }
}

/// The candidate offers a finite amount that is at least the target of the axis.
pub open spec fn cleared(asked: (ProfileAxis, DemandAxis), c: CandidateView) -> bool {
    asked.1.target.at_most(scorer::offered(asked.0, c)) && scorer::offered(asked.0, c).finite()
}

proof fn lemma_saturated_sums(axes: Seq<(ProfileAxis, DemandAxis)>, c: CandidateView, d: CandidateView)
    requires
        alike_or_cleared(axes, c, d),
    ensures
        scorer::fit_sums(axes, c) == scorer::fit_sums(axes, d),
    decreases axes.len(),
{
    if axes.len() > 0 {
        let rest = axes.drop_last();
        let (axis, a) = axes.last();
        assert(axes[axes.len() - 1] == (axis, a));
        assert forall|k: int| 0 <= k < rest.len() && Binary64::zero().less((#[trigger] rest[k]).1.target) implies {
            ||| scorer::offered(rest[k].0, c) == scorer::offered(rest[k].0, d)
            ||| cleared(rest[k], c) && cleared(rest[k], d)
        } by {
            assert(rest[k] == axes[k]);
        }
        lemma_saturated_sums(rest, c, d);
        if Binary64::zero().less(a.target) && scorer::offered(axis, c) != scorer::offered(axis, d) {
            lemma_cleared(scorer::offered(axis, c), a.target);
            lemma_cleared(scorer::offered(axis, d), a.target);
        }
    }
}

/// Each axis saturates at its target: two hosts that differ only on axes on which both clear the
/// target have equal fit.
pub proof fn lemma_each_axis_saturates(c: CandidateView, d: CandidateView, spec: JobSpecView)
    requires
        alike_or_cleared(scorer::asked_axes(spec.demand), c, d),
    ensures
        scorer::bench_fit(c, spec).score == scorer::bench_fit(d, spec).score,
{
    lemma_saturated_sums(scorer::asked_axes(spec.demand), c, d);
}

proof fn lemma_cleared_sums(axes: Seq<(ProfileAxis, DemandAxis)>, c: CandidateView)
    requires
        weights_positive(axes),
        scorer::fit_sums(axes, c).1.finite(),
        clears_targets(axes, c),
    ensures
        scorer::fit_sums(axes, c).0 == scorer::fit_sums(axes, c).1,
    decreases axes.len(),
{
    order::lemma_constants();
    if axes.len() > 0 {
        let rest = axes.drop_last();
        let (axis, a) = axes.last();
        assert(axes[axes.len() - 1] == (axis, a));
        assert forall|k: int| 0 <= k < rest.len() && Binary64::zero().less((#[trigger] rest[k]).1.target) implies cleared(
            rest[k],
            c,
        ) by {
            assert(rest[k] == axes[k]);
        }
        lemma_weight_total(rest, c);
        if Binary64::zero().less(a.target) {
            order::lemma_finite_sum(scorer::fit_sums(rest, c).1, a.weight);
            lemma_cleared_sums(rest, c);
            lemma_cleared(scorer::offered(axis, c), a.target);
            order::lemma_times_one(a.weight);
        } else {
            lemma_cleared_sums(rest, c);
        }
    }
}

/// Surplus hardware earns nothing: every host that clears all targets has the same, full fit. At least
/// one axis counts, and the weights are such that their sum is finite.
pub proof fn lemma_surplus_earns_nothing(c: CandidateView, spec: JobSpecView)
    requires
        clears_targets(scorer::asked_axes(spec.demand), c),
        scorer::fit_sums(scorer::asked_axes(spec.demand), c).1.positive(),
    ensures
        scorer::bench_fit(c, spec).score == Binary64::one(),
{
    let axes = scorer::asked_axes(spec.demand);
    order::lemma_constants();
    lemma_asked_weights(spec);
    lemma_cleared_sums(axes, c);
    let (n, total) = scorer::fit_sums(axes, c);
    order::lemma_over_itself(total);
    if axes.len() == 0 {
        assert(total == Binary64::zero());
    }
}

/// Hardware that nobody measured is told apart: only a measured profile has full confidence where
/// anything was asked.
pub proof fn lemma_estimates_are_marked(c: CandidateView, spec: JobSpecView)
    requires
        scorer::asked_axes(spec.demand).len() > 0,
    ensures
        scorer::bench_fit(c, spec).source == scorer::FitSource::Profile <==> c.profile is Some,
        scorer::bench_fit(c, spec).source == scorer::FitSource::Atlas <==> c.profile is None,
        c.profile is Some ==> scorer::bench_fit(c, spec).confidence == Binary64::one(),
        c.profile is None ==> scorer::bench_fit(c, spec).confidence.less(Binary64::one()),
{
    order::lemma_constants();
    order::lemma_fraction_apart(6, 10);
}

// ---- trust ----

/// A suspect claim is floored: at most a tenth, and nothing at all without delivered work.
pub proof fn lemma_suspects_are_floored(c: CandidateView, ln_delivered: Binary64, ln_saturation: Binary64)
    requires
        scorer::trust_given(c, ln_delivered, ln_saturation).benchmark_suspect,
    ensures
        scorer::trust_given(c, ln_delivered, ln_saturation).score.at_most(Binary64::fraction(1, 10)),
        scorer::proven_work(c) <= 0 ==> scorer::trust_given(c, ln_delivered, ln_saturation).score.value() == 0,
{
    order::lemma_constants();
    order::lemma_fraction_at_most_one(1, 10);
    let base = if Binary64::zero().less(ln_saturation) {
        ln_delivered.over(ln_saturation)
    } else {
        Binary64::zero()
    };
    let confidence = if c.profile is Some { Binary64::one() } else { Binary64::fraction(85, 100) };
    order::lemma_clamped(base.times(scorer::recency(c)).times(confidence));
}

/// A host without a profile claims nothing and is never suspect, nor is one that has delivered twenty
/// jobs or heartbeats.
pub proof fn lemma_who_is_never_suspect(c: CandidateView, ln_delivered: Binary64, ln_saturation: Binary64)
    requires
        c.profile is None || scorer::proven_work(c) >= 20,
    ensures
        !scorer::trust_given(c, ln_delivered, ln_saturation).benchmark_suspect,
{
}

/// Trust grows with delivered work: of two hosts with the same measured profile, the one that has
/// delivered no less, whose logarithm is no less, and that is no more dormant, is trusted no less.
pub proof fn lemma_delivered_work_is_trusted(
    c: CandidateView,
    d: CandidateView,
    ln_c: Binary64,
    ln_d: Binary64,
    ln_saturation: Binary64,
)
    requires
        c.profile == d.profile,
        scorer::proven_work(c) <= scorer::proven_work(d),
        scorer::recency(c).at_most(scorer::recency(d)),
        ln_c.finite(),
        ln_d.finite(),
        ln_c.value() >= 0,
        ln_c.at_most(ln_d),
        ln_saturation.finite(),
    ensures
        scorer::trust_given(c, ln_c, ln_saturation).score.at_most(scorer::trust_given(d, ln_d, ln_saturation).score),
{
    order::lemma_constants();
    order::lemma_fraction_at_most_one(1, 10);
    lemma_discounts();
    let zero = Binary64::zero();
    let base_c = if zero.less(ln_saturation) { ln_c.over(ln_saturation) } else { zero };
    let base_d = if zero.less(ln_saturation) { ln_d.over(ln_saturation) } else { zero };
    if zero.less(ln_saturation) {
        order::lemma_over(ln_c, ln_saturation);
        order::lemma_over_grows(ln_c, ln_d, ln_saturation);
    }
    let confidence = if c.profile is Some { Binary64::one() } else { Binary64::fraction(85, 100) };
    let x = base_c.times(scorer::recency(c));
    let y = base_d.times(scorer::recency(d));
    lemma_times_both_grow(base_c, base_d, scorer::recency(c), scorer::recency(d));
    order::lemma_times_positive_grows(x, y, confidence);
    order::lemma_clamped_grows(x.times(confidence), y.times(confidence));
    order::lemma_clamped(x.times(confidence));
    order::lemma_clamped(y.times(confidence));
}

/// More proven is trusted no less: of two hosts with the same measured profile, the one that has
/// delivered no less work and is no more dormant has at least the trust of the other, given a
/// logarithm that rises, and is suspect only if the other is.
pub proof fn lemma_more_proven_is_trusted_no_less(
    c: CandidateView,
    d: CandidateView,
    spec: JobSpecView,
    m: spec_fn(Elementary, Binary64) -> Binary64,
)
    requires
        elementary::rises(m),
        c.profile == d.profile,
        c.countable(),
        d.countable(),
        scorer::proven_work(c) <= scorer::proven_work(d),
        scorer::recency(c).at_most(scorer::recency(d)),
    ensures
        in_unit(scorer::trust(c, spec, m).score),
        in_unit(scorer::trust(d, spec, m).score),
        scorer::trust(c, spec, m).score.at_most(scorer::trust(d, spec, m).score),
        scorer::trust(d, spec, m).benchmark_suspect ==> scorer::trust(c, spec, m).benchmark_suspect,
{
    let x = Binary64::fraction(scorer::proven_work(c), 1);
    let y = Binary64::fraction(scorer::proven_work(d), 1);
    let sat = scorer::saturation(spec);
    order::lemma_constants();
    order::lemma_wide_number(scorer::proven_work(c));
    order::lemma_wide_number(scorer::proven_work(d));
    order::lemma_whole_number(50);
    order::lemma_fraction_grows(scorer::proven_work(c), scorer::proven_work(d), 1);
    let ln_c = m(Elementary::LnOnePlus, x);
    let ln_d = m(Elementary::LnOnePlus, y);
    let ln_sat = m(Elementary::LnOnePlus, sat);
    order::lemma_finite_bounds(ln_c);
    order::lemma_finite_bounds(ln_d);
    lemma_axes_in_unit(c, spec, None, ln_c, ln_sat);
    lemma_axes_in_unit(d, spec, None, ln_d, ln_sat);
    lemma_delivered_work_is_trusted(c, d, ln_c, ln_d, ln_sat);
}

/// Unmeasured hardware is trusted no more than measured hardware of the same standing, unless the
/// measured claim is suspect.
pub proof fn lemma_unmeasured_hardware_is_discounted(
    unmeasured: CandidateView,
    measured: CandidateView,
    ln_delivered: Binary64,
    ln_saturation: Binary64,
)
    requires
        unmeasured.profile is None,
        measured.profile is Some,
        unmeasured.history == measured.history,
        ln_delivered.finite(),
        ln_delivered.value() >= 0,
        ln_saturation.finite(),
        !scorer::trust_given(measured, ln_delivered, ln_saturation).benchmark_suspect,
    ensures
        scorer::trust_given(unmeasured, ln_delivered, ln_saturation).score.at_most(
            scorer::trust_given(measured, ln_delivered, ln_saturation).score,
        ),
{
    order::lemma_constants();
    lemma_discounts();
    let zero = Binary64::zero();
    let base = if zero.less(ln_saturation) { ln_delivered.over(ln_saturation) } else { zero };
    if zero.less(ln_saturation) {
        order::lemma_over(ln_delivered, ln_saturation);
    }
    let x = base.times(scorer::recency(measured));
    order::lemma_times_positive_grows(base, base, scorer::recency(measured));
    lemma_times_both_grow(x, x, Binary64::fraction(85, 100), Binary64::one());
    order::lemma_clamped_grows(x.times(Binary64::fraction(85, 100)), x.times(Binary64::one()));
    order::lemma_clamped(x.times(Binary64::fraction(85, 100)));
    order::lemma_clamped(x.times(Binary64::one()));
}

proof fn lemma_discounts()
    ensures
        Binary64::fraction(75, 100).finite(),
        0 < Binary64::fraction(75, 100).value() <= Binary64::one().value(),
        Binary64::fraction(85, 100).finite(),
        0 < Binary64::fraction(85, 100).value() <= Binary64::one().value(),
{
    order::lemma_constants();
    order::lemma_fraction_at_most_one(75, 100);
    order::lemma_fraction_at_most_one(85, 100);
    order::lemma_fraction_apart(75, 100);
    order::lemma_fraction_apart(85, 100);
}

proof fn lemma_times_both_grow(a: Binary64, b: Binary64, r: Binary64, s: Binary64)
    requires
        Binary64::zero().at_most(a),
        a.at_most(b),
        r.finite(),
        s.finite(),
        0 < r.value() <= s.value(),
    ensures
        a.times(r).at_most(b.times(s)),
        Binary64::zero().at_most(a.times(r)),
        Binary64::zero().at_most(b.times(s)),
{
    order::lemma_times_positive_grows(a, b, r);
    order::lemma_times_positive_grows(b, b, s);
    order::lemma_finite_bounds(b);
    if b.finite() {
        order::lemma_times_grows(r, s, b);
    } else {
        order::lemma_times_positive_grows(b, b, r);
        order::lemma_infinite_times(b, s);
        order::lemma_finite_bounds(b.times(r));
        order::lemma_finite_bounds(b.times(s));
    }
}

// ---- the blend ----

/// A blend that is no worse on any axis is no worse.
pub proof fn lemma_blend_grows(
    w: Weights,
    l: Binary64,
    f: Binary64,
    t: Binary64,
    p: Binary64,
    l2: Binary64,
    f2: Binary64,
    t2: Binary64,
    p2: Binary64,
)
    requires
        in_unit(w.w_l) && in_unit(w.w_b) && in_unit(w.w_t) && in_unit(w.w_p),
        in_unit(l) && in_unit(f) && in_unit(t) && in_unit(p),
        in_unit(l2) && in_unit(f2) && in_unit(t2) && in_unit(p2),
        l.at_most(l2),
        f.at_most(f2),
        t.at_most(t2),
        p.at_most(p2),
    ensures
        scorer::blend(w, l, f, t, p).at_most(scorer::blend(w, l2, f2, t2, p2)),
{
    order::lemma_constants();
    let (a, a2) = (w.w_l.times(l), w.w_l.times(l2));
    let (b, b2) = (w.w_b.times(f), w.w_b.times(f2));
    let (c, c2) = (w.w_t.times(t), w.w_t.times(t2));
    let (d, d2) = (w.w_p.times(p), w.w_p.times(p2));
    lemma_term_grows(w.w_l, l, l2);
    lemma_term_grows(w.w_b, f, f2);
    lemma_term_grows(w.w_t, t, t2);
    lemma_term_grows(w.w_p, p, p2);
    lemma_sum_grows(a, a2, b, b2);
    lemma_sum_grows(a.plus(b), a2.plus(b2), c, c2);
    lemma_sum_grows(a.plus(b).plus(c), a2.plus(b2).plus(c2), d, d2);
    order::lemma_clamped_grows(a.plus(b).plus(c).plus(d), a2.plus(b2).plus(c2).plus(d2));
}

proof fn lemma_term_grows(w: Binary64, x: Binary64, y: Binary64)
    requires
        in_unit(w),
        in_unit(x),
        in_unit(y),
        x.at_most(y),
    ensures
        Binary64::zero().at_most(w.times(x)),
        w.times(x).at_most(w.times(y)),
{
    order::lemma_constants();
    order::lemma_times_grows(x, y, w);
    order::lemma_times(w, x);
}

proof fn lemma_sum_grows(a: Binary64, a2: Binary64, b: Binary64, b2: Binary64)
    requires
        Binary64::zero().at_most(a),
        a.at_most(a2),
        Binary64::zero().at_most(b),
        b.at_most(b2),
    ensures
        Binary64::zero().at_most(a.plus(b)),
        a.plus(b).at_most(a2.plus(b2)),
{
    order::lemma_plus_grows_nonnegative(a, a2, b);
    order::lemma_plus_grows_nonnegative(b, b2, a2);
    order::lemma_plus_commutes(b, a2);
    order::lemma_plus_commutes(b2, a2);
}

/// Improving any axis, all else equal, never lowers a score: of two hosts with the same runtime factor,
/// the one that is no worse on any axis scores no lower.
pub proof fn lemma_better_axes_score_no_lower(
    c: CandidateView,
    d: CandidateView,
    spec: JobSpecView,
    graph: Option<LatencyModel>,
    trust_c: Trust,
    trust_d: Trust,
)
    requires
        in_unit(trust_c.score),
        in_unit(trust_d.score),
        trust_c.score.at_most(trust_d.score),
        scorer::latency_fit(c, spec, graph).at_most(scorer::latency_fit(d, spec, graph)),
        scorer::bench_fit(c, spec).score.at_most(scorer::bench_fit(d, spec).score),
        scorer::price_fit(c, spec).at_most(scorer::price_fit(d, spec)),
        ({
            let w = scorer::normalized(scorer::raw_weights(spec));
            scorer::runtime_factor(c, spec.payer, w) == scorer::runtime_factor(d, spec.payer, w)
        }),
    ensures
        scorer::scored_with(c, spec, graph, trust_c).score.at_most(scorer::scored_with(d, spec, graph, trust_d).score),
{
    let w = scorer::normalized(scorer::raw_weights(spec));
    let factor = scorer::runtime_factor(c, spec.payer, w);
    lemma_weights_in_unit(spec);
    lemma_axes_in_unit(c, spec, graph, Binary64::zero(), Binary64::zero());
    lemma_axes_in_unit(d, spec, graph, Binary64::zero(), Binary64::zero());
    lemma_blend_grows(
        w,
        scorer::latency_fit(c, spec, graph),
        scorer::bench_fit(c, spec).score,
        trust_c.score,
        scorer::price_fit(c, spec),
        scorer::latency_fit(d, spec, graph),
        scorer::bench_fit(d, spec).score,
        trust_d.score,
        scorer::price_fit(d, spec),
    );
    let x = scorer::blend(
        w,
        scorer::latency_fit(c, spec, graph),
        scorer::bench_fit(c, spec).score,
        trust_c.score,
        scorer::price_fit(c, spec),
    );
    let y = scorer::blend(
        w,
        scorer::latency_fit(d, spec, graph),
        scorer::bench_fit(d, spec).score,
        trust_d.score,
        scorer::price_fit(d, spec),
    );
    lemma_blend_in_unit(w, scorer::latency_fit(c, spec, graph), scorer::bench_fit(c, spec).score, trust_c.score, scorer::price_fit(c, spec));
    lemma_blend_in_unit(w, scorer::latency_fit(d, spec, graph), scorer::bench_fit(d, spec).score, trust_d.score, scorer::price_fit(d, spec));
    lemma_runtime_factor(c, spec.payer, w);
    order::lemma_times_grows(x, y, factor);
    order::lemma_clamped_grows(x.times(factor), y.times(factor));
}

proof fn lemma_blend_in_unit(w: Weights, l: Binary64, f: Binary64, t: Binary64, p: Binary64)
    ensures
        in_unit(scorer::blend(w, l, f, t, p)),
{
    order::lemma_clamped(w.w_l.times(l).plus(w.w_b.times(f)).plus(w.w_t.times(t)).plus(w.w_p.times(p)));
}

/// Getting nearer, cheaper and more proven, one or all of them, never lowers the blend: of two hosts
/// alike in all else, the one with the shorter RTT, the lower ask and no less delivered work scores no
/// lower, given a logarithm that rises.
pub proof fn lemma_nearer_cheaper_and_more_proven_scores_no_lower(
    c: CandidateView,
    d: CandidateView,
    spec: JobSpecView,
    graph: Option<LatencyModel>,
    m: spec_fn(Elementary, Binary64) -> Binary64,
)
    requires
        elementary::rises(m),
        c.countable(),
        d.countable(),
        d == (CandidateView { rtt_ms: d.rtt_ms, ask_base_units: d.ask_base_units, history: d.history, ..c }),
        c.rtt_ms.finite(),
        d.rtt_ms.finite(),
        d.rtt_ms.at_most(c.rtt_ms),
        scorer::given_amount(c.ask_base_units) is Some,
        scorer::given_amount(d.ask_base_units) is Some,
        scorer::given_amount(d.ask_base_units)->0 <= scorer::given_amount(c.ask_base_units)->0,
        scorer::proven_work(c) <= scorer::proven_work(d),
        scorer::recency(c).at_most(scorer::recency(d)),
    ensures
        in_unit(scorer::scored(c, spec, graph, m).score),
        in_unit(scorer::scored(d, spec, graph, m).score),
        scorer::scored(c, spec, graph, m).score.at_most(scorer::scored(d, spec, graph, m).score),
{
    let trust_c = scorer::trust(c, spec, m);
    let trust_d = scorer::trust(d, spec, m);
    lemma_more_proven_is_trusted_no_less(c, d, spec, m);
    lemma_nearer_is_no_worse(d, c, spec, graph);
    lemma_cheaper_is_no_worse(d, c, spec);
    assert(alike_or_cleared(scorer::asked_axes(spec.demand), c, d));
    lemma_each_axis_saturates(c, d, spec);
    lemma_axes_in_unit(c, spec, graph, Binary64::zero(), Binary64::zero());
    lemma_better_axes_score_no_lower(c, d, spec, graph, trust_c, trust_d);
    lemma_score_in_unit(c, spec, graph, trust_c);
    lemma_score_in_unit(d, spec, graph, trust_d);
}

/// The score of a host lies in the unit interval.
pub proof fn lemma_score_in_unit(c: CandidateView, spec: JobSpecView, graph: Option<LatencyModel>, trust: Trust)
    ensures
        in_unit(scorer::scored_with(c, spec, graph, trust).score),
{
    let w = scorer::normalized(scorer::raw_weights(spec));
    let s = scorer::scored_with(c, spec, graph, trust);
    order::lemma_clamped(
        scorer::blend(w, s.parts.latency, s.parts.bench_fit, s.parts.trust, s.parts.price).times(s.parts.runtime_factor),
    );
}

// ---- runtime ----

/// The multiplier of a browser host before any boost.
spec fn browser_factor(w_b: Binary64) -> Binary64 {
    scorer::browser_penalty().times(Binary64::one().minus(scorer::browser_discount().times(w_b.clamped())))
}

proof fn lemma_browser_factor(w_b: Binary64)
    ensures
        browser_factor(w_b).finite(),
        0 <= browser_factor(w_b).value(),
        browser_factor(w_b).at_most(scorer::browser_penalty()),
        Binary64::one().times(browser_factor(w_b)).finite(),
        Binary64::one().times(browser_factor(w_b)).value() == browser_factor(w_b).value(),
        in_unit(Binary64::one().minus(scorer::browser_discount().times(w_b.clamped()))),
        in_unit(scorer::browser_penalty()),
{
    let one = Binary64::one();
    let u = binary64::one_unit();
    order::lemma_constants();
    order::lemma_clamped(w_b);
    order::lemma_fraction_at_most_one(3, 10);
    order::lemma_fraction_at_most_one(6, 10);
    let x = scorer::browser_discount().times(w_b.clamped());
    order::lemma_times_shrinks(scorer::browser_discount(), w_b.clamped());
    order::lemma_finite_bounds(x);
    order::lemma_finite_bounds(scorer::browser_discount());
    lemma_left_of_one(x);
    let left = one.minus(x);
    order::lemma_times_shrinks(scorer::browser_penalty(), left);
    let f = browser_factor(w_b);
    order::lemma_finite_bounds(f);
    order::lemma_finite_bounds(scorer::browser_penalty());
    order::lemma_times(one, f);
    order::lemma_rounded_exact(f, u);
    assert(u * f.value() == f.value() * u) by (nonlinear_arith);
    order::lemma_finite_bounds(one.times(f));
}

/// What is left of one is between zero and one.
proof fn lemma_left_of_one(x: Binary64)
    requires
        in_unit(x),
    ensures
        in_unit(Binary64::one().minus(x)),
{
    let one = Binary64::one();
    order::lemma_constants();
    order::lemma_negated(x);
    order::lemma_plus(one, x.negated());
    order::lemma_rounded_exact(Binary64::zero(), 1);
    order::lemma_rounded_exact(one, 1);
    order::lemma_rounded_grows(0, 1, one.value() - x.value(), 1);
    order::lemma_rounded_grows(one.value() - x.value(), 1, one.value(), 1);
    order::lemma_finite_bounds(one.minus(x));
    order::lemma_finite_bounds(one);
}

/// A runtime factor is finite and not negative.
pub proof fn lemma_runtime_factor(c: CandidateView, local: Option<Seq<char>>, w: Weights)
    ensures
        scorer::runtime_factor(c, local, w).finite(),
        scorer::runtime_factor(c, local, w).value() >= 0,
{
    order::lemma_constants();
    lemma_browser_factor(scorer::finite_or_zero(w.w_b));
    lemma_boost();
    let f = if scorer::is_browser(c) {
        Binary64::one().times(browser_factor(scorer::finite_or_zero(w.w_b)))
    } else {
        Binary64::one()
    };
    order::lemma_finite_bounds(f);
    order::lemma_finite_bounds(Binary64::one());
    order::lemma_finite_bounds(scorer::browser_penalty());
    order::lemma_times_grows(f, Binary64::one(), scorer::local_boost());
    order::lemma_times_one(scorer::local_boost());
    order::lemma_times(f, scorer::local_boost());
    order::lemma_finite_bounds(f.times(scorer::local_boost()));
    order::lemma_finite_bounds(scorer::local_boost());
}

proof fn lemma_boost()
    ensures
        scorer::local_boost().finite(),
        scorer::local_boost().value() > Binary64::one().value(),
{
    order::lemma_constants();
    order::lemma_fraction(115, 100);
    order::lemma_whole_number(2);
    order::lemma_fraction_ordered(115, 100, 2, 1);
    order::lemma_finite_bounds(Binary64::fraction(115, 100));
    order::lemma_finite_bounds(Binary64::fraction(2, 1));
    order::lemma_fraction_apart(115, 100);
}

/// A browser host is penalised: away from the payer its factor is at most 0.6, and it is the harsher
/// the more the benchmark weighs; any other host away from the payer is taken as it is.
pub proof fn lemma_browsers_are_penalised(c: CandidateView, local: Option<Seq<char>>, w: Weights, heavier: Weights)
    requires
        local is Some ==> c.node_id != local->0,
        w.w_b.finite(),
        heavier.w_b.finite(),
        w.w_b.at_most(heavier.w_b),
    ensures
        scorer::is_browser(c) ==> {
            &&& scorer::runtime_factor(c, local, w).at_most(scorer::browser_penalty())
            &&& scorer::runtime_factor(c, local, heavier).at_most(scorer::runtime_factor(c, local, w))
        },
        !scorer::is_browser(c) ==> scorer::runtime_factor(c, local, w) == Binary64::one(),
{
    let one = Binary64::one();
    order::lemma_constants();
    lemma_browser_factor(w.w_b);
    lemma_browser_factor(heavier.w_b);
    order::lemma_clamped(w.w_b);
    order::lemma_clamped(heavier.w_b);
    order::lemma_clamped_grows(w.w_b, heavier.w_b);
    order::lemma_fraction_at_most_one(3, 10);
    let x = scorer::browser_discount().times(w.w_b.clamped());
    let y = scorer::browser_discount().times(heavier.w_b.clamped());
    order::lemma_times_grows(w.w_b.clamped(), heavier.w_b.clamped(), scorer::browser_discount());
    order::lemma_one_minus_shrinks(x, y);
    lemma_clamp_is_idle(one.minus(x));
    lemma_clamp_is_idle(one.minus(y));
    order::lemma_times_grows(one.minus(y), one.minus(x), scorer::browser_penalty());
}

proof fn lemma_clamp_is_idle(x: Binary64)
    requires
        in_unit(x),
    ensures
        x.clamped() == x,
{
    order::lemma_constants();
}

/// The payer's own node is preferred: its factor is that of any other host of its kind, boosted.
pub proof fn lemma_local_nodes_are_boosted(c: CandidateView, w: Weights)
    requires
        c.node_id.len() > 0,
    ensures
        scorer::runtime_factor(c, None, w).at_most(scorer::runtime_factor(c, Some(c.node_id), w)),
        !scorer::is_browser(c) ==> scorer::runtime_factor(c, Some(c.node_id), w) == scorer::local_boost(),
{
    order::lemma_constants();
    lemma_boost();
    lemma_runtime_factor(c, None, w);
    let f = scorer::runtime_factor(c, None, w);
    order::lemma_times_grows(Binary64::one(), scorer::local_boost(), f);
    order::lemma_times_one(scorer::local_boost());
    if f.value() > 0 {
        order::lemma_times_one(f);
    } else {
        order::lemma_times(f, scorer::local_boost());
    }
}

} // verus!
