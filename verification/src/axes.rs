//! The axes of a score, in numbers.

use crate::accuracy::{self, grain};
use crate::api::{GpuInfoView, JobSpecView, Weights};
use crate::binary64::{self, Binary64};
use crate::bounds::{self, unit};
use crate::candidate::CandidateView;
use crate::conditions;
use crate::counting::{self, sum_of};
use crate::latency::LatencyModel;
use crate::order;
use crate::preferences::{self, in_unit};
use crate::scorer;
use vstd::prelude::*;

verus! {

// ---- latency ----

/// The latency score is what the RTT leaves of the soft cap, as a share of it, within one part in 2^52;
/// zero from the cap on. The cap is 250 ms where the job names none that is finite and not negative, and
/// a cap of zero leaves nothing.
pub proof fn lemma_latency_in_numbers(c: CandidateView, spec: JobSpecView, graph: Option<LatencyModel>)
    requires
        c.rtt_ms.finite(),
        c.rtt_ms.value() >= 0,
    ensures
        ({
            let u = binary64::one_unit();
            let cap = match spec.rtt_soft_cap_ms {
                Some(v) => if v.finite() && v.value() >= 0 { v.value() } else { 250 * u },
                None => 250 * u,
            };
            let rtt = c.rtt_ms.value();
            let r = scorer::latency_fit(c, spec, graph).value();
            &&& cap <= rtt ==> r == 0
            &&& cap == 0 ==> r == 0
            &&& rtt <= cap ==> -(u * cap) <= (r * cap - (cap - rtt) * u) * 0x10_0000_0000_0000 <= u * cap
        }),
{
    let u = binary64::one_unit();
    let g = grain();
    let one = Binary64::one();
    let cap = scorer::usable_or(spec.rtt_soft_cap_ms, Binary64::fraction(250, 1));
    let k = cap.value();
    let rtt = c.rtt_ms.value();
    order::lemma_constants();
    order::lemma_whole_number(250);
    accuracy::lemma_grain();
    if k > 0 && rtt >= k {
        preferences::lemma_latency_floors_past_the_cap(c, spec, graph);
    }
    if k > 0 && rtt <= k {
        let q = c.rtt_ms.over(cap);
        assert(rtt * u <= u * k) by (nonlinear_arith)
            requires
                rtt <= k,
                u > 0,
        ;
        accuracy::lemma_over_close(c.rtt_ms, cap, 0);
        accuracy::lemma_minus_close(one, q, 0);
        let x = one.minus(q);
        order::lemma_clamped(x);
        let h = g * k;
        let z = x.value();
        assert(-h <= (z - (u - q.value())) * k <= h) by (nonlinear_arith)
            requires
                -g <= z - (u - q.value()) <= g,
                h == g * k,
                k > 0,
        ;
        assert((z - (u - q.value())) * k == z * k - u * k + q.value() * k) by (nonlinear_arith);
        assert((k - rtt) * u == u * k - rtt * u) by (nonlinear_arith);
        assert(u * k == 0x20_0000_0000_0000 * h) by (nonlinear_arith)
            requires
                u == 0x20_0000_0000_0000 * g,
                h == g * k,
        ;
        let r = scorer::latency_fit(c, spec, graph).value();
        assert(-(2 * h) <= z * k - (k - rtt) * u <= 2 * h);
        assert(z < 0 ==> z * k < 0) by (nonlinear_arith)
            requires
                k > 0,
        ;
        assert((k - rtt) * u >= 0) by (nonlinear_arith)
            requires
                rtt <= k,
                u > 0,
        ;
        assert(r == 0 ==> r * k == 0) by (nonlinear_arith);
    }
    if k == 0 {
        assert(scorer::latency_fit(c, spec, graph).value() * k - (k - rtt) * u == 0 || rtt > 0) by (nonlinear_arith)
            requires
                k == 0,
                rtt >= 0,
        ;
    }
}

/// A candidate that carries no finite RTT is scored as if it carried the measured one, where that is
/// finite, else the predicted one; and without a graph, a named payer or a finite RTT it scores zero.
pub proof fn lemma_latency_asks_the_graph(c: CandidateView, spec: JobSpecView, graph: LatencyModel, payer: Seq<char>)
    requires
        !c.rtt_ms.finite(),
        spec.payer == Some(payer),
        payer.len() > 0,
    ensures
        ({
            let rtt = match (graph.measured)(payer, c.node_id) {
                Some(m) => if m.finite() { m } else { (graph.predicted)(payer, c.node_id) },
                None => (graph.predicted)(payer, c.node_id),
            };
            &&& rtt.finite() ==> scorer::latency_fit(c, spec, Some(graph)) == scorer::latency_fit(
                CandidateView { rtt_ms: rtt, ..c },
                spec,
                Some(graph),
            )
            &&& !rtt.finite() ==> scorer::latency_fit(c, spec, Some(graph)).value() == 0
            &&& scorer::latency_fit(c, spec, None).value() == 0
            &&& scorer::latency_fit(c, JobSpecView { payer: None, ..spec }, Some(graph)).value() == 0
        }),
{
    order::lemma_constants();
}

// ---- price ----

proof fn lemma_price_steps_close(ask: int, cap: int)
    requires
        0 < ask < cap <= i128::MAX,
    ensures
        0 <= scorer::price_steps(ask, cap) <= 1_000_001,
        -cap <= scorer::price_steps(ask, cap) * cap - ask * 1_000_000 <= cap,
{
    let n = scorer::price_steps(ask, cap);
    if ask * 1_000_000 <= i128::MAX {
        let x = ask * 1_000_000;
        vstd::arithmetic::div_mod::lemma_fundamental_div_mod(x, cap);
        vstd::arithmetic::div_mod::lemma_mod_bound(x, cap);
        assert(cap * (x / cap) == (x / cap) * cap) by (nonlinear_arith);
        assert(0 <= n <= 1_000_001) by (nonlinear_arith)
            requires
                0 <= x - n * cap < cap,
                x == ask * 1_000_000,
                0 < ask < cap,
        ;
    } else {
        let q = cap / 1_000_000;
        assert(q >= 1_000_000);
        vstd::arithmetic::div_mod::lemma_fundamental_div_mod(ask, q);
        vstd::arithmetic::div_mod::lemma_mod_bound(ask, q);
        assert(q * (ask / q) == n * q) by (nonlinear_arith)
            requires
                n == ask / q,
        ;
        let r = cap - 1_000_000 * q;
        assert(0 <= r < 1_000_000);
        assert(0 <= n <= 1_000_001) by (nonlinear_arith)
            requires
                0 <= ask - n * q < q,
                0 < ask < 1_000_000 * q + 1_000_000,
                q >= 1_000_000,
        ;
        assert(n * cap == 1_000_000 * (n * q) + n * r) by (nonlinear_arith)
            requires
                cap == 1_000_000 * q + r,
        ;
        assert(0 <= n * r <= 1_000_001 * 1_000_000) by (nonlinear_arith)
            requires
                0 <= n <= 1_000_001,
                0 <= r < 1_000_000,
        ;
    }
}

/// The price score is what the ask leaves of the price cap, as a share of it, within two millionths:
/// one for a free host, zero from the cap on. Where the host asks nothing, the job has no cap, or the
/// cap is not positive, it is the default that the job names, at most one, and else one half.
pub proof fn lemma_price_in_numbers(c: CandidateView, spec: JobSpecView)
    ensures
        ({
            let u = binary64::one_unit();
            let r = scorer::price_fit(c, spec).value();
            let neutral = match spec.default_price_score {
                Some(v) => if v.finite() && v.value() >= 0 {
                    if v.value() <= u { v.value() } else { u }
                } else {
                    u / 2
                },
                None => u / 2,
            };
            match (scorer::given_amount(c.ask_base_units), scorer::given_amount(spec.price_cap_base_units)) {
                (Some(ask), Some(cap)) => {
                    &&& cap <= 0 ==> r == neutral
                    &&& cap > 0 && ask <= 0 ==> r == u
                    &&& cap > 0 && ask >= cap ==> r == 0
                    &&& 0 < ask < cap ==> -(u * cap) <= (r * cap - (cap - ask) * u) * 500_000 <= u * cap
                },
                _ => r == neutral,
            }
        }),
{
    let u = binary64::one_unit();
    let g = grain();
    let one = Binary64::one();
    order::lemma_constants();
    accuracy::lemma_grain();
    vstd::arithmetic::power2::lemma2_to64();
    order::lemma_dyadic(1, 1);
    match (scorer::given_amount(c.ask_base_units), scorer::given_amount(spec.price_cap_base_units)) {
        (Some(ask), Some(cap)) => {
            if 0 < ask < cap {
                lemma_price_steps_close(ask, cap);
                let n = scorer::price_steps(ask, cap);
                let a = Binary64::fraction(n, 1);
                let b = Binary64::fraction(1_000_000, 1);
                order::lemma_whole_number(n);
                order::lemma_whole_number(1_000_000);
                let q = a.over(b);
                let m = 1_000_000int;
                assert((n * u) * u <= (2 * u) * (m * u)) by (nonlinear_arith)
                    requires
                        n <= 1_000_001,
                        m == 1_000_000,
                        u > 0,
                        n >= 0,
                ;
                assert(n * u >= 0 && m * u > 0) by (nonlinear_arith)
                    requires
                        n >= 0,
                        u > 0,
                        m == 1_000_000,
                ;
                accuracy::lemma_over_close(a, b, 1);
                let y = q.value();
                assert(-(2 * g * m) <= y * m - n * u <= 2 * g * m) by (nonlinear_arith)
                    requires
                        -(2 * g * (m * u)) <= y * (m * u) - (n * u) * u <= 2 * g * (m * u),
                        u > 0,
                ;
                accuracy::lemma_minus_close(one, q, 1);
                let x = one.minus(q);
                let z = x.value();
                order::lemma_clamped(x);
                let h = g * cap;
                assert(h > 0) by (nonlinear_arith)
                    requires
                        h == g * cap,
                        g > 0,
                        cap > 0,
                ;
                let w = u * cap;
                assert(w == 0x20_0000_0000_0000 * h) by (nonlinear_arith)
                    requires
                        w == u * cap,
                        u == 0x20_0000_0000_0000 * g,
                        h == g * cap,
                ;
                assert(-(2_000_000 * h) <= (y * m - n * u) * cap <= 2_000_000 * h) by (nonlinear_arith)
                    requires
                        -(2 * g * m) <= y * m - n * u <= 2 * g * m,
                        m == 1_000_000,
                        h == g * cap,
                        cap > 0,
                ;
                assert((y * m - n * u) * cap == 1_000_000 * (y * cap) - (n * cap) * u) by (nonlinear_arith)
                    requires
                        m == 1_000_000,
                ;
                assert(-w <= (n * cap - ask * 1_000_000) * u <= w) by (nonlinear_arith)
                    requires
                        -cap <= n * cap - ask * 1_000_000 <= cap,
                        w == u * cap,
                        u > 0,
                ;
                assert((n * cap - ask * 1_000_000) * u == (n * cap) * u - 1_000_000 * (ask * u)) by (nonlinear_arith);
                assert(-(2 * h) <= (z - (u - y)) * cap <= 2 * h) by (nonlinear_arith)
                    requires
                        -(2 * g) <= z - (u - y) <= 2 * g,
                        h == g * cap,
                        cap > 0,
                ;
                assert((z - (u - y)) * cap == z * cap - w + y * cap) by (nonlinear_arith)
                    requires
                        w == u * cap,
                ;
                assert((cap - ask) * u == w - ask * u) by (nonlinear_arith)
                    requires
                        w == u * cap,
                ;
                assert(-(w + 4_000_000 * h) <= 1_000_000 * (z * cap - (cap - ask) * u) <= w + 4_000_000 * h);
                assert(0 <= (cap - ask) * u <= w) by (nonlinear_arith)
                    requires
                        0 < ask < cap,
                        w == u * cap,
                        u > 0,
                ;
                let r = scorer::price_fit(c, spec).value();
                assert(z < 0 ==> z * cap < 0) by (nonlinear_arith)
                    requires
                        cap > 0,
                ;
                assert(z > u ==> z * cap > w) by (nonlinear_arith)
                    requires
                        cap > 0,
                        w == u * cap,
                ;
                assert(r == 0 ==> r * cap == 0) by (nonlinear_arith);
                assert(r == u ==> r * cap == w) by (nonlinear_arith)
                    requires
                        w == u * cap,
                ;
            }
        },
        _ => {},
    }
}

// ---- runtime ----

proof fn lemma_browser_share(w_b: Binary64)
    requires
        in_unit(w_b),
    ensures
        ({
            let f = Binary64::one().times(
                scorer::browser_penalty().times(Binary64::one().minus(scorer::browser_discount().times(w_b))),
            );
            &&& f.finite()
            &&& 0 <= f.value() <= binary64::one_unit()
            &&& -(500 * grain()) <= 100 * f.value() - (60 * binary64::one_unit() - 18 * w_b.value()) <= 500 * grain()
        }),
{
    let u = binary64::one_unit();
    let g = grain();
    let one = Binary64::one();
    let a = scorer::browser_penalty();
    let b = scorer::browser_discount();
    let w = w_b.value();
    order::lemma_constants();
    accuracy::lemma_grain();
    accuracy::lemma_proper_fraction(6, 10);
    accuracy::lemma_proper_fraction(3, 10);
    let x = b.times(w_b);
    accuracy::lemma_share_of(b, w_b);
    accuracy::lemma_scaled(x.value(), b.value(), w, 3, 10, g, g);
    let y = one.minus(x);
    accuracy::lemma_minus_close(one, x, 0);
    order::lemma_negated(x);
    order::lemma_plus(one, x.negated());
    order::lemma_rounded_exact(Binary64::zero(), 1);
    order::lemma_rounded_grows(0, 1, u - x.value(), 1);
    let z = a.times(y);
    accuracy::lemma_share_of(a, y);
    accuracy::lemma_scaled(z.value(), a.value(), y.value(), 6, 10, g, g);
    accuracy::lemma_share_of(one, z);
    order::lemma_times(one, z);
    order::lemma_rounded_exact(z, u);
    assert(u * z.value() == z.value() * u) by (nonlinear_arith);
}

proof fn lemma_boosted(f: Binary64)
    requires
        in_unit(f),
    ensures
        f.times(scorer::local_boost()).finite(),
        f.times(scorer::local_boost()).value() >= 0,
        -(400 * grain()) <= 100 * f.times(scorer::local_boost()).value() - 115 * f.value() <= 400 * grain(),
{
    let u = binary64::one_unit();
    let g = grain();
    let b = scorer::local_boost();
    order::lemma_constants();
    accuracy::lemma_grain();
    accuracy::lemma_fraction_close(115, 100, 1);
    assert(f.value() * b.value() <= (2 * u) * u) by (nonlinear_arith)
        requires
            0 <= f.value() <= u,
            0 <= b.value() <= 2 * u,
    ;
    accuracy::lemma_times_close(f, b, 1);
    let x = f.times(b);
    assert(f.value() * b.value() == b.value() * f.value()) by (nonlinear_arith);
    accuracy::lemma_scaled(x.value(), b.value(), f.value(), 115, 100, 2 * g, 2 * g);
}

/// The runtime factor is one for a native remote host; 0.6 for a browser, less 0.18 times the benchmark
/// weight; and 1.15 times that for the payer's own node; within one part in 2^49.
pub proof fn lemma_runtime_factor_in_numbers(c: CandidateView, local: Option<Seq<char>>, w: Weights)
    ensures
        ({
            let u = binary64::one_unit();
            let f = scorer::runtime_factor(c, local, w).value();
            let browser = c.profile matches Some(p) && p.runtime.kind == Some("Browser"@);
            let own = c.node_id.len() > 0 && local == Some(c.node_id);
            let weight = if !w.w_b.finite() || w.w_b.value() < 0 {
                0
            } else if w.w_b.value() > u {
                u
            } else {
                w.w_b.value()
            };
            let base = if browser { 60 * u - 18 * weight } else { 100 * u };
            &&& !browser && !own ==> f == u
            &&& !own ==> -(100 * u) <= (100 * f - base) * 0x4_0000_0000_0000 <= 100 * u
            &&& own ==> -(10000 * u) <= (10000 * f - 115 * base) * 0x2_0000_0000_0000 <= 10000 * u
        }),
{
    let u = binary64::one_unit();
    let w_b = scorer::finite_or_zero(w.w_b);
    order::lemma_constants();
    accuracy::lemma_grain();
    order::lemma_clamped(w_b);
    lemma_browser_share(w_b.clamped());
    lemma_boosted(Binary64::one());
    lemma_boosted(
        Binary64::one().times(
            scorer::browser_penalty().times(Binary64::one().minus(scorer::browser_discount().times(w_b.clamped()))),
        ),
    );
}

/// The runtime factor multiplies: a host scores what a native remote host with the same axes does, times
/// its factor, at most one, within one part in 2^52.
pub proof fn lemma_factor_multiplies_the_score(
    c: CandidateView,
    spec: JobSpecView,
    d: CandidateView,
    other: JobSpecView,
    graph: Option<LatencyModel>,
    trust: scorer::Trust,
)
    requires
        in_unit(trust.score),
        spec.weights == other.weights,
        spec.objective == other.objective,
        ({
            let a = scorer::scored_with(c, spec, graph, trust).parts;
            let b = scorer::scored_with(d, other, graph, trust).parts;
            &&& a.latency == b.latency && a.bench_fit == b.bench_fit && a.price == b.price
            &&& b.runtime_factor == Binary64::one()
        }),
    ensures
        ({
            let u = binary64::one_unit();
            let a = scorer::scored_with(c, spec, graph, trust);
            let b = scorer::scored_with(d, other, graph, trust);
            let exact = b.score.value() * a.parts.runtime_factor.value();
            &&& exact <= u * u ==> -(u * u) <= (a.score.value() * u - exact) * 0x10_0000_0000_0000 <= u * u
            &&& exact > u * u ==> -(u * u) <= (a.score.value() * u - u * u) * 0x10_0000_0000_0000 <= u * u
        }),
{
    let u = binary64::one_unit();
    let g = grain();
    let a = scorer::scored_with(c, spec, graph, trust);
    let b = scorer::scored_with(d, other, graph, trust);
    let w = scorer::normalized(scorer::raw_weights(spec));
    let f = a.parts.runtime_factor;
    let x = scorer::blend(w, a.parts.latency, a.parts.bench_fit, trust.score, a.parts.price);
    order::lemma_constants();
    accuracy::lemma_grain();
    order::lemma_clamped(
        w.w_l.times(a.parts.latency).plus(w.w_b.times(a.parts.bench_fit)).plus(w.w_t.times(trust.score)).plus(
            w.w_p.times(a.parts.price),
        ),
    );
    order::lemma_times(x, Binary64::one());
    order::lemma_rounded_exact(x, u);
    order::lemma_clamped(x.times(Binary64::one()));
    assert(b.score.value() == x.value());
    lemma_runtime_factor_in_numbers(c, spec.payer, w);
    preferences::lemma_runtime_factor(c, spec.payer, w);
    let exact = x.value() * f.value();
    assert(exact <= (2 * u) * u) by (nonlinear_arith)
        requires
            exact == x.value() * f.value(),
            0 <= x.value() <= u,
            0 <= f.value() <= 2 * u,
    ;
    accuracy::lemma_times_close(x, f, 1);
    let y = x.times(f);
    order::lemma_clamped(y);
    let h = g * u;
    assert(u * u == 0x20_0000_0000_0000 * h && h > 0) by (nonlinear_arith)
        requires
            u == 0x20_0000_0000_0000 * g,
            h == g * u,
            g > 0,
            u > 0,
    ;
    assert(2 * g * u == 2 * h) by (nonlinear_arith)
        requires
            h == g * u,
    ;
    assert(y.value() > u ==> y.value() * u > u * u) by (nonlinear_arith)
        requires
            u > 0,
    ;
    assert(y.value() <= u ==> y.value() * u <= u * u) by (nonlinear_arith)
        requires
            u > 0,
    ;
}

// ---- trust ----

/// A number up to four, times one or a rounded fraction of at most one.
proof fn lemma_discounted(x: Binary64, rate: Binary64, n: int)
    requires
        x.finite(),
        0 <= x.value() <= 4 * binary64::one_unit(),
        0 <= n <= 100,
        n == 100 && rate == Binary64::one() || n < 100 && rate == Binary64::fraction(n, 100),
    ensures
        x.times(rate).finite(),
        0 <= x.times(rate).value() <= 4 * binary64::one_unit(),
        -(800 * grain()) <= 100 * x.times(rate).value() - n * x.value() <= 800 * grain(),
{
    let u = binary64::one_unit();
    let g = grain();
    order::lemma_constants();
    accuracy::lemma_grain();
    accuracy::lemma_proper_fraction(n, 100);
    assert(x.value() * rate.value() <= (4 * u) * u) by (nonlinear_arith)
        requires
            0 <= x.value() <= 4 * u,
            0 <= rate.value() <= u,
    ;
    accuracy::lemma_times_close(x, rate, 2);
    let y = x.times(rate).value();
    assert(x.value() * rate.value() == rate.value() * x.value()) by (nonlinear_arith);
    accuracy::lemma_scaled_wide(y, rate.value(), x.value(), n, 100, 4 * g, g);
}

proof fn lemma_discounts_close(base: int, x: int, y: int, a: int, b: int, d: int, s: int)
    requires
        75 <= a <= 100,
        85 <= b <= 100,
        s > 0,
        -(800 * grain()) <= 100 * x - a * base <= 800 * grain(),
        -(800 * grain()) <= 100 * y - b * x <= 800 * grain(),
        -(4 * grain() * s) <= base * s - d * binary64::one_unit() <= 4 * grain() * s,
    ensures
        -(200000 * (grain() * s)) <= 10000 * (y * s) - (a * b) * (d * binary64::one_unit()) <= 200000 * (grain() * s),
{
    let u = binary64::one_unit();
    let g = grain();
    let h = g * s;
    let rate = a * b;
    accuracy::lemma_grain();
    let e = 10000 * y - rate * base;
    assert(rate * base == b * (a * base)) by (nonlinear_arith)
        requires
            rate == a * b,
    ;
    assert(-(160000 * g) <= e <= 160000 * g) by (nonlinear_arith)
        requires
            e == 10000 * y - b * (a * base),
            -(800 * g) <= 100 * x - a * base <= 800 * g,
            -(800 * g) <= 100 * y - b * x <= 800 * g,
            85 <= b <= 100,
    ;
    assert(-(160000 * h) <= e * s <= 160000 * h) by (nonlinear_arith)
        requires
            -(160000 * g) <= e <= 160000 * g,
            h == g * s,
            s > 0,
    ;
    assert(e * s == 10000 * (y * s) - rate * (base * s)) by (nonlinear_arith)
        requires
            e == 10000 * y - rate * base,
    ;
    assert(0 <= rate <= 10000) by (nonlinear_arith)
        requires
            rate == a * b,
            75 <= a <= 100,
            85 <= b <= 100,
    ;
    let q = base * s - d * u;
    assert(-(40000 * h) <= rate * q <= 40000 * h) by (nonlinear_arith)
        requires
            -(4 * g * s) <= q <= 4 * g * s,
            h == g * s,
            0 <= rate <= 10000,
    ;
    assert(rate * q == rate * (base * s) - rate * (d * u)) by (nonlinear_arith)
        requires
            q == base * s - d * u,
    ;
}

/// Trust grows with the logarithm of the delivered work against that of the saturation count: their
/// quotient, times 0.75 for a host that earned before but not lately, times 0.85 for unmeasured hardware,
/// at most one, within one part in 2^48. A suspect claim is worth no more than 0.1, and nothing where no
/// work was delivered.
pub proof fn lemma_trust_in_numbers(c: CandidateView, ln_delivered: Binary64, ln_saturation: Binary64)
    requires
        ln_delivered.finite(),
        ln_saturation.finite(),
        0 <= ln_delivered.value() <= 4 * ln_saturation.value(),
        ln_saturation.value() > 0,
    ensures
        ({
            let u = binary64::one_unit();
            let t = scorer::trust_given(c, ln_delivered, ln_saturation);
            let (d, s) = (ln_delivered.value(), ln_saturation.value());
            let dormant = c.history matches Some(h) && scorer::amount(h.earned) > 0 && scorer::amount(h.recent_earned)
                <= 0;
            let rate = (if dormant { 75int } else { 100 }) * (if c.profile is Some { 100int } else { 85 });
            let worked = c.history matches Some(h) && h.jobs_hosted + h.heartbeats_hosted > 0;
            &&& 0 <= t.score.value() <= u
            &&& !t.benchmark_suspect && rate * d <= 10000 * s ==> -(10000 * (u * s)) <= (10000 * (t.score.value() * s)
                - rate * (d * u)) * 0x1_0000_0000_0000 <= 10000 * (u * s)
            &&& !t.benchmark_suspect && rate * d > 10000 * s ==> -(u * s) <= (t.score.value() * s - u * s)
                * 0x1_0000_0000_0000 <= u * s
            &&& t.benchmark_suspect && worked ==> (10 * t.score.value() - u) * 0x20_0000_0000_0000 <= 10 * u
            &&& t.benchmark_suspect && !worked ==> t.score.value() == 0
        }),
{
    let u = binary64::one_unit();
    let g = grain();
    let (d, s) = (ln_delivered.value(), ln_saturation.value());
    let base = ln_delivered.over(ln_saturation);
    let dormant = c.history matches Some(h) && scorer::amount(h.earned) > 0 && scorer::amount(h.recent_earned) <= 0;
    let a = if dormant { 75int } else { 100int };
    let b = if c.profile is Some { 100int } else { 85int };
    let t = scorer::trust_given(c, ln_delivered, ln_saturation);
    order::lemma_constants();
    accuracy::lemma_grain();
    accuracy::lemma_proper_fraction(1, 10);
    assert(d * u <= (4 * u) * s) by (nonlinear_arith)
        requires
            d <= 4 * s,
            u > 0,
    ;
    accuracy::lemma_over_close(ln_delivered, ln_saturation, 2);
    let recency = scorer::recency(c);
    let confidence = if c.profile is Some { Binary64::one() } else { Binary64::fraction(85, 100) };
    lemma_discounted(base, recency, a);
    let x = base.times(recency);
    lemma_discounted(x, confidence, b);
    let y = x.times(confidence);
    order::lemma_clamped(y);
    let flagged = t.benchmark_suspect;
    let ceiling = if scorer::proven_work(c) > 0 { Binary64::fraction(1, 10) } else { Binary64::zero() };
    order::lemma_clamped(if flagged { y.clamped().lesser_of(ceiling) } else { y.clamped() });
    if flagged {
        preferences::lemma_suspects_are_floored(c, ln_delivered, ln_saturation);
    } else {
        let h = g * s;
        assert(t.score == y.clamped()) by {
            order::lemma_clamped(y.clamped());
        }
        let rate = a * b;
        lemma_discounts_close(base.value(), x.value(), y.value(), a, b, d, s);
        assert(0 <= rate <= 10000) by (nonlinear_arith)
            requires
                rate == a * b,
                75 <= a <= 100,
                85 <= b <= 100,
        ;
        let us = u * s;
        assert(us == 0x20_0000_0000_0000 * h && h > 0) by (nonlinear_arith)
            requires
                us == u * s,
                u == 0x20_0000_0000_0000 * g,
                h == g * s,
                g > 0,
                s > 0,
        ;
        assert(-(200000 * h) <= 10000 * (y.value() * s) - rate * (d * u) <= 200000 * h);
        assert(rate * d <= 10000 * s ==> rate * (d * u) <= 10000 * us) by (nonlinear_arith)
            requires
                us == u * s,
                u > 0,
        ;
        assert(rate * d > 10000 * s ==> rate * (d * u) > 10000 * us) by (nonlinear_arith)
            requires
                us == u * s,
                u > 0,
        ;
        assert(y.value() > u ==> y.value() * s > us) by (nonlinear_arith)
            requires
                us == u * s,
                s > 0,
        ;
        assert(y.value() <= u ==> y.value() * s <= us) by (nonlinear_arith)
            requires
                us == u * s,
                s > 0,
        ;
        assert(t.score.value() == u ==> t.score.value() * s == us) by (nonlinear_arith)
            requires
                us == u * s,
        ;
    }
}

/// What a host is trusted for rests on the work it delivered, jobs and heartbeats together, and on the
/// saturation count that the job names, 50 where it names none that is positive.
pub proof fn lemma_trust_asks_for_two_logarithms(
    c: CandidateView,
    spec: JobSpecView,
    m: spec_fn(crate::elementary::Elementary, Binary64) -> Binary64,
    saturation: Binary64,
)
    requires
        match spec.trust_saturation {
            Some(v) => if v.finite() && v.value() > 0 {
                saturation == v
            } else {
                saturation.value() == 50 * binary64::one_unit()
            },
            None => saturation.value() == 50 * binary64::one_unit(),
        },
    ensures
        scorer::trust(c, spec, m) == scorer::trust_given(
            c,
            m(
                crate::elementary::Elementary::LnOnePlus,
                Binary64::fraction(
                    match c.history {
                        Some(h) => h.jobs_hosted + h.heartbeats_hosted,
                        None => 0,
                    },
                    1,
                ),
            ),
            m(crate::elementary::Elementary::LnOnePlus, saturation),
        ),
{
    order::lemma_constants();
    order::lemma_whole_number(50);
    if saturation.value() == 50 * binary64::one_unit() {
        order::lemma_same_value(saturation, Binary64::fraction(50, 1));
    }
}

/// The throughput of accelerators counts each of them: where no figure is negative, it is the exact sum
/// of the finite ones, off by at most two parts in 2^53 for each.
pub proof fn lemma_throughput_is_a_sum(gpus: Seq<GpuInfoView>)
    requires
        gpus.len() <= u32::MAX,
        forall|i: int| 0 <= i < gpus.len() ==> (#[trigger] gpus[i]).fp16_tflops.value() >= 0,
        sum_of(gpus, |g: GpuInfoView| if g.fp16_tflops.finite() { g.fp16_tflops.value() } else { 0 }) <= unit(900),
    ensures
        ({
            let sum = scorer::total_tflops(gpus);
            let exact = sum_of(gpus, |g: GpuInfoView| if g.fp16_tflops.finite() { g.fp16_tflops.value() } else { 0 });
            &&& sum.finite()
            &&& 0 <= exact
            &&& 0 <= sum.value() <= 2 * exact
            &&& -(2 * (gpus.len() * exact)) <= (sum.value() - exact) * 0x20_0000_0000_0000 <= 2 * (gpus.len() * exact)
        }),
    decreases gpus.len(),
{
    let f = |g: GpuInfoView| if g.fp16_tflops.finite() { g.fp16_tflops.value() } else { 0 };
    order::lemma_constants();
    counting::lemma_sum_last(gpus, f);
    if gpus.len() > 0 {
        let rest = gpus.drop_last();
        let n = rest.len() as int;
        let last = gpus.last().fp16_tflops;
        assert forall|i: int| 0 <= i < rest.len() implies (#[trigger] rest[i]).fp16_tflops.value() >= 0 by {
            assert(rest[i] == gpus[i]);
        }
        assert(gpus[gpus.len() - 1].fp16_tflops.value() >= 0);
        lemma_throughput_is_a_sum(rest);
        let x = scorer::finite_or_zero(last);
        let sum = scorer::total_tflops(rest);
        let s = sum_of(rest, f);
        let t = s + x.value();
        assert(0 <= n * s <= 0xffff_ffff * s) by (nonlinear_arith)
            requires
                0 <= n <= 0xffff_ffff,
                0 <= s,
        ;
        bounds::lemma_unit(900, 901);
        bounds::lemma_unit_doubles(900);
        accuracy::lemma_plus_close(sum, x, 901);
        order::lemma_plus_error(sum, x);
        order::lemma_plus(sum, x);
        order::lemma_rounded_exact(Binary64::zero(), 1);
        order::lemma_rounded_grows(0, 1, sum.value() + x.value(), 1);
        assert((n + 1) * t == n * s + n * x.value() + t) by (nonlinear_arith)
            requires
                t == s + x.value(),
        ;
        assert(n * x.value() >= 0) by (nonlinear_arith)
            requires
                n >= 0,
                x.value() >= 0,
        ;
    }
}

/// A claim is suspect where it is large, with an accelerator of 24000 MB, 50 teraflops in all, 100 tokens
/// a second or 2000 gigaflops, and fewer than five units of work stand behind it; fewer than twenty for
/// 48000 MB or 150 teraflops. Without a profile there is no claim.
pub proof fn lemma_suspects_in_numbers(c: CandidateView, ln_delivered: Binary64, ln_saturation: Binary64)
    ensures
        ({
            let u = binary64::one_unit();
            let t = scorer::trust_given(c, ln_delivered, ln_saturation);
            let delivered = match c.history {
                Some(h) => h.jobs_hosted + h.heartbeats_hosted,
                None => 0,
            };
            match c.profile {
                Some(p) => {
                    let vram = |mb: int|
                        exists|k: int|
                            0 <= k < p.gpus.len() && (#[trigger] p.gpus[k]).vram_mb.finite() && p.gpus[k].vram_mb.value()
                                >= mb * u;
                    let tflops = scorer::total_tflops(p.gpus);
                    let large = vram(24000) || (!tflops.nan() && tflops.value() >= 50 * u) || (
                    p.llm.tokens_per_sec.finite() && p.llm.tokens_per_sec.value() >= 100 * u) || (
                    p.cpu.gflops_fp32.finite() && p.cpu.gflops_fp32.value() >= 2000 * u);
                    let huge = vram(48000) || (!tflops.nan() && tflops.value() >= 150 * u);
                    t.benchmark_suspect <==> large && delivered < if huge { 20int } else { 5int }
                },
                None => !t.benchmark_suspect,
            }
        }),
{
    let u = binary64::one_unit();
    order::lemma_constants();
    order::lemma_whole_number(24000);
    order::lemma_whole_number(48000);
    order::lemma_whole_number(50);
    order::lemma_whole_number(150);
    order::lemma_whole_number(100);
    order::lemma_whole_number(2000);
    match c.profile {
        Some(p) => {
            conditions::lemma_most_vram(p.gpus);
            let most = scorer::most_vram(p.gpus);
            let vram = |mb: int|
                exists|k: int|
                    0 <= k < p.gpus.len() && (#[trigger] p.gpus[k]).vram_mb.finite() && p.gpus[k].vram_mb.value() >= mb
                        * u;
            assert forall|mb: int| mb > 0 implies (#[trigger] vram(mb) <==> most.value() >= mb * u) by {
                assert(mb * u > 0) by (nonlinear_arith)
                    requires
                        mb > 0,
                        u > 0,
                ;
                if most.value() >= mb * u {
                    let k = choose|k: int| 0 <= k < p.gpus.len() && (#[trigger] p.gpus[k]).vram_mb == most;
                    assert(p.gpus[k].vram_mb.finite());
                }
            }
            assert(vram(24000) <==> most.value() >= 24000 * u);
            assert(vram(48000) <==> most.value() >= 48000 * u);
        },
        None => {},
    }
}

} // verus!
