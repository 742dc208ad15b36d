//! The benchmark fit, in numbers.

use crate::accuracy::{self, grain};
use crate::api::{Demand, DemandAxis, JobSpecView};
use crate::binary64::{self, Binary64};
use crate::bounds::{self, unit};
use crate::candidate::CandidateView;
use crate::conditions;
use crate::counting::{self, sum_of};
use crate::order;
use crate::rounding;
use crate::scorer::{self, ProfileAxis};
use crate::wording;
use vstd::arithmetic::mul::*;
use vstd::prelude::*;

verus! {

/// What a candidate offers on an axis, up to its target.
spec fn fit_on(x: (ProfileAxis, DemandAxis), c: CandidateView) -> Binary64 {
    scorer::offered(x.0, c).over(x.1.target).clamped()
}

/// The weight of an axis that has a target.
spec fn heft() -> spec_fn((ProfileAxis, DemandAxis)) -> int {
    |x: (ProfileAxis, DemandAxis)| if x.1.target.value() > 0 { x.1.weight.value() } else { 0 }
}

/// The weighed fit of an axis that has a target.
spec fn pull(c: CandidateView) -> spec_fn((ProfileAxis, DemandAxis)) -> int {
    |x: (ProfileAxis, DemandAxis)|
        if x.1.target.value() > 0 {
            x.1.weight.value() * fit_on(x, c).value()
        } else {
            0
        }
}

spec fn plain(axes: Seq<(ProfileAxis, DemandAxis)>) -> bool {
    forall|i: int|
        0 <= i < axes.len() ==> (#[trigger] axes[i]).1.weight.finite() && axes[i].1.target.finite() && unit(-1022)
            <= axes[i].1.weight.value()
}

proof fn lemma_product_error(w: Binary64, f: Binary64)
    requires
        w.finite(),
        f.finite(),
        unit(-1022) <= w.value() <= unit(900),
        0 <= f.value() <= binary64::one_unit(),
    ensures
        w.times(f).finite(),
        0 <= w.times(f).value() <= w.value(),
        ({
            let e = w.times(f).value() * binary64::one_unit() - w.value() * f.value();
            -(w.value() * binary64::one_unit()) <= e * 0x20_0000_0000_0000 <= w.value() * binary64::one_unit()
        }),
{
    let u = binary64::one_unit();
    let n = w.value() * f.value();
    let p = w.times(f).value();
    order::lemma_constants();
    bounds::lemma_unit(-1022, 900);
    vstd::arithmetic::power2::lemma2_to64_rest();
    order::lemma_times(w, f);
    order::lemma_times_shrinks(w, f);
    lemma_mul_nonnegative(w.value(), f.value());
    assert(n <= unit(900) * u) by (nonlinear_arith)
        requires
            n == w.value() * f.value(),
            0 <= w.value() <= unit(900),
            0 <= f.value() <= u,
    ;
    bounds::lemma_rounded_at_most(n, u, 900);
    bounds::lemma_stays_finite(w.times(f), 900);
    rounding::lemma_error(n, u);
    assert(p * u <= w.value() * u) by (nonlinear_arith)
        requires
            p <= w.value(),
            u > 0,
    ;
    assert(0x10_0000_0000_0000 * u <= w.value() * u) by (nonlinear_arith)
        requires
            0x10_0000_0000_0000 <= w.value(),
            u > 0,
    ;
}

proof fn lemma_fit_sums_close(axes: Seq<(ProfileAxis, DemandAxis)>, c: CandidateView)
    requires
        axes.len() <= 7,
        plain(axes),
        sum_of(axes, heft()) <= unit(900),
    ensures
        ({
            let (n, d) = scorer::fit_sums(axes, c);
            let k = axes.len() as int;
            let total = sum_of(axes, heft());
            let pulled = sum_of(axes, pull(c));
            let slack = total * binary64::one_unit();
            &&& n.finite() && d.finite()
            &&& 0 <= n.value() <= d.value()
            &&& 0 <= total
            &&& d.value() <= 2 * total
            &&& total > 0 ==> d.value() > 0
            &&& -(2 * k * total) <= (d.value() - total) * 0x20_0000_0000_0000 <= 2 * k * total
            &&& -(3 * k * slack) <= (n.value() * binary64::one_unit() - pulled) * 0x20_0000_0000_0000 <= 3 * k * slack
        }),
    decreases axes.len(),
{
    let u = binary64::one_unit();
    order::lemma_constants();
    counting::lemma_sum_last(axes, heft());
    counting::lemma_sum_last(axes, pull(c));
    if axes.len() > 0 {
        let rest = axes.drop_last();
        let x = axes.last();
        let k = rest.len() as int;
        assert forall|i: int| 0 <= i < rest.len() implies (#[trigger] rest[i]).1.weight.finite()
            && rest[i].1.target.finite() && unit(-1022) <= rest[i].1.weight.value() by {
            assert(rest[i] == axes[i]);
        }
        assert(axes[axes.len() - 1] == x);
        bounds::lemma_unit(-1022, 900);
        let total = sum_of(rest, heft());
        let w = x.1.weight;
        if x.1.target.value() > 0 {
            lemma_fit_sums_close(rest, c);
            let (n, d) = scorer::fit_sums(rest, c);
            let f = fit_on(x, c);
            order::lemma_clamped(scorer::offered(x.0, c).over(x.1.target));
            lemma_product_error(w, f);
            let p = w.times(f);
            bounds::lemma_unit_doubles(900);
            bounds::lemma_unit_doubles(901);
            bounds::lemma_unit(900, 902);
            accuracy::lemma_plus_close(d, w, 902);
            accuracy::lemma_plus_close(n, p, 902);
            order::lemma_plus_error(d, w);
            order::lemma_plus_error(n, p);
            order::lemma_plus(d, w);
            order::lemma_plus(n, p);
            order::lemma_rounded_grows(n.value() + p.value(), 1, d.value() + w.value(), 1);
            order::lemma_rounded_exact(Binary64::zero(), 1);
            order::lemma_rounded_grows(0, 1, n.value() + p.value(), 1);
            order::lemma_rounded_exact(w, 1);
            order::lemma_rounded_grows(w.value(), 1, d.value() + w.value(), 1);
            let n2 = n.plus(p).value();
            let d2 = d.plus(w).value();
            let more = total + w.value();
            lemma_grown_total(k, total, w.value(), d.value(), d2);
            lemma_grown_pull(
                k,
                total,
                w.value(),
                sum_of(rest, pull(c)),
                w.value() * f.value(),
                n.value(),
                p.value(),
                n2,
                d2,
            );
        } else {
            lemma_fit_sums_close(rest, c);
            let slack = total * u;
            assert(slack >= 0) by (nonlinear_arith)
                requires
                    slack == total * u,
                    total >= 0,
                    u > 0,
            ;
            assert(2 * (k + 1) * total >= 2 * k * total && 3 * (k + 1) * slack >= 3 * k * slack) by (nonlinear_arith)
                requires
                    total >= 0,
                    slack >= 0,
                    k >= 0,
            ;
        }
    }
}

proof fn lemma_grown_total(k: int, total: int, w: int, d: int, d2: int)
    requires
        0 <= k <= 6,
        0 <= total,
        0 < w,
        d <= 2 * total,
        -(2 * k * total) <= (d - total) * 0x20_0000_0000_0000 <= 2 * k * total,
        -d2 <= (d + w - d2) * 0x20_0000_0000_0000 <= d2,
    ensures
        d2 <= 2 * (total + w),
        -(2 * (k + 1) * (total + w)) <= (d2 - (total + w)) * 0x20_0000_0000_0000 <= 2 * (k + 1) * (total + w),
{
    let more = total + w;
    assert(0 <= 2 * k * total <= 12 * total) by (nonlinear_arith)
        requires
            0 <= k <= 6,
            0 <= total,
    ;
    assert(d2 <= 2 * more);
    assert(2 * (k + 1) * more == 2 * k * total + 2 * k * w + 2 * more) by (nonlinear_arith)
        requires
            more == total + w,
    ;
    assert(2 * k * w >= 0) by (nonlinear_arith)
        requires
            k >= 0,
            w > 0,
    ;
}

proof fn lemma_grown_pull(k: int, total: int, w: int, pulled: int, more: int, n: int, p: int, n2: int, d2: int)
    requires
        0 <= k <= 6,
        0 <= total,
        0 < w,
        0 <= n2 <= d2,
        d2 <= 2 * (total + w),
        -(3 * k * (total * binary64::one_unit())) <= (n * binary64::one_unit() - pulled) * 0x20_0000_0000_0000 <= 3 * k
            * (total * binary64::one_unit()),
        -(w * binary64::one_unit()) <= (p * binary64::one_unit() - more) * 0x20_0000_0000_0000 <= w
            * binary64::one_unit(),
        -n2 <= (n + p - n2) * 0x20_0000_0000_0000 <= n2,
    ensures
        ({
            let slack = (total + w) * binary64::one_unit();
            -(3 * (k + 1) * slack) <= (n2 * binary64::one_unit() - (pulled + more)) * 0x20_0000_0000_0000 <= 3 * (k + 1)
                * slack
        }),
{
    let u = binary64::one_unit();
    order::lemma_constants();
    let slack = (total + w) * u;
    let tu = total * u;
    let wu = w * u;
    assert(slack == tu + wu && tu >= 0 && wu >= 0) by (nonlinear_arith)
        requires
            slack == (total + w) * u,
            tu == total * u,
            wu == w * u,
            total >= 0,
            w > 0,
            u > 0,
    ;
    let e = n + p - n2;
    assert(-(2 * slack) <= (e * 0x20_0000_0000_0000) * u <= 2 * slack) by (nonlinear_arith)
        requires
            -(2 * (total + w)) <= e * 0x20_0000_0000_0000 <= 2 * (total + w),
            slack == (total + w) * u,
            u > 0,
    ;
    assert((e * 0x20_0000_0000_0000) * u == (n * u + p * u - n2 * u) * 0x20_0000_0000_0000) by (nonlinear_arith)
        requires
            e == n + p - n2,
    ;
    assert(3 * (k + 1) * slack == 3 * k * tu + 3 * k * wu + 3 * slack) by (nonlinear_arith)
        requires
            slack == tu + wu,
    ;
    assert(3 * k * wu >= 0) by (nonlinear_arith)
        requires
            k >= 0,
            wu >= 0,
    ;
}

proof fn lemma_fit_close(axes: Seq<(ProfileAxis, DemandAxis)>, c: CandidateView)
    requires
        axes.len() <= 7,
        plain(axes),
        0 < sum_of(axes, heft()) <= unit(900),
    ensures
        ({
            let (n, d) = scorer::fit_sums(axes, c);
            let total = sum_of(axes, heft());
            let off = n.over(d).clamped().value() * total - sum_of(axes, pull(c));
            let slack = (5 * axes.len() + 2) * (grain() * total);
            &&& Binary64::zero().less(d)
            &&& 0 <= n.over(d).clamped().value() <= binary64::one_unit()
            &&& -slack <= off <= slack
        }),
{
    let u = binary64::one_unit();
    let g = grain();
    let (n, d) = scorer::fit_sums(axes, c);
    let k = axes.len() as int;
    let total = sum_of(axes, heft());
    let pulled = sum_of(axes, pull(c));
    order::lemma_constants();
    accuracy::lemma_grain();
    lemma_fit_sums_close(axes, c);
    let dv = d.value();
    assert(n.value() * u <= u * dv) by (nonlinear_arith)
        requires
            n.value() <= dv,
            u > 0,
    ;
    accuracy::lemma_over_close(n, d, 0);
    let r = n.over(d).value();
    let h = g * total;
    let e = total - dv;
    assert(-(2 * k * h) <= r * e <= 2 * k * h) by {
        let b = 2 * k * total;
        assert(b >= 0) by (nonlinear_arith)
            requires
                b == 2 * k * total,
                k >= 0,
                total >= 0,
        ;
        assert(-(u * b) <= r * (e * 0x20_0000_0000_0000) <= u * b) by (nonlinear_arith)
            requires
                -b <= e * 0x20_0000_0000_0000 <= b,
                0 <= r <= u,
                b >= 0,
        ;
        assert(r * (e * 0x20_0000_0000_0000) == (r * e) * 0x20_0000_0000_0000) by (nonlinear_arith);
        assert(u * b == 0x20_0000_0000_0000 * (2 * k * h)) by (nonlinear_arith)
            requires
                u == 0x20_0000_0000_0000 * g,
                b == 2 * k * total,
                h == g * total,
        ;
    }
    assert(r * total == r * dv + r * e) by (nonlinear_arith)
        requires
            e == total - dv,
    ;
    assert(g * dv <= 2 * h) by (nonlinear_arith)
        requires
            dv <= 2 * total,
            h == g * total,
            g > 0,
    ;
    assert(-(3 * k * h) <= n.value() * u - pulled <= 3 * k * h) by {
        let slack = total * u;
        assert(3 * k * slack == 0x20_0000_0000_0000 * (3 * k * h)) by (nonlinear_arith)
            requires
                slack == total * u,
                u == 0x20_0000_0000_0000 * g,
                h == g * total,
        ;
    }
    let slack = (5 * k + 2) * h;
    assert(slack == 2 * k * h + 3 * k * h + 2 * h) by (nonlinear_arith)
        requires
            slack == (5 * k + 2) * h,
    ;
}

/// The weight of an axis that was asked for and has a target.
spec fn share(a: Option<DemandAxis>) -> int {
    match a {
        Some(x) => if x.weight.value() > 0 && x.target.value() > 0 { x.weight.value() } else { 0 },
        None => 0,
    }
}

spec fn fair(a: Option<DemandAxis>) -> bool {
    a matches Some(x) ==> x.weight.finite() && x.target.finite() && (x.weight.value() <= 0 || unit(-1022)
        <= x.weight.value())
}

proof fn lemma_axis_alone(axis: ProfileAxis, a: Option<DemandAxis>, c: CandidateView, spec: JobSpecView)
    requires
        fair(a),
        share(a) <= unit(900),
        scorer::asked_axes(spec.demand) == scorer::asked(axis, a),
    ensures
        ({
            let axes = scorer::asked(axis, a);
            let off = share(a) * scorer::bench_fit(c, spec).score.value() - sum_of(axes, pull(c));
            &&& axes.len() <= 1
            &&& plain(axes)
            &&& 0 <= share(a)
            &&& sum_of(axes, heft()) == share(a)
            &&& -(7 * (grain() * share(a))) <= off <= 7 * (grain() * share(a))
        }),
{
    let axes = scorer::asked(axis, a);
    order::lemma_constants();
    bounds::lemma_unit(-1022, 900);
    counting::lemma_sum_last(axes, heft());
    counting::lemma_sum_last(axes, pull(c));
    if axes.len() > 0 {
        let empty = axes.drop_last();
        assert(empty.len() == 0);
        counting::lemma_sum_last(empty, heft());
        counting::lemma_sum_last(empty, pull(c));
    }
    let r = scorer::bench_fit(c, spec).score.value();
    if share(a) > 0 {
        lemma_fit_close(axes, c);
        assert(r * share(a) == share(a) * r) by (nonlinear_arith);
    } else {
        assert(share(a) * r == 0) by (nonlinear_arith)
            requires
                share(a) == 0,
        ;
    }
}

proof fn lemma_plain_joined(a: Seq<(ProfileAxis, DemandAxis)>, b: Seq<(ProfileAxis, DemandAxis)>)
    requires
        plain(a),
        plain(b),
    ensures
        plain(a + b),
{
    let s = a + b;
    assert forall|i: int| 0 <= i < s.len() implies (#[trigger] s[i]).1.weight.finite() && s[i].1.target.finite()
        && unit(-1022) <= s[i].1.weight.value() by {
        if i < a.len() {
            assert(s[i] == a[i]);
        } else {
            assert(s[i] == b[i - a.len()]);
        }
    }
}

proof fn lemma_spread(g: int, a: int, b: int, c: int, d: int, e: int, f: int, k: int)
    ensures
        g * (a + b + c + d + e + f + k) == g * a + g * b + g * c + g * d + g * e + g * f + g * k,
{
    lemma_mul_is_distributive_add(g, a + b + c + d + e + f, k);
    lemma_mul_is_distributive_add(g, a + b + c + d + e, f);
    lemma_mul_is_distributive_add(g, a + b + c + d, e);
    lemma_mul_is_distributive_add(g, a + b + c, d);
    lemma_mul_is_distributive_add(g, a + b, c);
    lemma_mul_is_distributive_add(g, a, b);
}

/// The fit to a demand is the mean of the fits to each of its axes alone, weighed by their weights, to
/// within one part in 2^47. Axes without a positive weight or a positive target do not count.
pub proof fn lemma_fit_is_the_weighed_mean(c: CandidateView, spec: JobSpecView, d: Demand)
    requires
        spec.demand == Some(d),
        forall|x: DemandAxis|
            (d.gflops == Some(x)
                || d.mem_bw_gbps == Some(x)
                || d.vram_mb == Some(x)
                || d.fp16_tflops == Some(x)
                || d.tokens_per_sec == Some(x)
                || d.disk_read_mbps == Some(x)
                || d.disk_write_mbps == Some(x)) ==> (#[trigger] x.weight).finite()
                && x.target.finite()
                && (x.weight.value() <= 0 || unit(-1022) <= x.weight.value()),
        ({
            let share = |a: Option<DemandAxis>|
                match a {
                    Some(x) => if x.weight.value() > 0 && x.target.value() > 0 { x.weight.value() } else { 0 },
                    None => 0,
                };
            0 < share(d.gflops)
                + share(d.mem_bw_gbps)
                + share(d.vram_mb)
                + share(d.fp16_tflops)
                + share(d.tokens_per_sec)
                + share(d.disk_read_mbps)
                + share(d.disk_write_mbps) <= unit(900)
        }),
    ensures
        ({
            let share = |a: Option<DemandAxis>|
                match a {
                    Some(x) => if x.weight.value() > 0 && x.target.value() > 0 { x.weight.value() } else { 0 },
                    None => 0,
                };
            let none = Demand {
                gflops: None,
                mem_bw_gbps: None,
                vram_mb: None,
                fp16_tflops: None,
                tokens_per_sec: None,
                disk_read_mbps: None,
                disk_write_mbps: None,
            };
            let alone = |e: Demand| scorer::bench_fit(c, JobSpecView { demand: Some(e), ..spec }).score.value();
            let total = share(d.gflops)
                + share(d.mem_bw_gbps)
                + share(d.vram_mb)
                + share(d.fp16_tflops)
                + share(d.tokens_per_sec)
                + share(d.disk_read_mbps)
                + share(d.disk_write_mbps);
            let mean = share(d.gflops) * alone(Demand { gflops: d.gflops, ..none })
                + share(d.mem_bw_gbps) * alone(Demand { mem_bw_gbps: d.mem_bw_gbps, ..none })
                + share(d.vram_mb) * alone(Demand { vram_mb: d.vram_mb, ..none })
                + share(d.fp16_tflops) * alone(Demand { fp16_tflops: d.fp16_tflops, ..none })
                + share(d.tokens_per_sec) * alone(Demand { tokens_per_sec: d.tokens_per_sec, ..none })
                + share(d.disk_read_mbps) * alone(Demand { disk_read_mbps: d.disk_read_mbps, ..none })
                + share(d.disk_write_mbps) * alone(Demand { disk_write_mbps: d.disk_write_mbps, ..none });
            let r = scorer::bench_fit(c, spec).score.value();
            -(binary64::one_unit() * total) <= (r * total - mean) * 0x8000_0000_0000 <= binary64::one_unit() * total
        }),
{
    let u = binary64::one_unit();
    let g = grain();
    let none = Demand {
        gflops: None,
        mem_bw_gbps: None,
        vram_mb: None,
        fp16_tflops: None,
        tokens_per_sec: None,
        disk_read_mbps: None,
        disk_write_mbps: None,
    };
    order::lemma_constants();
    accuracy::lemma_grain();
    let s0 = scorer::asked(ProfileAxis::Gflops, d.gflops);
    let job0 = JobSpecView { demand: Some(Demand { gflops: d.gflops, ..none }), ..spec };
    assert(scorer::asked_axes(job0.demand) =~= s0);
    lemma_axis_alone(ProfileAxis::Gflops, d.gflops, c, job0);
    let s1 = scorer::asked(ProfileAxis::MemBwGbps, d.mem_bw_gbps);
    let job1 = JobSpecView { demand: Some(Demand { mem_bw_gbps: d.mem_bw_gbps, ..none }), ..spec };
    assert(scorer::asked_axes(job1.demand) =~= s1);
    lemma_axis_alone(ProfileAxis::MemBwGbps, d.mem_bw_gbps, c, job1);
    let s2 = scorer::asked(ProfileAxis::VramMb, d.vram_mb);
    let job2 = JobSpecView { demand: Some(Demand { vram_mb: d.vram_mb, ..none }), ..spec };
    assert(scorer::asked_axes(job2.demand) =~= s2);
    lemma_axis_alone(ProfileAxis::VramMb, d.vram_mb, c, job2);
    let s3 = scorer::asked(ProfileAxis::Fp16Tflops, d.fp16_tflops);
    let job3 = JobSpecView { demand: Some(Demand { fp16_tflops: d.fp16_tflops, ..none }), ..spec };
    assert(scorer::asked_axes(job3.demand) =~= s3);
    lemma_axis_alone(ProfileAxis::Fp16Tflops, d.fp16_tflops, c, job3);
    let s4 = scorer::asked(ProfileAxis::TokensPerSec, d.tokens_per_sec);
    let job4 = JobSpecView { demand: Some(Demand { tokens_per_sec: d.tokens_per_sec, ..none }), ..spec };
    assert(scorer::asked_axes(job4.demand) =~= s4);
    lemma_axis_alone(ProfileAxis::TokensPerSec, d.tokens_per_sec, c, job4);
    let s5 = scorer::asked(ProfileAxis::DiskReadMbps, d.disk_read_mbps);
    let job5 = JobSpecView { demand: Some(Demand { disk_read_mbps: d.disk_read_mbps, ..none }), ..spec };
    assert(scorer::asked_axes(job5.demand) =~= s5);
    lemma_axis_alone(ProfileAxis::DiskReadMbps, d.disk_read_mbps, c, job5);
    let s6 = scorer::asked(ProfileAxis::DiskWriteMbps, d.disk_write_mbps);
    let job6 = JobSpecView { demand: Some(Demand { disk_write_mbps: d.disk_write_mbps, ..none }), ..spec };
    assert(scorer::asked_axes(job6.demand) =~= s6);
    lemma_axis_alone(ProfileAxis::DiskWriteMbps, d.disk_write_mbps, c, job6);
    let t1 = s0 + s1;
    let t2 = t1 + s2;
    let t3 = t2 + s3;
    let t4 = t3 + s4;
    let t5 = t4 + s5;
    let t6 = t5 + s6;
    lemma_plain_joined(s0, s1);
    counting::lemma_sum_add(s0, s1, heft());
    counting::lemma_sum_add(s0, s1, pull(c));
    lemma_plain_joined(t1, s2);
    counting::lemma_sum_add(t1, s2, heft());
    counting::lemma_sum_add(t1, s2, pull(c));
    lemma_plain_joined(t2, s3);
    counting::lemma_sum_add(t2, s3, heft());
    counting::lemma_sum_add(t2, s3, pull(c));
    lemma_plain_joined(t3, s4);
    counting::lemma_sum_add(t3, s4, heft());
    counting::lemma_sum_add(t3, s4, pull(c));
    lemma_plain_joined(t4, s5);
    counting::lemma_sum_add(t4, s5, heft());
    counting::lemma_sum_add(t4, s5, pull(c));
    lemma_plain_joined(t5, s6);
    counting::lemma_sum_add(t5, s6, heft());
    counting::lemma_sum_add(t5, s6, pull(c));
    assert(scorer::asked_axes(spec.demand) =~= t6);
    let total = share(d.gflops)
        + share(d.mem_bw_gbps)
        + share(d.vram_mb)
        + share(d.fp16_tflops)
        + share(d.tokens_per_sec)
        + share(d.disk_read_mbps)
        + share(d.disk_write_mbps);
    lemma_fit_close(t6, c);
    let h = g * total;
    lemma_spread(
        g,
        share(d.gflops),
        share(d.mem_bw_gbps),
        share(d.vram_mb),
        share(d.fp16_tflops),
        share(d.tokens_per_sec),
        share(d.disk_read_mbps),
        share(d.disk_write_mbps),
    );
    assert(u * total == 0x20_0000_0000_0000 * h) by (nonlinear_arith)
        requires
            u == 0x20_0000_0000_0000 * g,
            h == g * total,
    ;
    let k = t6.len() as int;
    assert(0 <= (5 * k + 2) * h <= 37 * h) by (nonlinear_arith)
        requires
            0 <= k <= 7,
            h >= 0,
    ;
}

/// A demand on one axis alone.
pub open spec fn demand_on(axis: ProfileAxis, a: DemandAxis) -> Demand {
    Demand {
        gflops: if axis == ProfileAxis::Gflops { Some(a) } else { None },
        mem_bw_gbps: if axis == ProfileAxis::MemBwGbps { Some(a) } else { None },
        vram_mb: if axis == ProfileAxis::VramMb { Some(a) } else { None },
        fp16_tflops: if axis == ProfileAxis::Fp16Tflops { Some(a) } else { None },
        tokens_per_sec: if axis == ProfileAxis::TokensPerSec { Some(a) } else { None },
        disk_read_mbps: if axis == ProfileAxis::DiskReadMbps { Some(a) } else { None },
        disk_write_mbps: if axis == ProfileAxis::DiskWriteMbps { Some(a) } else { None },
    }
}

/// A host without a profile is credited with 8 gigaflops and 6 GB/s per core, with 8000 MB, 10 teraflops
/// and 20 tokens a second where it has the `gpu` tag, and with 500 and 400 MB/s of disk where it has
/// memory to host with.
pub proof fn lemma_estimates_in_numbers(c: CandidateView)
    ensures
        ({
            let u = binary64::one_unit();
            let e = |axis: ProfileAxis| scorer::estimated_axis(axis, c);
            let gpu = exists|i: int| 0 <= i < c.capacity.tags.len() && is_gpu(#[trigger] c.capacity.tags[i]);
            &&& forall|axis: ProfileAxis| (#[trigger] e(axis)).finite()
            &&& e(ProfileAxis::Gflops).value() == 8 * c.capacity.cpu_cores * u
            &&& e(ProfileAxis::MemBwGbps).value() == 6 * c.capacity.cpu_cores * u
            &&& e(ProfileAxis::VramMb).value() == if gpu { 8000 * u } else { 0 }
            &&& e(ProfileAxis::Fp16Tflops).value() == if gpu { 10 * u } else { 0 }
            &&& e(ProfileAxis::TokensPerSec).value() == if gpu { 20 * u } else { 0 }
            &&& e(ProfileAxis::DiskReadMbps).value() == if c.capacity.mem_mb > 0 { 500 * u } else { 0 }
            &&& e(ProfileAxis::DiskWriteMbps).value() == if c.capacity.mem_mb > 0 { 400 * u } else { 0 }
        }),
{
    let u = binary64::one_unit();
    let cores = c.capacity.cpu_cores as int;
    order::lemma_constants();
    order::lemma_whole_number(0);
    order::lemma_whole_number(8);
    order::lemma_whole_number(6);
    order::lemma_whole_number(8000);
    order::lemma_whole_number(10);
    order::lemma_whole_number(20);
    order::lemma_whole_number(500);
    order::lemma_whole_number(400);
    order::lemma_whole_number(cores);
    lemma_whole_product(cores, 8);
    lemma_whole_product(cores, 6);
    reveal_strlit("gpu");
    let tags = c.capacity.tags;
    assert forall|i: int| 0 <= i < tags.len() implies (is_gpu(#[trigger] tags[i]) <==> tags[i].len() == 3
        && crate::text::starts_like(tags[i], "gpu"@)) by {
        lemma_gpu(tags[i]);
    }
    let gpu = exists|i: int| 0 <= i < tags.len() && is_gpu(#[trigger] tags[i]);
    assert(scorer::gpu_tagged(tags) == gpu);
    let e = |axis: ProfileAxis| scorer::estimated_axis(axis, c);
    assert forall|axis: ProfileAxis| (#[trigger] e(axis)).finite() by {
        match axis {
            ProfileAxis::Gflops => {},
            ProfileAxis::MemBwGbps => {},
            _ => {},
        }
    }
}

/// The word `gpu`, in any mixture of cases.
pub open spec fn is_gpu(s: Seq<char>) -> bool {
    s.len() == 3 && (s[0] == 'g' || s[0] == 'G') && (s[1] == 'p' || s[1] == 'P') && (s[2] == 'u' || s[2] == 'U')
}

proof fn lemma_gpu(s: Seq<char>)
    ensures
        is_gpu(s) <==> s.len() == 3 && crate::text::starts_like(s, "gpu"@),
{
    reveal_strlit("gpu");
    let word = "gpu"@;
    if s.len() == 3 {
        wording::lemma_lower(s[0], 'g', 'G');
        wording::lemma_lower(s[1], 'p', 'P');
        wording::lemma_lower(s[2], 'u', 'U');
        if crate::text::starts_like(s, word) {
            assert(crate::text::lower(s[0]) == word[0]);
            assert(crate::text::lower(s[1]) == word[1]);
            assert(crate::text::lower(s[2]) == word[2]);
        }
        if is_gpu(s) {
            assert forall|i: int| 0 <= i < word.len() implies crate::text::lower(#[trigger] s[i]) == word[i] by {
                if i == 0 {
                } else if i == 1 {
                } else {
                    assert(i == 2);
                }
            }
        }
    }
}

/// Whole numbers multiply exactly while the product is small.
proof fn lemma_whole_product(n: int, m: int)
    requires
        0 <= n <= u32::MAX,
        0 <= m <= 100,
    ensures
        Binary64::fraction(n, 1).times(Binary64::fraction(m, 1)).finite(),
        Binary64::fraction(n, 1).times(Binary64::fraction(m, 1)).value() == m * n * binary64::one_unit(),
{
    let u = binary64::one_unit();
    let a = Binary64::fraction(n, 1);
    let b = Binary64::fraction(m, 1);
    assert(0 <= n * m <= 0xffff_ffff * 100) by (nonlinear_arith)
        requires
            0 <= n <= 0xffff_ffff,
            0 <= m <= 100,
    ;
    let exact = Binary64::fraction(n * m, 1);
    order::lemma_constants();
    order::lemma_whole_number(n);
    order::lemma_whole_number(m);
    order::lemma_whole_number(n * m);
    assert(0 <= n * u && 0 <= m * u) by (nonlinear_arith)
        requires
            n >= 0,
            m >= 0,
            u > 0,
    ;
    order::lemma_times(a, b);
    assert((n * u) * (m * u) == ((n * m) * u) * u) by (nonlinear_arith);
    order::lemma_rounded_exact(exact, u);
    assert((n * m) * u == m * n * u) by (nonlinear_arith);
    order::lemma_finite_bounds(exact);
    order::lemma_finite_bounds(a.times(b));
}

/// What a host has on an axis: the figure of its profile where that is finite, else nothing; the largest
/// VRAM and the whole throughput of its accelerators; and an estimate where it has no profile.
spec fn has(c: CandidateView, axis: ProfileAxis, x: int) -> bool {
    let figure = |y: Binary64| if y.finite() { y.value() } else { 0 };
    match c.profile {
        Some(p) => match axis {
            ProfileAxis::Gflops => x == figure(p.cpu.gflops_fp32),
            ProfileAxis::MemBwGbps => x == figure(p.cpu.mem_bw_gbps),
            ProfileAxis::VramMb => {
                &&& forall|k: int|
                    0 <= k < p.gpus.len() && (#[trigger] p.gpus[k]).vram_mb.finite() ==> p.gpus[k].vram_mb.value() <= x
                &&& x == 0 || exists|k: int|
                    0 <= k < p.gpus.len() && (#[trigger] p.gpus[k]).vram_mb.finite() && p.gpus[k].vram_mb.value() == x
            },
            ProfileAxis::Fp16Tflops => scorer::total_tflops(p.gpus).finite() && x == scorer::total_tflops(p.gpus).value(),
            ProfileAxis::TokensPerSec => x == figure(p.llm.tokens_per_sec),
            ProfileAxis::DiskReadMbps => x == figure(p.storage.read_mbps),
            ProfileAxis::DiskWriteMbps => x == figure(p.storage.write_mbps),
        },
        None => x == scorer::estimated_axis(axis, c).value(),
    }
}

proof fn lemma_has(c: CandidateView, axis: ProfileAxis, x: int)
    requires
        has(c, axis, x),
        x >= 0,
    ensures
        scorer::offered(axis, c).finite(),
        scorer::offered(axis, c).value() == x,
{
    order::lemma_constants();
    match c.profile {
        Some(p) => {
            conditions::lemma_most_vram(p.gpus);
            if axis == ProfileAxis::VramMb {
                let most = scorer::most_vram(p.gpus);
                if most.value() > 0 {
                    let k = choose|k: int| 0 <= k < p.gpus.len() && (#[trigger] p.gpus[k]).vram_mb == most;
                    assert(p.gpus[k].vram_mb.finite());
                }
            }
        },
        None => {
            lemma_estimates_in_numbers(c);
            let e = |a: ProfileAxis| scorer::estimated_axis(a, c);
            assert(e(axis).finite());
        },
    }
}

/// The fit to one axis is what the host has of the target, as a share of it and at most one, to within
/// one part in 2^50. What the host has is the figure of its profile where that is finite, else nothing;
/// for accelerators the largest VRAM and the whole throughput.
pub proof fn lemma_fit_to_one_axis(c: CandidateView, spec: JobSpecView, axis: ProfileAxis, a: DemandAxis, x: int)
    requires
        spec.demand == Some(demand_on(axis, a)),
        a.weight.finite(),
        unit(-1022) <= a.weight.value() <= unit(900),
        a.target.finite(),
        a.target.value() > 0,
        x >= 0,
        ({
            let figure = |y: Binary64| if y.finite() { y.value() } else { 0 };
            match c.profile {
                Some(p) => match axis {
                    ProfileAxis::Gflops => x == figure(p.cpu.gflops_fp32),
                    ProfileAxis::MemBwGbps => x == figure(p.cpu.mem_bw_gbps),
                    ProfileAxis::VramMb => {
                        &&& forall|k: int|
                            0 <= k < p.gpus.len() && (#[trigger] p.gpus[k]).vram_mb.finite()
                                ==> p.gpus[k].vram_mb.value() <= x
                        &&& x == 0 || exists|k: int|
                            0 <= k < p.gpus.len() && (#[trigger] p.gpus[k]).vram_mb.finite()
                                && p.gpus[k].vram_mb.value() == x
                    },
                    ProfileAxis::Fp16Tflops => scorer::total_tflops(p.gpus).finite() && x == scorer::total_tflops(
                        p.gpus,
                    ).value(),
                    ProfileAxis::TokensPerSec => x == figure(p.llm.tokens_per_sec),
                    ProfileAxis::DiskReadMbps => x == figure(p.storage.read_mbps),
                    ProfileAxis::DiskWriteMbps => x == figure(p.storage.write_mbps),
                },
                None => x == scorer::estimated_axis(axis, c).value(),
            }
        }),
    ensures
        ({
            let u = binary64::one_unit();
            let t = a.target.value();
            let got = if x < t { x } else { t };
            let r = scorer::bench_fit(c, spec);
            &&& 0 <= r.score.value() <= u
            &&& -(u * t) <= (r.score.value() * t - got * u) * 0x4_0000_0000_0000 <= u * t
            &&& c.profile is Some ==> r.source == scorer::FitSource::Profile && r.confidence.value() == u
            &&& c.profile is None ==> r.source == scorer::FitSource::Atlas && -(10 * u) <= (10 * r.confidence.value()
                - 6 * u) * 0x20_0000_0000_0000 <= 10 * u
        }),
{
    let u = binary64::one_unit();
    let g = grain();
    let t = a.target.value();
    let w = a.weight.value();
    let got = if x < t { x } else { t };
    order::lemma_constants();
    accuracy::lemma_grain();
    accuracy::lemma_proper_fraction(6, 10);
    bounds::lemma_unit(-1022, 900);
    assert(has(c, axis, x));
    lemma_has(c, axis, x);
    let axes = scorer::asked(axis, Some(a));
    assert(scorer::asked_axes(spec.demand) =~= axes);
    lemma_axis_alone(axis, Some(a), c, spec);
    let y = scorer::offered(axis, c);
    let q = y.over(a.target);
    let f = q.clamped();
    order::lemma_clamped(q);
    let r = scorer::bench_fit(c, spec).score.value();
    order::lemma_clamped(scorer::fit_sums(axes, c).0.over(scorer::fit_sums(axes, c).1));
    // the score against the saturated quotient
    counting::lemma_sum_last(axes, pull(c));
    counting::lemma_sum_last(axes.drop_last(), pull(c));
    assert(w * r - w * f.value() == w * (r - f.value())) by (nonlinear_arith);
    assert(-(7 * g) <= r - f.value() <= 7 * g) by (nonlinear_arith)
        requires
            -(7 * (g * w)) <= w * (r - f.value()) <= 7 * (g * w),
            w > 0,
    ;
    // the saturated quotient against the exact one
    let h = g * t;
    assert(-h <= f.value() * t - got * u <= h) by {
        if x < t {
            assert(x * u <= u * t) by (nonlinear_arith)
                requires
                    x < t,
                    u > 0,
            ;
            accuracy::lemma_over_close(y, a.target, 0);
        } else {
            bounds::lemma_over_size(y, a.target);
            order::lemma_rounded_exact(Binary64::one(), t);
            assert((u * t) * t <= (x * u) * t) by (nonlinear_arith)
                requires
                    x >= t,
                    t > 0,
                    u > 0,
            ;
            order::lemma_rounded_grows(u * t, t, x * u, t);
            assert(f.value() == u);
            assert(u * t == t * u) by (nonlinear_arith);
            assert(h >= 0) by (nonlinear_arith)
                requires
                    h == g * t,
                    g > 0,
                    t > 0,
            ;
        }
    }
    let e = r - f.value();
    assert(-(7 * h) <= e * t <= 7 * h) by (nonlinear_arith)
        requires
            -(7 * g) <= e <= 7 * g,
            h == g * t,
            t > 0,
    ;
    assert(e * t == r * t - f.value() * t) by (nonlinear_arith)
        requires
            e == r - f.value(),
    ;
    assert(u * t == 0x20_0000_0000_0000 * h) by (nonlinear_arith)
        requires
            u == 0x20_0000_0000_0000 * g,
            h == g * t,
    ;
}

/// Where nothing is asked, neither an axis with a positive weight nor a demand at all, the fit is one
/// half.
pub proof fn lemma_nothing_asked_fits_half(c: CandidateView, spec: JobSpecView)
    ensures
        spec.demand is None ==> 2 * scorer::bench_fit(c, spec).score.value() == binary64::one_unit(),
        spec.demand matches Some(d) ==> (forall|x: DemandAxis|
            (d.gflops == Some(x) || d.mem_bw_gbps == Some(x) || d.vram_mb == Some(x) || d.fp16_tflops == Some(x)
                || d.tokens_per_sec == Some(x) || d.disk_read_mbps == Some(x) || d.disk_write_mbps == Some(x))
                ==> (#[trigger] x.weight).finite() && x.weight.value() <= 0) ==> 2 * scorer::bench_fit(
            c,
            spec,
        ).score.value() == binary64::one_unit(),
{
    order::lemma_constants();
    vstd::arithmetic::power2::lemma2_to64();
    order::lemma_dyadic(1, 1);
}

} // verus!
