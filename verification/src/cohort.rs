//! What the cohort bonus is, in numbers.

use crate::accuracy::{self, grain};
use crate::api::{Cohort, JobSpecView};
use crate::binary64::{self, Binary64};
use crate::bounds::{self, unit};
use crate::candidate::CandidateView;
use crate::counting::{self, sum_of};
use crate::latency::LatencyModel;
use crate::order;
use crate::scorer;
use crate::selection;
use crate::vendor;
use vstd::prelude::*;

verus! {

/// A member to which an RTT is predicted.
spec fn reached(c: CandidateView, graph: LatencyModel) -> spec_fn(CandidateView) -> bool {
    |m: CandidateView| (graph.predicted)(c.node_id, m.node_id).finite()
}

/// The RTT that is predicted to a member, and zero where none is.
spec fn rtt_to(c: CandidateView, graph: LatencyModel) -> spec_fn(CandidateView) -> int {
    |m: CandidateView|
        if (graph.predicted)(c.node_id, m.node_id).finite() {
            (graph.predicted)(c.node_id, m.node_id).value()
        } else {
            0
        }
}

proof fn lemma_cohort_sums(c: CandidateView, members: Seq<CandidateView>, graph: LatencyModel)
    requires
        members.len() <= u32::MAX,
        forall|i: int|
            0 <= i < members.len() ==> (graph.predicted)(c.node_id, (#[trigger] members[i]).node_id).value() >= 0,
        sum_of(members, rtt_to(c, graph)) <= unit(900),
    ensures
        ({
            let (sum, n) = selection::cohort_rtt(c, members, graph);
            let s = sum_of(members, rtt_to(c, graph));
            &&& n == members.filter(reached(c, graph)).len()
            &&& 0 <= n <= members.len()
            &&& sum.finite()
            &&& 0 <= s
            &&& 0 <= sum.value() <= 2 * s
            &&& -(2 * (n * s)) <= (sum.value() - s) * 0x20_0000_0000_0000 <= 2 * (n * s)
            &&& forall|i: int|
                0 <= i < members.len() && (graph.predicted)(c.node_id, (#[trigger] members[i]).node_id).finite()
                    ==> (graph.predicted)(c.node_id, members[i].node_id).value() <= sum.value()
        }),
    decreases members.len(),
{
    let f = rtt_to(c, graph);
    order::lemma_constants();
    counting::lemma_sum_last(members, f);
    if members.len() == 0 {
        counting::lemma_count_bounded(members, reached(c, graph));
    } else {
        let rest = members.drop_last();
        let last = members.last();
        counting::lemma_count_last(members, reached(c, graph));
        assert forall|i: int| 0 <= i < rest.len() implies (graph.predicted)(
            c.node_id,
            (#[trigger] rest[i]).node_id,
        ).value() >= 0 by {
            assert(rest[i] == members[i]);
        }
        assert(members[members.len() - 1] == last);
        lemma_cohort_sums(c, rest, graph);
        let (sum, n) = selection::cohort_rtt(c, rest, graph);
        let rtt = (graph.predicted)(c.node_id, last.node_id);
        let s = sum_of(rest, f);
        if rtt.finite() {
            let t = s + rtt.value();
            assert(0 <= n * s <= 0xffff_ffff * s) by (nonlinear_arith)
                requires
                    0 <= n <= 0xffff_ffff,
                    0 <= s,
            ;
            bounds::lemma_unit(900, 901);
            bounds::lemma_unit_doubles(900);
            accuracy::lemma_plus_close(sum, rtt, 901);
            order::lemma_plus_error(sum, rtt);
            order::lemma_plus(sum, rtt);
            order::lemma_rounded_exact(sum, 1);
            order::lemma_rounded_exact(rtt, 1);
            order::lemma_rounded_grows(sum.value(), 1, sum.value() + rtt.value(), 1);
            order::lemma_rounded_grows(rtt.value(), 1, sum.value() + rtt.value(), 1);
            assert((n + 1) * t == n * s + n * rtt.value() + t) by (nonlinear_arith)
                requires
                    t == s + rtt.value(),
            ;
            assert(n * rtt.value() >= 0) by (nonlinear_arith)
                requires
                    n >= 0,
                    rtt.value() >= 0,
            ;
        }
        let total = selection::cohort_rtt(c, members, graph).0;
        assert forall|i: int|
            0 <= i < members.len() && (graph.predicted)(
                c.node_id,
                (#[trigger] members[i]).node_id,
            ).finite() implies (graph.predicted)(c.node_id, members[i].node_id).value() <= total.value() by {
            if i < rest.len() {
                assert(rest[i] == members[i]);
            }
        }
    }
}

/// The RTT to a co-located cohort counts every member: the number of RTTs is the number of members to
/// which a finite one is predicted, their sum has each of them in it and is the exact sum, off by at
/// most two parts in 2^53 for each of them.
pub proof fn lemma_cohort_rtt_counts_every_member(c: CandidateView, members: Seq<CandidateView>, graph: LatencyModel)
    requires
        members.len() <= u32::MAX,
        forall|i: int|
            0 <= i < members.len() ==> (graph.predicted)(c.node_id, (#[trigger] members[i]).node_id).value() >= 0,
        sum_of(
            members,
            |m: CandidateView|
                if (graph.predicted)(c.node_id, m.node_id).finite() {
                    (graph.predicted)(c.node_id, m.node_id).value()
                } else {
                    0
                },
        ) <= unit(900),
    ensures
        ({
            let (sum, n) = selection::cohort_rtt(c, members, graph);
            let exact = sum_of(
                members,
                |m: CandidateView|
                    if (graph.predicted)(c.node_id, m.node_id).finite() {
                        (graph.predicted)(c.node_id, m.node_id).value()
                    } else {
                        0
                    },
            );
            &&& n == members.filter(|m: CandidateView| (graph.predicted)(c.node_id, m.node_id).finite()).len()
            &&& sum.finite()
            &&& -(2 * n * exact) <= (sum.value() - exact) * 0x20_0000_0000_0000 <= 2 * n * exact
            &&& forall|i: int|
                0 <= i < members.len() && (graph.predicted)(c.node_id, (#[trigger] members[i]).node_id).finite()
                    ==> (graph.predicted)(c.node_id, members[i].node_id).value() <= sum.value()
        }),
{
    let f = |m: CandidateView|
        if (graph.predicted)(c.node_id, m.node_id).finite() {
            (graph.predicted)(c.node_id, m.node_id).value()
        } else {
            0
        };
    let p = |m: CandidateView| (graph.predicted)(c.node_id, m.node_id).finite();
    assert(f =~= rtt_to(c, graph));
    assert(p =~= reached(c, graph));
    lemma_cohort_sums(c, members, graph);
    let n = selection::cohort_rtt(c, members, graph).1;
    let exact = sum_of(members, f);
    assert(2 * n * exact == 2 * (n * exact)) by (nonlinear_arith);
}

/// The sum over the count, set against the cap.
spec fn left_over(sum: Binary64, n: int, cap: Binary64) -> Binary64 {
    Binary64::one().minus(sum.over(Binary64::fraction(n, 1)).over(cap)).clamped()
}

proof fn lemma_near(sum: Binary64, n: int, cap: Binary64, s: int)
    requires
        sum.finite(),
        0 <= s <= unit(900),
        0 <= sum.value() <= 2 * s,
        -(2 * (n * s)) <= (sum.value() - s) * 0x20_0000_0000_0000 <= 2 * (n * s),
        1 <= n <= 0xffff_ffff,
        cap.finite(),
        unit(-60) <= cap.value(),
        s <= 2 * (n * cap.value()),
    ensures
        ({
            let v = left_over(sum, n, cap).value();
            let limit = n * cap.value();
            let slack = (24 + 4 * n) * (grain() * limit);
            &&& 0 <= v <= binary64::one_unit()
            &&& s <= limit ==> -slack <= v * limit - (limit - s) * binary64::one_unit() <= slack
            &&& s > limit ==> v * limit <= slack
        }),
{
    let u = binary64::one_unit();
    let g = grain();
    let count = Binary64::fraction(n, 1);
    let k = cap.value();
    let limit = n * k;
    let mean = sum.over(count);
    let q = mean.over(cap);
    let x = Binary64::one().minus(q);
    let h = g * limit;
    accuracy::lemma_grain();
    order::lemma_constants();
    order::lemma_whole_number(n);
    bounds::lemma_unit(-60, 971);
    assert(k >= 0x20_0000_0000_0000) by {
        bounds::lemma_unit(-1021, -60);
        vstd::arithmetic::power2::lemma2_to64_rest();
    }
    assert(count.value() == n * u && n * u >= u && count.value() > 0) by (nonlinear_arith)
        requires
            count.value() == n * u,
            n >= 1,
            u > 0,
    ;
    bounds::lemma_unit_doubles(900);
    bounds::lemma_unit(900, 901);
    bounds::lemma_over_within(sum, count, 901, 0);
    bounds::lemma_over_size(sum, count);
    order::lemma_over_error(sum, count);
    let m = mean.value();
    let mn = m * n;
    assert(-n <= 2 * (sum.value() - mn) <= n || -mn <= (sum.value() - mn) * 0x20_0000_0000_0000 <= mn) by {
        let e = sum.value() * u - m * (n * u);
        let d = sum.value() - mn;
        assert(e == d * u) by (nonlinear_arith)
            requires
                e == sum.value() * u - m * (n * u),
                d == sum.value() - m * n,
        ;
        if -(n * u) <= 2 * e <= n * u {
            assert(-n <= 2 * d <= n) by (nonlinear_arith)
                requires
                    -(n * u) <= 2 * e <= n * u,
                    e == d * u,
                    u > 0,
            ;
        } else {
            assert(-mn <= d * 0x20_0000_0000_0000 <= mn) by (nonlinear_arith)
                requires
                    -(m * (n * u)) <= e * 0x20_0000_0000_0000 <= m * (n * u),
                    mn == m * n,
                    e == d * u,
                    u > 0,
            ;
        }
    }
    assert(limit >= 0x20_0000_0000_0000 * n) by (nonlinear_arith)
        requires
            limit == n * k,
            k >= 0x20_0000_0000_0000,
            n >= 1,
    ;
    assert(-(8 * limit) <= (sum.value() - mn) * 0x20_0000_0000_0000 <= 8 * limit);
    assert(mn <= 8 * limit);
    assert(m <= 8 * k) by (nonlinear_arith)
        requires
            m * n <= 8 * (n * k),
            n >= 1,
    ;
    assert(m * u <= unit(3) * k) by (nonlinear_arith)
        requires
            m <= 8 * k,
            unit(3) == 8 * u,
            u > 0,
    ;
    accuracy::lemma_over_close(mean, cap, 3);
    accuracy::lemma_minus_close(Binary64::one(), q, 3);
    let y = q.value();
    // the quotient against the exact sum
    assert(-(8 * h) <= (y * k - m * u) * n <= 8 * h) by (nonlinear_arith)
        requires
            -(8 * g * k) <= y * k - m * u <= 8 * g * k,
            h == g * (n * k),
            n >= 1,
    ;
    assert((y * k - m * u) * n == y * limit - mn * u) by (nonlinear_arith)
        requires
            limit == n * k,
            mn == m * n,
    ;
    assert(-(8 * h) <= (sum.value() - mn) * u <= 8 * h) by (nonlinear_arith)
        requires
            -(8 * limit) <= (sum.value() - mn) * 0x20_0000_0000_0000 <= 8 * limit,
            u == 0x20_0000_0000_0000 * g,
            h == g * limit,
            g > 0,
    ;
    assert(-(4 * n * h) <= (sum.value() - s) * u <= 4 * n * h) by {
        let d = (sum.value() - s) * 0x20_0000_0000_0000;
        assert(n * s <= n * (2 * limit)) by (nonlinear_arith)
            requires
                s <= 2 * limit,
                n >= 1,
        ;
        assert(n * (2 * limit) == 2 * (n * limit)) by (nonlinear_arith);
        assert(-(4 * (n * limit)) <= d <= 4 * (n * limit));
        assert((sum.value() - s) * u == d * g) by (nonlinear_arith)
            requires
                d == (sum.value() - s) * 0x20_0000_0000_0000,
                u == 0x20_0000_0000_0000 * g,
        ;
        assert(-(4 * n * h) <= d * g <= 4 * n * h) by (nonlinear_arith)
            requires
                -(4 * (n * limit)) <= d <= 4 * (n * limit),
                h == g * limit,
                g > 0,
        ;
    }
    assert((sum.value() - mn) * u == sum.value() * u - mn * u) by (nonlinear_arith);
    assert((sum.value() - s) * u == sum.value() * u - s * u) by (nonlinear_arith);
    let slack = (16 + 4 * n) * h;
    assert(slack == 16 * h + 4 * n * h) by (nonlinear_arith)
        requires
            slack == (16 + 4 * n) * h,
    ;
    assert(-slack <= y * limit - s * u <= slack);
    // what is left of one
    let z = x.value();
    assert(-(8 * h) <= (z - (u - y)) * limit <= 8 * h) by (nonlinear_arith)
        requires
            -(8 * g) <= z - (u - y) <= 8 * g,
            h == g * limit,
            limit > 0,
    ;
    assert((z - (u - y)) * limit == z * limit - u * limit + y * limit) by (nonlinear_arith);
    assert((limit - s) * u == u * limit - s * u) by (nonlinear_arith);
    let full = (24 + 4 * n) * h;
    assert(full == slack + 8 * h) by (nonlinear_arith)
        requires
            slack == (16 + 4 * n) * h,
            full == (24 + 4 * n) * h,
    ;
    assert(-full <= z * limit - (limit - s) * u <= full);
    let v = left_over(sum, n, cap).value();
    order::lemma_clamped(x);
    assert(h >= 0 && full >= 0) by (nonlinear_arith)
        requires
            h == g * limit,
            full == (24 + 4 * n) * h,
            g > 0,
            limit > 0,
            n >= 1,
    ;
    assert(s <= limit ==> 0 <= (limit - s) * u <= u * limit) by (nonlinear_arith)
        requires
            0 <= s,
            u > 0,
    ;
    assert(s > limit ==> (limit - s) * u < 0) by (nonlinear_arith)
        requires
            u > 0,
    ;
    assert(z < 0 ==> z * limit < 0) by (nonlinear_arith)
        requires
            limit > 0,
    ;
    assert(z > u ==> z * limit > u * limit) by (nonlinear_arith)
        requires
            limit > 0,
    ;
    assert(v == 0 ==> v * limit == 0) by (nonlinear_arith);
}

proof fn lemma_far(sum: Binary64, n: int, cap: Binary64, s: int)
    requires
        sum.finite(),
        0 <= s <= unit(900),
        0 <= sum.value() <= 2 * s,
        -(2 * (n * s)) <= (sum.value() - s) * 0x20_0000_0000_0000 <= 2 * (n * s),
        1 <= n <= 0xffff_ffff,
        cap.finite(),
        unit(-60) <= cap.value(),
        s > 2 * (n * cap.value()),
    ensures
        left_over(sum, n, cap).value() == 0,
{
    let u = binary64::one_unit();
    let count = Binary64::fraction(n, 1);
    let k = cap.value();
    let mean = sum.over(count);
    let q = mean.over(cap);
    accuracy::lemma_grain();
    order::lemma_constants();
    order::lemma_whole_number(n);
    bounds::lemma_unit(-60, 971);
    bounds::lemma_unit_doubles(900);
    bounds::lemma_unit(900, 901);
    assert(n * u >= u) by (nonlinear_arith)
        requires
            n >= 1,
            u > 0,
    ;
    bounds::lemma_over_within(sum, count, 901, 0);
    bounds::lemma_over_size(sum, count);
    assert(n * s <= 0xffff_ffff * s) by (nonlinear_arith)
        requires
            n <= 0xffff_ffff,
            0 <= s,
    ;
    assert(sum.value() >= n * k);
    assert((k * (n * u)) * (n * u) <= (sum.value() * u) * (n * u)) by (nonlinear_arith)
        requires
            sum.value() >= n * k,
            n >= 1,
            u > 0,
    ;
    order::lemma_rounded_grows(k * (n * u), n * u, sum.value() * u, n * u);
    order::lemma_rounded_exact(cap, n * u);
    assert(mean.value() >= k);
    bounds::lemma_over_within(mean, cap, 901, -60);
    bounds::lemma_over_size(mean, cap);
    assert((u * k) * k <= (mean.value() * u) * k) by (nonlinear_arith)
        requires
            mean.value() >= k,
            k > 0,
            u > 0,
    ;
    order::lemma_rounded_grows(u * k, k, mean.value() * u, k);
    order::lemma_rounded_exact(Binary64::one(), k);
    assert(q.value() >= u);
    order::lemma_negated(q);
    order::lemma_plus(Binary64::one(), q.negated());
    order::lemma_rounded_exact(Binary64::zero(), 1);
    order::lemma_rounded_grows(u - q.value(), 1, 0, 1);
}

/// In a co-located cohort the bonus is 0.15 times what the mean RTT leaves of the soft cap: for `n`
/// members to which finite RTTs are predicted, the mean is their exact sum over `n`. The soft cap is 250
/// ms where the job names no positive one. The bonus is off
/// by at most `6 + n` parts in 2^53 of one.
pub proof fn lemma_bonus_is_a_share_of_what_the_mean_leaves(
    c: CandidateView,
    members: Seq<CandidateView>,
    spec: JobSpecView,
    graph: LatencyModel,
    cap: Binary64,
)
    requires
        spec.cohort == Some(Cohort::Colocate),
        match spec.rtt_soft_cap_ms {
            Some(v) => if v.finite() && v.value() > 0 {
                cap == v
            } else {
                cap.value() == 250 * binary64::one_unit()
            },
            None => cap.value() == 250 * binary64::one_unit(),
        },
        cap.finite(),
        unit(-60) <= cap.value(),
        0 < members.len() <= u32::MAX,
        forall|i: int|
            0 <= i < members.len() ==> (graph.predicted)(c.node_id, (#[trigger] members[i]).node_id).value() >= 0,
        sum_of(
            members,
            |m: CandidateView|
                if (graph.predicted)(c.node_id, m.node_id).finite() {
                    (graph.predicted)(c.node_id, m.node_id).value()
                } else {
                    0
                },
        ) <= unit(900),
    ensures
        ({
            let n = members.filter(|m: CandidateView| (graph.predicted)(c.node_id, m.node_id).finite()).len();
            let sum = sum_of(
                members,
                |m: CandidateView|
                    if (graph.predicted)(c.node_id, m.node_id).finite() {
                        (graph.predicted)(c.node_id, m.node_id).value()
                    } else {
                        0
                    },
            );
            let limit = n * cap.value();
            let u = binary64::one_unit();
            let bonus = selection::cohort_bonus(c, members, spec, Some(graph));
            let slack = 100 * (6 + n) * (u * limit);
            &&& bonus.finite()
            &&& n == 0 ==> bonus.value() == 0
            &&& n > 0 && sum <= limit ==> -slack <= (100 * bonus.value() * limit - 15 * (limit - sum) * u)
                * 0x20_0000_0000_0000 <= slack
            &&& n > 0 && sum > limit ==> 0 <= (100 * bonus.value() * limit) * 0x20_0000_0000_0000 <= slack
        }),
{
    let f = |m: CandidateView|
        if (graph.predicted)(c.node_id, m.node_id).finite() {
            (graph.predicted)(c.node_id, m.node_id).value()
        } else {
            0
        };
    let p = |m: CandidateView| (graph.predicted)(c.node_id, m.node_id).finite();
    assert(f =~= rtt_to(c, graph));
    assert(p =~= reached(c, graph));
    lemma_cohort_sums(c, members, graph);
    order::lemma_constants();
    let (sum, n) = selection::cohort_rtt(c, members, graph);
    let s = sum_of(members, f);
    let limit = n * cap.value();
    bounds::lemma_unit(-60, -60);
    order::lemma_whole_number(250);
    if cap.value() == 250 * binary64::one_unit() {
        order::lemma_same_value(cap, Binary64::fraction(250, 1));
    }
    assert(scorer::positive_or(spec.rtt_soft_cap_ms, Binary64::fraction(250, 1)) == cap);
    if n > 0 {
        accuracy::lemma_grain();
        let g = grain();
        let u = binary64::one_unit();
        let h = g * limit;
        assert(limit > 0 && h >= 0) by (nonlinear_arith)
            requires
                limit == n * cap.value(),
                n > 0,
                cap.value() > 0,
                h == g * limit,
                g > 0,
        ;
        let v = left_over(sum, n, cap);
        if s <= 2 * limit {
            lemma_near(sum, n, cap, s);
        } else {
            lemma_far(sum, n, cap, s);
            assert(v.value() * limit == 0 && (24 + 4 * n) * h >= 0) by (nonlinear_arith)
                requires
                    v.value() == 0,
                    h >= 0,
                    n >= 0,
            ;
        }
        order::lemma_clamped(Binary64::one().minus(sum.over(Binary64::fraction(n, 1)).over(cap)));
        let rate = Binary64::fraction(15, 100);
        let b = rate.times(v);
        accuracy::lemma_proper_fraction(15, 100);
        accuracy::lemma_share_of(rate, v);
        accuracy::lemma_scaled(b.value(), rate.value(), v.value(), 15, 100, g, g);
        let e = 100 * b.value() - 15 * v.value();
        assert(-(200 * h) <= e * limit <= 200 * h) by (nonlinear_arith)
            requires
                -(200 * g) <= e <= 200 * g,
                h == g * limit,
                limit > 0,
        ;
        assert(e * limit == 100 * b.value() * limit - 15 * (v.value() * limit)) by (nonlinear_arith)
            requires
                e == 100 * b.value() - 15 * v.value(),
        ;
        let small = (24 + 4 * n) * h;
        let slack = 100 * (6 + n) * (u * limit);
        let nh = n * h;
        assert(small == 24 * h + 4 * nh) by (nonlinear_arith)
            requires
                small == (24 + 4 * n) * h,
                nh == n * h,
        ;
        assert(slack == 0x20_0000_0000_0000 * (600 * h + 100 * nh)) by (nonlinear_arith)
            requires
                slack == 100 * (6 + n) * (u * limit),
                u == 0x20_0000_0000_0000 * g,
                h == g * limit,
                nh == n * h,
        ;
        assert(nh >= 0) by (nonlinear_arith)
            requires
                nh == n * h,
                n >= 0,
                h >= 0,
        ;
        assert(15 * (limit - s) * u == 15 * ((limit - s) * u)) by (nonlinear_arith);
        assert(100 * b.value() * limit >= 0) by (nonlinear_arith)
            requires
                b.value() >= 0,
                limit > 0,
        ;
        assert(-(560 * h + 60 * nh) <= 100 * b.value() * limit - 15 * (if s <= limit { (limit - s) * u } else { 0 })
            <= 560 * h + 60 * nh);
    }
}

/// In a cohort that is not co-located the bonus is 0.05, within one part in 2^53, for a host whose
/// region is known and has no member in it, and nothing else. The first pick gets none.
pub proof fn lemma_bonus_for_a_fresh_region(
    c: CandidateView,
    members: Seq<CandidateView>,
    spec: JobSpecView,
    graph: Option<LatencyModel>,
)
    ensures
        ({
            let bonus = selection::cohort_bonus(c, members, spec, graph);
            let u = binary64::one_unit();
            let fresh = c.groups matches Some(g) && g.region.len() > 0 && !(g.region.len() >= 3 && g.region.take(3)
                == "r?:"@) && (forall|i: int|
                0 <= i < members.len() ==> match (#[trigger] members[i]).groups {
                    Some(other) => other.region != g.region,
                    None => true,
                });
            &&& members.len() == 0 ==> bonus.value() == 0
            &&& members.len() > 0 && spec.cohort != Some(Cohort::Colocate) ==> {
                &&& fresh ==> -(100 * u) <= (100 * bonus.value() - 5 * u) * 0x20_0000_0000_0000 <= 100 * u
                &&& !fresh ==> bonus.value() == 0
            }
            &&& spec.cohort == Some(Cohort::Colocate) && graph is None ==> bonus.value() == 0
        }),
{
    order::lemma_constants();
    accuracy::lemma_grain();
    accuracy::lemma_proper_fraction(5, 100);
    reveal_strlit("r?:");
    match c.groups {
        Some(g) => {
            assert(vendor::region_is_real(g.region) <==> !(g.region.len() >= 3 && g.region.take(3) == "r?:"@));
            if forall|i: int|
                0 <= i < members.len() ==> match (#[trigger] members[i]).groups {
                    Some(other) => other.region != g.region,
                    None => true,
                } {
                assert(!selection::region_used(g.region, members));
            }
        },
        None => {},
    }
}

} // verus!
