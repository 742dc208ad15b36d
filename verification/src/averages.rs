//! What fused edges average.

use crate::accuracy;
use crate::api::MeshEdgeView;
use crate::binary64::{self, Binary64};
use crate::bounds::{self, unit};
use crate::counting::{self, sum_of};
use crate::fusion::{self, FusedView};
use crate::order;
use crate::rounding;
use crate::text;
use vstd::prelude::*;

verus! {

/// An observation of the pair that a key names.
pub open spec fn concerns(o: MeshEdgeView, key: Seq<char>) -> bool {
    o.a.len() > 0 && o.b.len() > 0 && o.a != o.b && fusion::key_of(o.a, o.b) == key
}

/// How often a pair was sampled in an observation, at least once.
pub open spec fn times_sampled(key: Seq<char>) -> spec_fn(MeshEdgeView) -> int {
    |o: MeshEdgeView|
        if concerns(o, key) {
            if o.samples > 1 { o.samples as int } else { 1 }
        } else {
            0
        }
}

/// The RTT of an observation of a pair, as often as it was sampled.
pub open spec fn rtt_sampled(key: Seq<char>) -> spec_fn(MeshEdgeView) -> int {
    |o: MeshEdgeView|
        if concerns(o, key) {
            o.rtt_ms.value() * if o.samples > 1 { o.samples as int } else { 1 }
        } else {
            0
        }
}

spec fn moderate(obs: Seq<MeshEdgeView>) -> bool {
    forall|j: int| 0 <= j < obs.len() ==> (#[trigger] obs[j]).rtt_ms.finite() && obs[j].rtt_ms.value() >= 0
}

proof fn lemma_prefix<A>(s: Seq<A>, n: nat, f: spec_fn(A) -> int)
    requires
        0 < n <= s.len(),
    ensures
        sum_of(s.take(n as int), f) == sum_of(s.take(n - 1), f) + f(s[n - 1]),
{
    let t = s.take(n as int);
    assert(t.drop_last() =~= s.take(n - 1));
    counting::lemma_sum_last(t, f);
}

proof fn lemma_sums(obs: Seq<MeshEdgeView>, key: Seq<char>, n: nat)
    requires
        n <= obs.len(),
        moderate(obs),
    ensures
        sum_of(obs.take(n as int), times_sampled(key)) == fusion::samples_of(obs, key, n),
        0 <= fusion::samples_of(obs, key, n),
        0 <= sum_of(obs.take(n as int), rtt_sampled(key)),
        fusion::samples_of(obs, key, n) == 0 ==> sum_of(obs.take(n as int), rtt_sampled(key)) == 0 && forall|j: int|
            0 <= j < n ==> !concerns(#[trigger] obs[j], key),
    decreases n,
{
    if n == 0 {
        counting::lemma_sum_last(obs.take(0), times_sampled(key));
        counting::lemma_sum_last(obs.take(0), rtt_sampled(key));
    } else {
        lemma_sums(obs, key, (n - 1) as nat);
        lemma_prefix(obs, n, times_sampled(key));
        lemma_prefix(obs, n, rtt_sampled(key));
        let o = obs[n - 1];
        let w = if o.samples > 1 { o.samples as int } else { 1 };
        assert(o.rtt_ms.value() * w >= 0) by (nonlinear_arith)
            requires
                o.rtt_ms.value() >= 0,
                w >= 1,
        ;
    }
}

/// What is known of a fused edge against the exact sums.
spec fn averaged(f: FusedView, total: int, count: int, n: int) -> bool {
    &&& f.samples == count
    &&& f.weighted.finite()
    &&& 0 <= f.weighted.value() <= 2 * total
    &&& -(4 * (n * total)) <= (f.weighted.value() - total) * 0x20_0000_0000_0000 <= 4 * (n * total)
    &&& f.rtt_ms.finite()
    &&& f.rtt_ms.value() >= 0
    &&& ({
        let slack = 4 * ((n + 1) * total) + 0x10_0000_0000_0000 * count;
        -slack <= (f.rtt_ms.value() * count - total) * 0x20_0000_0000_0000 <= slack
    })
}

proof fn lemma_weighed(r: Binary64, w: int)
    requires
        r.finite(),
        r.value() >= 0,
        1 <= w < 0x20_0000_0000_0000,
        r.value() * w <= unit(900),
    ensures
        ({
            let p = r.times(Binary64::fraction(w, 1));
            let exact = r.value() * w;
            &&& p.finite()
            &&& 0 <= p.value() <= 2 * exact
            &&& -(2 * exact) <= (p.value() - exact) * 0x20_0000_0000_0000 <= 2 * exact
        }),
{
    let u = binary64::one_unit();
    let x = Binary64::fraction(w, 1);
    let p = r.times(x).value();
    let exact = r.value() * w;
    order::lemma_constants();
    order::lemma_whole_number(w);
    assert(w * u > 0 && exact >= 0) by (nonlinear_arith)
        requires
            w >= 1,
            u > 0,
            r.value() >= 0,
            exact == r.value() * w,
    ;
    order::lemma_times(r, x);
    let n = r.value() * (w * u);
    assert(n == exact * u) by (nonlinear_arith)
        requires
            n == r.value() * (w * u),
            exact == r.value() * w,
    ;
    bounds::lemma_unit(900, 900);
    assert(n >= 0 && n <= unit(900) * u) by (nonlinear_arith)
        requires
            n == exact * u,
            0 <= exact <= unit(900),
            u > 0,
    ;
    bounds::lemma_rounded_at_most(n, u, 900);
    bounds::lemma_stays_finite(r.times(x), 900);
    rounding::lemma_error(n, u);
    let e = exact - p;
    assert(n - p * u == e * u) by (nonlinear_arith)
        requires
            n == exact * u,
            e == exact - p,
    ;
    if -u <= 2 * (n - p * u) <= u {
        assert(e == 0) by (nonlinear_arith)
            requires
                -u <= 2 * (e * u) <= u,
                u > 0,
        ;
    } else {
        assert(-p <= e * 0x20_0000_0000_0000 <= p) by (nonlinear_arith)
            requires
                -(p * u) <= (e * u) * 0x20_0000_0000_0000 <= p * u,
                u > 0,
        ;
    }
}

proof fn lemma_fresh_is_averaged(o: MeshEdgeView, n: int)
    requires
        o.rtt_ms.finite(),
        o.rtt_ms.value() >= 0,
        n >= 1,
        fusion::weight_of(o) < 0x20_0000_0000_0000,
        o.rtt_ms.value() * fusion::weight_of(o) <= unit(900),
    ensures
        averaged(fusion::fresh(o), o.rtt_ms.value() * fusion::weight_of(o), fusion::weight_of(o), n),
{
    let w = fusion::weight_of(o);
    let total = o.rtt_ms.value() * w;
    lemma_weighed(o.rtt_ms, w);
    assert(n * total >= total && (n + 1) * total >= 0) by (nonlinear_arith)
        requires
            n >= 1,
            total >= 0,
    ;
}

proof fn lemma_extended_is_averaged(e: FusedView, o: MeshEdgeView, total: int, count: int, n: int)
    requires
        averaged(e, total, count, n),
        0 <= n <= 0xffff_ffff,
        0 <= total,
        1 <= count,
        o.rtt_ms.finite(),
        o.rtt_ms.value() >= 0,
        count + fusion::weight_of(o) < 0x20_0000_0000_0000,
        total + o.rtt_ms.value() * fusion::weight_of(o) <= unit(900),
    ensures
        averaged(
            fusion::extended(e, o),
            total + o.rtt_ms.value() * fusion::weight_of(o),
            count + fusion::weight_of(o),
            n + 1,
        ),
{
    let u = binary64::one_unit();
    let w = fusion::weight_of(o);
    let more = o.rtt_ms.value() * w;
    let t = total + more;
    let c = count + w;
    assert(more >= 0) by (nonlinear_arith)
        requires
            more == o.rtt_ms.value() * w,
            o.rtt_ms.value() >= 0,
            w >= 1,
    ;
    order::lemma_constants();
    lemma_weighed(o.rtt_ms, w);
    let p = o.rtt_ms.times(Binary64::fraction(w, 1));
    let a = e.weighted;
    assert(0 <= n * total <= 0xffff_ffff * total) by (nonlinear_arith)
        requires
            0 <= n <= 0xffff_ffff,
            0 <= total,
    ;
    bounds::lemma_unit(900, 901);
    bounds::lemma_unit_doubles(900);
    accuracy::lemma_plus_close(a, p, 901);
    order::lemma_plus_error(a, p);
    order::lemma_plus(a, p);
    order::lemma_rounded_exact(Binary64::zero(), 1);
    order::lemma_rounded_grows(0, 1, a.value() + p.value(), 1);
    let s = a.plus(p);
    assert((n + 1) * t == n * total + n * more + t) by (nonlinear_arith)
        requires
            t == total + more,
    ;
    assert(n * more >= 0) by (nonlinear_arith)
        requires
            n >= 0,
            more >= 0,
    ;
    assert(0 <= s.value() <= 2 * t);
    assert(-(4 * ((n + 1) * t)) <= (s.value() - t) * 0x20_0000_0000_0000 <= 4 * ((n + 1) * t));
    // the mean
    let d = Binary64::fraction(c, 1);
    order::lemma_whole_number(c);
    assert(c * u >= u) by (nonlinear_arith)
        requires
            c >= 1,
            u > 0,
    ;
    bounds::lemma_unit(0, 901);
    bounds::lemma_over_within(s, d, 901, 0);
    bounds::lemma_over_size(s, d);
    order::lemma_over_error(s, d);
    let r = s.over(d).value();
    let rc = r * c;
    let z = s.value() - rc;
    assert(s.value() * u - r * (c * u) == z * u) by (nonlinear_arith)
        requires
            z == s.value() - r * c,
    ;
    assert(-c <= 2 * z <= c || -rc <= z * 0x20_0000_0000_0000 <= rc) by {
        if -(c * u) <= 2 * (z * u) <= c * u {
            assert(-c <= 2 * z <= c) by (nonlinear_arith)
                requires
                    -(c * u) <= 2 * (z * u) <= c * u,
                    u > 0,
            ;
        } else {
            assert(-rc <= z * 0x20_0000_0000_0000 <= rc) by (nonlinear_arith)
                requires
                    -(r * (c * u)) <= (z * u) * 0x20_0000_0000_0000 <= r * (c * u),
                    rc == r * c,
                    u > 0,
            ;
        }
    }
    assert((n + 1 + 1) * t == (n + 1) * t + t) by (nonlinear_arith);
    let slack = 4 * ((n + 1 + 1) * t) + 0x10_0000_0000_0000 * c;
    if -c <= 2 * z <= c {
        assert(-slack <= (rc - t) * 0x20_0000_0000_0000 <= slack);
    } else {
        assert(rc <= 4 * t);
        assert(-slack <= (rc - t) * 0x20_0000_0000_0000 <= slack);
    }
}

/// The latest of the observations of a pair.
spec fn latest(obs: Seq<MeshEdgeView>, key: Seq<char>, n: nat, seen: u64) -> bool {
    &&& forall|j: int| 0 <= j < n && concerns(#[trigger] obs[j], key) ==> obs[j].last_seen_secs <= seen
    &&& exists|j: int| 0 <= j < n && concerns(#[trigger] obs[j], key) && obs[j].last_seen_secs == seen
}

proof fn lemma_entry(obs: Seq<MeshEdgeView>, n: nat, i: int)
    requires
        n <= obs.len() <= u32::MAX,
        moderate(obs),
        0 <= i < fusion::fused(obs, n).len(),
        ({
            let f = fusion::fused(obs, n)[i];
            let key = fusion::key_of(f.a, f.b);
            &&& sum_of(obs.take(n as int), times_sampled(key)) < 0x20_0000_0000_0000
            &&& sum_of(obs.take(n as int), rtt_sampled(key)) <= unit(900)
        }),
    ensures
        ({
            let f = fusion::fused(obs, n)[i];
            let key = fusion::key_of(f.a, f.b);
            &&& averaged(
                f,
                sum_of(obs.take(n as int), rtt_sampled(key)),
                sum_of(obs.take(n as int), times_sampled(key)),
                n as int,
            )
            &&& latest(obs, key, n, f.last_seen_secs)
        }),
    decreases n,
{
    let m = (n - 1) as nat;
    let before = fusion::fused(obs, m);
    let f = fusion::fused(obs, n)[i];
    let key = fusion::key_of(f.a, f.b);
    let o = obs[n - 1];
    lemma_sums(obs, key, m);
    lemma_sums(obs, key, n);
    lemma_prefix(obs, n, times_sampled(key));
    lemma_prefix(obs, n, rtt_sampled(key));
    fusion::lemma_well_fused(obs, m);
    fusion::lemma_fused_samples(obs, m);
    fusion::lemma_fused_at(before, fusion::key_of(o.a, o.b), 0);
    fusion::lemma_key_symmetric(o.a, o.b);
    text::lemma_lex_total(o.a, o.b);
    let total = sum_of(obs.take(m as int), rtt_sampled(key));
    let count = sum_of(obs.take(m as int), times_sampled(key));
    let w = fusion::weight_of(o);
    assert(o.rtt_ms.value() * w >= 0) by (nonlinear_arith)
        requires
            o.rtt_ms.value() >= 0,
            w >= 1,
    ;
    if concerns(o, key) {
        match fusion::fused_at(before, key, 0) {
            Some(k) => {
                if i < before.len() {
                    assert(fusion::key_of(before[i].a, before[i].b) == key);
                    assert(k == i);
                    lemma_entry(obs, m, i);
                    assert(before[i].samples >= 1);
                    lemma_extended_is_averaged(before[i], o, total, count, m as int);
                    let seen = before[i].last_seen_secs;
                    let j = choose|j: int| 0 <= j < m && concerns(#[trigger] obs[j], key) && obs[j].last_seen_secs == seen;
                    assert(concerns(obs[j], key));
                    assert(concerns(obs[n - 1], key));
                }
            },
            None => {
                if i < before.len() {
                    assert(fusion::key_of(before[i].a, before[i].b) == key);
                }
                assert(i == before.len());
                assert(fusion::samples_of(obs, key, m) == 0);
                lemma_fresh_is_averaged(o, n as int);
                assert(concerns(obs[n - 1], key));
            },
        }
    } else {
        if i >= before.len() {
            assert(fusion::relates(o));
            assert(f == fusion::fresh(o));
            assert(fusion::key_of(f.a, f.b) == fusion::key_of(o.a, o.b));
            assert(false);
        }
        assert(f == before[i]) by {
            if fusion::relates(o) {
                match fusion::fused_at(before, fusion::key_of(o.a, o.b), 0) {
                    Some(k) => {
                        if k == i {
                            assert(fusion::key_of(before[i].a, before[i].b) == key);
                        }
                    },
                    None => {},
                }
            }
        }
        lemma_entry(obs, m, i);
        assert(m * total <= n * total && (m + 1) * total <= (n + 1) * total) by (nonlinear_arith)
            requires
                m + 1 == n,
                total >= 0,
        ;
        let seen = f.last_seen_secs;
        let j = choose|j: int| 0 <= j < m && concerns(#[trigger] obs[j], key) && obs[j].last_seen_secs == seen;
        assert(concerns(obs[j], key));
    }
}

/// A fused edge averages the observations of its pair: it has all their samples, each observation counting
/// for one at least, its RTT is the mean of theirs weighed by samples, off by at most four parts in 2^53
/// for each observation and the rounding of tiny numbers, and it was seen when the latest of them was.
pub proof fn lemma_fused_edges_are_means(obs: Seq<MeshEdgeView>, i: int)
    requires
        obs.len() <= u32::MAX,
        forall|j: int| 0 <= j < obs.len() ==> (#[trigger] obs[j]).rtt_ms.finite() && obs[j].rtt_ms.value() >= 0,
        0 <= i < fusion::fused_edges(obs).len(),
        ({
            let e = fusion::fused_edges(obs)[i];
            let key = fusion::key_of(e.a, e.b);
            &&& sum_of(obs, times_sampled(key)) < 0x20_0000_0000_0000
            &&& sum_of(obs, rtt_sampled(key)) <= unit(900)
        }),
    ensures
        ({
            let e = fusion::fused_edges(obs)[i];
            let key = fusion::key_of(e.a, e.b);
            let count = sum_of(obs, times_sampled(key));
            let total = sum_of(obs, rtt_sampled(key));
            let slack = 4 * ((obs.len() + 1) * total) + 0x10_0000_0000_0000 * count;
            &&& e.samples == count
            &&& e.rtt_ms.finite()
            &&& -slack <= (e.rtt_ms.value() * count - total) * 0x20_0000_0000_0000 <= slack
            &&& forall|j: int| 0 <= j < obs.len() && concerns(#[trigger] obs[j], key) ==> obs[j].last_seen_secs
                <= e.last_seen_secs
            &&& exists|j: int|
                0 <= j < obs.len() && concerns(#[trigger] obs[j], key) && obs[j].last_seen_secs == e.last_seen_secs
        }),
{
    let n = obs.len();
    let f = fusion::fused(obs, n)[i];
    assert(obs.take(n as int) =~= obs);
    assert(fusion::fused_edges(obs)[i] == fusion::edge_of(f));
    lemma_sums(obs, fusion::key_of(f.a, f.b), n);
    lemma_entry(obs, n, i);
}

/// A pair that was observed once has the RTT of that observation.
pub proof fn lemma_one_observation_is_kept(o: MeshEdgeView)
    requires
        o.a.len() > 0,
        o.b.len() > 0,
        o.a != o.b,
    ensures
        ({
            let edges = fusion::fused_edges(seq![o]);
            &&& edges.len() == 1
            &&& edges[0].rtt_ms == o.rtt_ms
            &&& edges[0].last_seen_secs == o.last_seen_secs
            &&& edges[0].samples == if o.samples > 1 { o.samples } else { 1 }
            &&& (edges[0].a == o.a && edges[0].b == o.b) || (edges[0].a == o.b && edges[0].b == o.a)
        }),
{
    let obs = seq![o];
    reveal_with_fuel(fusion::fused, 2);
    reveal_with_fuel(fusion::fused_at, 2);
    assert(fusion::fused(obs, 1) =~= Seq::empty().push(fusion::fresh(o)));
}

} // verus!
