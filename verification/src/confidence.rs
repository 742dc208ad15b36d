//! How many replicas a job gets, in numbers.

use crate::accuracy::{self, grain};
use crate::api::{JobSpecView, Redundancy, RedundancyPolicy};
use crate::binary64::{self, Binary64};
use crate::bounds;
use crate::candidate::CandidateView;
use crate::elementary::Elementary;
use crate::order;
use crate::redundancy;
use vstd::arithmetic::power2::*;
use vstd::prelude::*;

verus! {

/// The chance of success is one half without trust, 0.99 with full trust, and in between one half plus
/// 0.49 times the trust, within one part in 2^51; it is never below one half.
pub proof fn lemma_chance_of_success(trust: Binary64)
    requires
        trust.finite(),
        0 <= trust.value() <= binary64::one_unit(),
    ensures
        ({
            let p = redundancy::success_chance(trust);
            let u = binary64::one_unit();
            let t = trust.value();
            &&& p.finite()
            &&& u <= 2 * p.value()
            &&& p.value() <= u
            &&& t == 0 ==> 2 * p.value() == u
            &&& -(100 * u) <= (100 * p.value() - (50 * u + 49 * t)) * 0x8_0000_0000_0000 <= 100 * u
        }),
{
    let u = binary64::one_unit();
    let g = grain();
    let t = trust.value();
    let half = Binary64::fraction(1, 2);
    let rate = Binary64::fraction(49, 100);
    let most = Binary64::fraction(99, 100);
    let prod = rate.times(trust);
    let sum = half.plus(prod);
    accuracy::lemma_grain();
    order::lemma_constants();
    lemma2_to64();
    order::lemma_dyadic(1, 1);
    accuracy::lemma_proper_fraction(49, 100);
    accuracy::lemma_proper_fraction(99, 100);
    accuracy::lemma_share_of(rate, trust);
    accuracy::lemma_scaled(prod.value(), rate.value(), t, 49, 100, g, g);
    accuracy::lemma_plus_close(half, prod, 1);
    order::lemma_plus(half, prod);
    order::lemma_rounded_exact(half, 1);
    order::lemma_rounded_grows(half.value(), 1, half.value() + prod.value(), 1);
    order::lemma_times(rate, trust);
    order::lemma_rounded_exact(Binary64::zero(), u);
    if t == 0 {
        assert(rate.value() * t == 0) by (nonlinear_arith)
            requires
                t == 0,
        ;
    }
}

proof fn lemma_chance_of_failure(trust: Binary64) -> (q: Binary64)
    requires
        trust.finite(),
        0 <= trust.value() <= binary64::one_unit(),
    ensures
        ({
            let u = binary64::one_unit();
            let t = trust.value();
            &&& q == Binary64::one().minus(redundancy::success_chance(trust))
            &&& q.finite()
            &&& 0 <= 2 * q.value() <= u
            &&& t == 0 ==> 2 * q.value() == u
            &&& -(100 * u) <= (100 * q.value() - (50 * u - 49 * t)) * 0x4_0000_0000_0000 <= 100 * u
        }),
{
    let one = Binary64::one();
    let u = binary64::one_unit();
    let p = redundancy::success_chance(trust);
    let q = one.minus(p);
    let half = Binary64::fraction(1, 2);
    lemma_chance_of_success(trust);
    accuracy::lemma_grain();
    order::lemma_constants();
    lemma2_to64();
    order::lemma_dyadic(1, 1);
    accuracy::lemma_minus_close(one, p, 0);
    order::lemma_negated(p);
    order::lemma_plus(one, p.negated());
    order::lemma_rounded_exact(half, 1);
    order::lemma_rounded_exact(Binary64::zero(), 1);
    order::lemma_rounded_grows(u - p.value(), 1, half.value(), 1);
    order::lemma_rounded_grows(0, 1, u - p.value(), 1);
    q
}

/// The fewest replicas are placed with which the chance that not all of them fail reaches the target,
/// sixteen at most, or as many as were asked for where those are more. Each of them fails with a chance
/// of one half less 0.49 times the trust, within one part in 2^50.
pub proof fn lemma_fewest_replicas_that_reach_the_target(
    trust: Binary64,
    pool_size: nat,
    spec: JobSpecView,
    target: Binary64,
    m: spec_fn(Elementary, Binary64) -> Binary64,
) -> (r: (u32, Binary64))
    requires
        spec.redundancy == Some(Redundancy::Confidence(target)),
        target.finite(),
        0 < target.value() < binary64::one_unit(),
        trust.finite(),
        0 <= trust.value() <= binary64::one_unit(),
        pool_size >= 16,
    ensures
        ({
            let (n, q) = r;
            let u = binary64::one_unit();
            let asked = match spec.k {
                Some(k) => if k > 0 { k as int } else { 1 },
                None => 1,
            };
            &&& 1 <= n <= 16
            &&& redundancy::replicas(trust, pool_size, spec, m) == if n > asked { n as int } else { asked }
            &&& q.finite()
            &&& 0 <= 2 * q.value() <= u
            &&& trust.value() == 0 ==> 2 * q.value() == u
            &&& -(100 * u) <= (100 * q.value() - (50 * u - 49 * trust.value())) * 0x4_0000_0000_0000 <= 100 * u
            &&& n < 16 ==> !Binary64::one().minus(m(Elementary::Power(n), q)).less(target)
            &&& forall|k: u32|
                1 <= k < n ==> Binary64::one().minus(#[trigger] m(Elementary::Power(k), q)).less(target)
        }),
{
    order::lemma_constants();
    let q = lemma_chance_of_failure(trust);
    redundancy::lemma_confidence_is_met(trust, pool_size, spec, target, m);
    let n = redundancy::enough(1, trust, target, m);
    redundancy::lemma_enough(1, trust, target, m);
    assert forall|k: u32| 1 <= k < n implies Binary64::one().minus(#[trigger] m(Elementary::Power(k), q)).less(target) by {
        assert(redundancy::falls_short(k, trust, target, m));
    }
    (n, q)
}

/// Powers of one half, exactly.
pub open spec fn halves_exactly(m: spec_fn(Elementary, Binary64) -> Binary64) -> bool {
    forall|n: u32, x: Binary64|
        1 <= n <= 16 && x.finite() && 2 * x.value() == binary64::one_unit() ==> (#[trigger] m(
            Elementary::Power(n),
            x,
        )).finite() && m(Elementary::Power(n), x).value() * pow2(n as nat) == binary64::one_unit()
}

/// With exact powers, a pool that nothing is known of gets the fewest replicas with which
/// `1 - 2^-n` reaches the target, sixteen at most, or as many as were asked for where those are more.
pub proof fn lemma_untrusted_replicas(
    trust: Binary64,
    pool_size: nat,
    spec: JobSpecView,
    target: Binary64,
    m: spec_fn(Elementary, Binary64) -> Binary64,
) -> (n: u32)
    requires
        halves_exactly(m),
        spec.redundancy == Some(Redundancy::Confidence(target)),
        target.finite(),
        0 < target.value() < binary64::one_unit(),
        trust.finite(),
        trust.value() == 0,
        pool_size >= 16,
    ensures
        1 <= n <= 16,
        redundancy::replicas(trust, pool_size, spec, m) == {
            let asked = match spec.k {
                Some(k) => if k > 0 { k as int } else { 1 },
                None => 1,
            };
            if n > asked {
                n as int
            } else {
                asked
            }
        },
        n < 16 ==> (pow2(n as nat) - 1) * binary64::one_unit() >= pow2(n as nat) * target.value(),
        forall|k: u32|
            1 <= k < n ==> (#[trigger] pow2(k as nat) - 1) * binary64::one_unit() < pow2(k as nat) * target.value(),
{
    order::lemma_constants();
    let (n, q) = lemma_fewest_replicas_that_reach_the_target(trust, pool_size, spec, target, m);
    if n < 16 {
        lemma_left_of_halves(n, q, target, m);
    }
    assert forall|k: u32| 1 <= k < n implies (#[trigger] pow2(k as nat) - 1) * binary64::one_unit() < pow2(k as nat)
        * target.value() by {
        lemma_left_of_halves(k, q, target, m);
        assert(Binary64::one().minus(m(Elementary::Power(k), q)).less(target));
    }
    n
}

proof fn lemma_left_of_halves(n: u32, q: Binary64, target: Binary64, m: spec_fn(Elementary, Binary64) -> Binary64)
    requires
        halves_exactly(m),
        1 <= n <= 16,
        q.finite(),
        2 * q.value() == binary64::one_unit(),
        target.finite(),
    ensures
        Binary64::one().minus(m(Elementary::Power(n), q)).less(target) <==> (pow2(n as nat) - 1)
            * binary64::one_unit() < pow2(n as nat) * target.value(),
{
    let u = binary64::one_unit();
    let d = pow2(n as nat) as int;
    let x = m(Elementary::Power(n), q);
    let one = Binary64::one();
    order::lemma_constants();
    lemma_pow2_pos(n as nat);
    lemma2_to64();
    if n < 16 {
        lemma_pow2_strictly_increases(n as nat, 16);
    }
    let exact = Binary64::fraction(d - 1, d);
    order::lemma_dyadic(d - 1, n as nat);
    order::lemma_negated(x);
    order::lemma_plus(one, x.negated());
    assert(exact.value() == u - x.value()) by (nonlinear_arith)
        requires
            exact.value() * d == (d - 1) * u,
            x.value() * d == u,
            d > 0,
    ;
    order::lemma_rounded_exact(exact, 1);
    let r = one.minus(x);
    assert(r.value() == exact.value());
    assert(exact.value() < target.value() <==> exact.value() * d < target.value() * d) by (nonlinear_arith)
        requires
            d > 0,
    ;
    assert(target.value() * d == d * target.value()) by (nonlinear_arith);
}

/// Without a policy, and with the single one, as many hosts are placed as the job names, and one where
/// it names none or zero. Verification takes two from a trust of 0.6 on, within one part in 2^53, and
/// three below, unless more were asked for. No policy goes beyond the pool.
pub proof fn lemma_policies_in_numbers(
    trust: Binary64,
    pool_size: nat,
    spec: JobSpecView,
    m: spec_fn(Elementary, Binary64) -> Binary64,
)
    requires
        trust.finite(),
        0 <= trust.value() <= binary64::one_unit(),
        pool_size <= u32::MAX,
    ensures
        ({
            let r = redundancy::replicas(trust, pool_size, spec, m);
            let u = binary64::one_unit();
            let asked = match spec.k {
                Some(k) => if k > 0 { k as int } else { 1 },
                None => 1,
            };
            &&& asked <= r
            &&& r > asked ==> pool_size == 0 || r <= pool_size
            &&& match spec.redundancy {
                None => r == asked,
                Some(Redundancy::Policy(RedundancyPolicy::Verify)) => pool_size >= 3 ==> {
                    &&& (10 * trust.value() - 6 * u) * 0x20_0000_0000_0000 >= 10 * u ==> r == if asked > 2 { asked } else { 2 }
                    &&& (6 * u - 10 * trust.value()) * 0x20_0000_0000_0000 > 10 * u ==> r == if asked > 3 { asked } else { 3 }
                },
                Some(Redundancy::Policy(_)) => r == asked,
                Some(Redundancy::Confidence(target)) => {
                    &&& !target.finite() || target.value() <= 0 || target.value() >= u ==> r == asked
                    &&& r <= 16 || r == asked
                },
            }
        }),
{
    order::lemma_constants();
    accuracy::lemma_grain();
    accuracy::lemma_proper_fraction(6, 10);
    redundancy::lemma_replicas_bounded(trust, pool_size, spec, m);
    match spec.redundancy {
        Some(Redundancy::Confidence(target)) => {
            redundancy::lemma_enough(1, trust, target, m);
        },
        _ => {},
    }
}

// ---- trust ----

/// The trust that decides the count, of one host: the logarithm of its delivered work, jobs and heartbeats
/// together, over that of the saturation count, 50 unless the job names a positive one, at most one; 0.05
/// for a host with a profile and no history, and nothing for one with neither or without work.
pub proof fn lemma_trust_of_one_host(
    c: CandidateView,
    spec: JobSpecView,
    m: spec_fn(Elementary, Binary64) -> Binary64,
    saturation: Binary64,
)
    requires
        match spec.trust_saturation {
            Some(v) => if v.finite() && v.value() > 0 {
                saturation == v
            } else {
                saturation.value() == 50 * binary64::one_unit()
            },
            None => saturation.value() == 50 * binary64::one_unit(),
        },
    ensures
        ({
            let u = binary64::one_unit();
            let t = redundancy::coarse_trust(c, spec, m);
            &&& t.finite()
            &&& 0 <= t.value() <= u
            &&& match c.history {
                Some(h) => {
                    let work = h.jobs_hosted + h.heartbeats_hosted;
                    let d = m(Elementary::LnOnePlus, Binary64::fraction(work, 1));
                    let s = m(Elementary::LnOnePlus, saturation);
                    &&& work == 0 ==> t.value() == 0
                    &&& work > 0 && d.finite() && s.finite() && 0 <= d.value() <= s.value() && s.value() > 0 ==> -(u
                        * s.value()) <= (t.value() * s.value() - d.value() * u) * 0x20_0000_0000_0000 <= u * s.value()
                    &&& work > 0 && d.finite() && s.finite() && 0 < s.value() <= d.value() ==> t.value() == u
                },
                None => {
                    &&& c.profile is Some ==> -(100 * u) <= (100 * t.value() - 5 * u) * 0x20_0000_0000_0000 <= 100 * u
                    &&& c.profile is None ==> t.value() == 0
                },
            }
        }),
{
    let u = binary64::one_unit();
    order::lemma_constants();
    order::lemma_whole_number(50);
    accuracy::lemma_grain();
    accuracy::lemma_proper_fraction(5, 100);
    if saturation.value() == 50 * binary64::one_unit() {
        order::lemma_same_value(saturation, Binary64::fraction(50, 1));
    }
    match c.history {
        Some(h) => {
            let work = h.jobs_hosted + h.heartbeats_hosted;
            let d = m(Elementary::LnOnePlus, Binary64::fraction(work, 1));
            let s = m(Elementary::LnOnePlus, saturation);
            let q = d.over(s);
            order::lemma_clamped(q);
            if d.finite() && s.finite() && 0 <= d.value() && s.value() > 0 {
                let k = s.value();
                if d.value() <= k {
                    assert(d.value() * u <= u * k) by (nonlinear_arith)
                        requires
                            d.value() <= k,
                            u > 0,
                    ;
                    accuracy::lemma_over_close(d, s, 0);
                    assert(u * k == 0x20_0000_0000_0000 * (grain() * k)) by (nonlinear_arith)
                        requires
                            u == 0x20_0000_0000_0000 * grain(),
                    ;
                }
                if d.value() >= k {
                    bounds::lemma_over_size(d, s);
                    order::lemma_rounded_exact(Binary64::one(), k);
                    assert((u * k) * k <= (d.value() * u) * k) by (nonlinear_arith)
                        requires
                            d.value() >= k,
                            k > 0,
                            u > 0,
                    ;
                    order::lemma_rounded_grows(u * k, k, d.value() * u, k);
                }
            }
        },
        None => {},
    }
}

/// The trust that decides the count of a pool is that of its most trusted host, and nothing for an empty
/// pool.
pub proof fn lemma_trust_of_a_pool(
    pool: Seq<CandidateView>,
    spec: JobSpecView,
    m: spec_fn(Elementary, Binary64) -> Binary64,
) -> (best: Binary64)
    ensures
        redundancy::effective_count(pool, spec, m) == redundancy::replicas(best, pool.len(), spec, m),
        best.finite(),
        pool.len() == 0 ==> best.value() == 0,
        pool.len() > 0 ==> exists|i: int|
            0 <= i < pool.len() && redundancy::coarse_trust(#[trigger] pool[i], spec, m).value() == best.value(),
        forall|i: int|
            0 <= i < pool.len() ==> redundancy::coarse_trust(#[trigger] pool[i], spec, m).value() <= best.value(),
{
    let best = redundancy::best_trust(pool, spec, m);
    order::lemma_constants();
    redundancy::lemma_best_trust(pool, spec, m);
    order::lemma_finite_bounds(best);
    order::lemma_finite_bounds(Binary64::one());
    lemma_best_is_held(pool, spec, m);
    best
}

proof fn lemma_best_is_held(
    pool: Seq<CandidateView>,
    spec: JobSpecView,
    m: spec_fn(Elementary, Binary64) -> Binary64,
)
    ensures
        pool.len() > 0 ==> exists|i: int|
            0 <= i < pool.len() && redundancy::coarse_trust(#[trigger] pool[i], spec, m).value() == redundancy::best_trust(
                pool,
                spec,
                m,
            ).value(),
        pool.len() == 0 ==> redundancy::best_trust(pool, spec, m).value() == 0,
    decreases pool.len(),
{
    order::lemma_constants();
    if pool.len() > 0 {
        let rest = pool.drop_last();
        let n = pool.len() - 1;
        lemma_best_is_held(rest, spec, m);
        redundancy::lemma_best_trust(pool, spec, m);
        redundancy::lemma_best_trust(rest, spec, m);
        let best = redundancy::best_trust(rest, spec, m);
        let last = redundancy::coarse_trust(pool[n], spec, m);
        assert(last.at_most(redundancy::best_trust(pool, spec, m)));
        if best.less(last) || rest.len() == 0 {
            assert(redundancy::coarse_trust(pool[n], spec, m).value() == redundancy::best_trust(pool, spec, m).value())
                by {
                if !best.less(last) {
                    lemma_not_negative(pool[n], spec, m);
                }
            }
        } else {
            let i = choose|i: int|
                0 <= i < rest.len() && redundancy::coarse_trust(#[trigger] rest[i], spec, m).value() == best.value();
            assert(rest[i] == pool[i]);
        }
    }
}

proof fn lemma_not_negative(c: CandidateView, spec: JobSpecView, m: spec_fn(Elementary, Binary64) -> Binary64)
    ensures
        redundancy::coarse_trust(c, spec, m).value() >= 0,
{
    order::lemma_constants();
    accuracy::lemma_proper_fraction(5, 100);
    match c.history {
        Some(h) => {
            order::lemma_clamped(
                m(Elementary::LnOnePlus, Binary64::fraction(h.delivered(), 1)).over(
                    m(Elementary::LnOnePlus, crate::scorer::positive_or(spec.trust_saturation, Binary64::fraction(50, 1))),
                ),
            );
        },
        None => {},
    }
}

} // verus!
