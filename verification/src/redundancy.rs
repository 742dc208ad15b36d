//! How many hosts a job needs.

use crate::api::{JobSpec, JobSpecView, Redundancy, RedundancyPolicy};
use crate::binary64::Binary64;
use crate::candidate::{self, Candidate, CandidateView};
use crate::elementary::{self, Elementary};
use crate::order;
use crate::scorer;
use vstd::prelude::*;

verus! {

/// The host count that was asked for, at least one.
pub open spec fn requested(spec: JobSpecView) -> u32 {
    match spec.k {
        Some(k) => if k > 0 { k } else { 1 },
        None => 1,
    }
}

pub(crate) fn spec_k(spec: &JobSpec) -> (r: u32)
    ensures
        r == requested(spec@),
{
    match spec.k {
        Some(k) => if k > 0 { k } else { 1 },
        None => 1,
    }
}

/// The redundancy that a job asks for.
pub open spec fn policy(spec: JobSpecView) -> Redundancy {
    match spec.redundancy {
        Some(r) => r,
        None => Redundancy::Policy(RedundancyPolicy::Single),
    }
}

/// Replicas are to be verified against each other.
pub open spec fn verifies(spec: JobSpecView) -> bool {
    policy(spec) == Redundancy::Policy(RedundancyPolicy::Verify)
}

pub(crate) fn is_verify(spec: &JobSpec) -> (r: bool)
    ensures
        r == verifies(spec@),
{
    match spec.redundancy {
        Some(Redundancy::Policy(RedundancyPolicy::Verify)) => true,
        _ => false,
    }
}

/// A coarse trust estimate in `[0, 1]`, which only decides the replica count: the delivered work on
/// a log-saturating curve; little for a profile without history, nothing without either.
pub open spec fn coarse_trust(
    c: CandidateView,
    spec: JobSpecView,
    m: spec_fn(Elementary, Binary64) -> Binary64,
) -> Binary64 {
    match c.history {
        Some(h) => if h.delivered() <= 0 {
            Binary64::zero()
        } else {
            m(Elementary::LnOnePlus, Binary64::fraction(h.delivered(), 1)).over(
                m(Elementary::LnOnePlus, scorer::positive_or(spec.trust_saturation, Binary64::fraction(50, 1))),
            ).clamped()
        },
        None => if c.profile is Some { Binary64::fraction(5, 100) } else { Binary64::zero() },
    }
}

/// The best coarse trust in a pool.
pub open spec fn best_trust(
    pool: Seq<CandidateView>,
    spec: JobSpecView,
    m: spec_fn(Elementary, Binary64) -> Binary64,
) -> Binary64
    decreases pool.len(),
{
    if pool.len() == 0 {
        Binary64::zero()
    } else {
        best_trust(pool.drop_last(), spec, m).greater_of(coarse_trust(pool.last(), spec, m))
    }
}

/// The chance that a host delivers: a coin flip without trust, nearly certain with full trust.
pub open spec fn success_chance(trust: Binary64) -> Binary64 {
    Binary64::fraction(1, 2).plus(Binary64::fraction(49, 100).times(trust)).lesser_of(Binary64::fraction(99, 100))
}

/// `n` replicas fall short of the target confidence.
pub open spec fn falls_short(
    n: u32,
    trust: Binary64,
    target: Binary64,
    m: spec_fn(Elementary, Binary64) -> Binary64,
) -> bool {
    Binary64::one().minus(m(Elementary::Power(n), Binary64::one().minus(success_chance(trust)))).less(target)
}

/// The fewest replicas from `n` on that do not fall short, at most 16.
pub open spec fn enough(
    n: u32,
    trust: Binary64,
    target: Binary64,
    m: spec_fn(Elementary, Binary64) -> Binary64,
) -> u32
    decreases 16 - n,
{
    if n < 16 && falls_short(n, trust, target, m) {
        enough((n + 1) as u32, trust, target, m)
    } else {
        n
    }
}

/// A confidence that can be aimed for.
pub open spec fn proper(target: Binary64) -> bool {
    target.positive() && target.less(Binary64::one())
}

/// The replicas that the redundancy policy asks for, given the best trust in the pool.
pub open spec fn replication(
    trust: Binary64,
    spec: JobSpecView,
    m: spec_fn(Elementary, Binary64) -> Binary64,
) -> u32 {
    match policy(spec) {
        Redundancy::Policy(RedundancyPolicy::Verify) => if Binary64::fraction(6, 10).at_most(trust) { 2 } else { 3 },
        Redundancy::Confidence(target) => if proper(target) {
            enough(1, trust, target, m)
        } else {
            requested(spec)
        },
        _ => requested(spec),
    }
}

/// The replicas to place: at least what was asked for, more where the policy wants more, but then
/// not more than the pool holds.
pub open spec fn replicas(
    trust: Binary64,
    pool_size: nat,
    spec: JobSpecView,
    m: spec_fn(Elementary, Binary64) -> Binary64,
) -> int {
    let base = requested(spec) as int;
    let wanted = replication(trust, spec, m) as int;
    let effective = if wanted > base { wanted } else { base };
    let most = if pool_size > base { pool_size as int } else { base };
    if pool_size > 0 && effective > most {
        most
    } else {
        effective
    }
}

/// The replicas to place from a pool.
pub open spec fn effective_count(
    pool: Seq<CandidateView>,
    spec: JobSpecView,
    m: spec_fn(Elementary, Binary64) -> Binary64,
) -> int {
    replicas(best_trust(pool, spec, m), pool.len(), spec, m)
}

/// Coarse trust from the logarithms of one plus the delivered work and of one plus the saturation
/// count.
fn find_coarse_trust<M: Fn(Elementary, Binary64) -> Binary64>(c: &Candidate, spec: &JobSpec, math: &M) -> (r: Binary64)
    requires
        elementary::steady(*math),
        c@.countable(),
    ensures
        r == coarse_trust(c@, spec@, elementary::answers(*math)),
{
    match &c.history {
        Some(h) => {
            let delivered: u64 = h.jobs_hosted + h.heartbeats_hosted;
            if delivered == 0 {
                return Binary64 { bits: 0 };
            }
            let sat = scorer::pos_or(spec.trust_saturation, Binary64::from_u64(50));
            let ln_delivered = elementary::ask(math, Elementary::LnOnePlus, Binary64::from_u64(delivered));
            let ln_saturation = elementary::ask(math, Elementary::LnOnePlus, sat);
            scorer::clamp01(ln_delivered.div(ln_saturation))
        },
        None => {
            if c.profile.is_some() {
                Binary64::ratio(5, 100)
            } else {
                Binary64 { bits: 0 }
            }
        },
    }
}

/// The replicas to place, given the best trust in the pool and its size.
pub fn redundancy_given_trust<M: Fn(Elementary, Binary64) -> Binary64>(
    trust: Binary64,
    pool_size: u32,
    spec: &JobSpec,
    math: &M,
) -> (r: u32)
    requires
        elementary::steady(*math),
    ensures
        r == replicas(trust, pool_size as nat, spec@, elementary::answers(*math)),
{
    let base: u32 = spec_k(spec);
    let one = Binary64 { bits: 0x3ff0_0000_0000_0000 };
    let wanted: u32 = match spec.redundancy {
        Some(Redundancy::Policy(RedundancyPolicy::Verify)) => {
            if Binary64::ratio(6, 10).le(trust) {
                2
            } else {
                3
            }
        },
        Some(Redundancy::Confidence(target)) => {
            if scorer::is_positive(target) && target.lt(one) {
                let p = Binary64::ratio(1, 2).add(Binary64::ratio(49, 100).mul(trust)).min(Binary64::ratio(99, 100));
                let mut n: u32 = 1;
                while n < 16 && one.sub(elementary::ask(math, Elementary::Power(n), one.sub(p))).lt(target)
                    invariant
                        1 <= n <= 16,
                        elementary::steady(*math),
                        one == Binary64::one(),
                        p == success_chance(trust),
                        enough(1, trust, target, elementary::answers(*math)) == enough(
                            n,
                            trust,
                            target,
                            elementary::answers(*math),
                        ),
                    decreases 16 - n,
                {
                    n = n + 1;
                }
                n
            } else {
                base
            }
        },
        _ => base,
    };
    let effective: u32 = if wanted > base { wanted } else { base };
    let most: u32 = if pool_size > base { pool_size } else { base };
    if pool_size > 0 && effective > most {
        most
    } else {
        effective
    }
}

/// The replicas to place: the larger of what was asked for and what the redundancy policy needs at
/// the best trust in the pool, bounded by the pool.
pub fn redundancy_for<M: Fn(Elementary, Binary64) -> Binary64>(
    candidates: &[Candidate],
    spec: &JobSpec,
    math: &M,
) -> (r: u32)
    requires
        elementary::steady(*math),
        candidates@.len() <= u32::MAX,
        forall|i: int| 0 <= i < candidates@.len() ==> (#[trigger] candidates@[i])@.countable(),
    ensures
        r == effective_count(candidate::pool_view(candidates@), spec@, elementary::answers(*math)),
{
    let ghost pool = candidate::pool_view(candidates@);
    let ghost m = elementary::answers(*math);
    let mut best = Binary64 { bits: 0 };
    for i in 0..candidates.len()
        invariant
            elementary::steady(*math),
            pool == candidate::pool_view(candidates@),
            m == elementary::answers(*math),
            forall|j: int| 0 <= j < candidates@.len() ==> (#[trigger] candidates@[j])@.countable(),
            best == best_trust(pool.take(i as int), spec@, m),
    {
        proof {
            assert(pool.take(i + 1).drop_last() =~= pool.take(i as int));
            assert(pool.take(i + 1).last() == candidates@[i as int]@);
        }
        best = best.max(find_coarse_trust(&candidates[i], spec, math));
    }
    proof {
        assert(pool.take(candidates.len() as int) =~= pool);
    }
    redundancy_given_trust(best, candidates.len() as u32, spec, math)
}

// ---- laws ----

/// The search ends at the first count that does not fall short, or at sixteen.
pub proof fn lemma_enough(n: u32, trust: Binary64, target: Binary64, m: spec_fn(Elementary, Binary64) -> Binary64)
    requires
        n <= 16,
    ensures
        n <= enough(n, trust, target, m) <= 16,
        enough(n, trust, target, m) < 16 ==> !falls_short(enough(n, trust, target, m), trust, target, m),
        forall|k: u32| n <= k < enough(n, trust, target, m) ==> falls_short(k, trust, target, m),
    decreases 16 - n,
{
    if n < 16 && falls_short(n, trust, target, m) {
        lemma_enough((n + 1) as u32, trust, target, m);
    }
}

/// The replicas to place are at least what was asked for. A policy raises them no further than the
/// pool reaches.
pub proof fn lemma_replicas_bounded(
    trust: Binary64,
    pool_size: nat,
    spec: JobSpecView,
    m: spec_fn(Elementary, Binary64) -> Binary64,
)
    requires
        pool_size <= u32::MAX,
    ensures
        1 <= requested(spec) <= replicas(trust, pool_size, spec, m) <= u32::MAX,
        pool_size > 0 ==> replicas(trust, pool_size, spec, m) <= requested(spec) || replicas(
            trust,
            pool_size,
            spec,
            m,
        ) <= pool_size,
{
    match policy(spec) {
        Redundancy::Confidence(target) => {
            lemma_enough(1, trust, target, m);
        },
        _ => {},
    }
}

/// Without a policy, what was asked for is placed.
pub proof fn lemma_single_places_what_was_asked(
    trust: Binary64,
    pool_size: nat,
    spec: JobSpecView,
    m: spec_fn(Elementary, Binary64) -> Binary64,
)
    requires
        policy(spec) == Redundancy::Policy(RedundancyPolicy::Single),
    ensures
        replicas(trust, pool_size, spec, m) == requested(spec),
{
}

/// Replicas that are to be verified against each other are at least two, where the pool has two;
/// three where it has three and none of them is trusted.
pub proof fn lemma_verification_needs_two(
    trust: Binary64,
    pool_size: nat,
    spec: JobSpecView,
    m: spec_fn(Elementary, Binary64) -> Binary64,
)
    requires
        verifies(spec),
    ensures
        pool_size >= 2 ==> replicas(trust, pool_size, spec, m) >= 2,
        pool_size >= 3 && !Binary64::fraction(6, 10).at_most(trust) ==> replicas(trust, pool_size, spec, m) >= 3,
{
}

/// A confidence is met: unless the bound of sixteen replicas or the pool stands in the way, what is
/// placed does not fall short of it.
pub proof fn lemma_confidence_is_met(
    trust: Binary64,
    pool_size: nat,
    spec: JobSpecView,
    target: Binary64,
    m: spec_fn(Elementary, Binary64) -> Binary64,
)
    requires
        policy(spec) == Redundancy::Confidence(target),
        proper(target),
        pool_size >= 16,
    ensures
        ({
            let n = enough(1, trust, target, m);
            &&& replicas(trust, pool_size, spec, m) == if n > requested(spec) { n as int } else { requested(spec) as int }
            &&& n == 16 || !falls_short(n, trust, target, m)
            &&& forall|k: u32| 1 <= k < n ==> falls_short(k, trust, target, m)
        }),
{
    lemma_enough(1, trust, target, m);
}

/// Powers of numbers in the unit interval are finite and ordered as the numbers are.
pub open spec fn powers_grow(m: spec_fn(Elementary, Binary64) -> Binary64) -> bool {
    forall|n: u32, x: Binary64, y: Binary64|
        Binary64::zero().at_most(x) && x.at_most(y) && y.at_most(Binary64::one()) ==> (#[trigger] m(
            Elementary::Power(n),
            x,
        )).at_most(#[trigger] m(Elementary::Power(n), y)) && m(Elementary::Power(n), x).finite() && m(
            Elementary::Power(n),
            y,
        ).finite()
}

/// The chance of failure is in the unit interval, and the smaller the more a host is trusted.
proof fn lemma_chance(low: Binary64, high: Binary64)
    requires
        Binary64::zero().at_most(low),
        low.at_most(high),
        high.at_most(Binary64::one()),
    ensures
        Binary64::zero().at_most(Binary64::one().minus(success_chance(high))),
        Binary64::one().minus(success_chance(high)).at_most(Binary64::one().minus(success_chance(low))),
        Binary64::one().minus(success_chance(low)).at_most(Binary64::one()),
{
    let one = Binary64::one();
    let half = Binary64::fraction(1, 2);
    let rate = Binary64::fraction(49, 100);
    let most = Binary64::fraction(99, 100);
    order::lemma_constants();
    order::lemma_finite_bounds(low);
    order::lemma_finite_bounds(high);
    order::lemma_finite_bounds(one);
    order::lemma_fraction_at_most_one(1, 2);
    order::lemma_fraction_at_most_one(49, 100);
    order::lemma_fraction_at_most_one(99, 100);
    order::lemma_times_grows(low, high, rate);
    order::lemma_times_shrinks(rate, low);
    order::lemma_times_shrinks(rate, high);
    let a = rate.times(low);
    let b = rate.times(high);
    order::lemma_finite_bounds(a);
    order::lemma_finite_bounds(b);
    order::lemma_plus_grows(a, b, half);
    order::lemma_plus_nonnegative(half, a);
    let x = success_chance(low);
    let y = success_chance(high);
    assert(x.at_most(y) && Binary64::zero().at_most(x) && y.at_most(most));
    order::lemma_finite_bounds(x);
    order::lemma_finite_bounds(y);
    order::lemma_finite_bounds(most);
    order::lemma_negated(x);
    order::lemma_negated(y);
    order::lemma_plus_grows(y.negated(), x.negated(), one);
    order::lemma_plus(one, y.negated());
    order::lemma_plus(one, x.negated());
    order::lemma_rounded_exact(Binary64::zero(), 1);
    order::lemma_rounded_exact(one, 1);
    order::lemma_rounded_grows(0, 1, one.value() - y.value(), 1);
    order::lemma_rounded_grows(one.value() - x.value(), 1, one.value(), 1);
}

proof fn lemma_falls_short(
    n: u32,
    low: Binary64,
    high: Binary64,
    target: Binary64,
    m: spec_fn(Elementary, Binary64) -> Binary64,
)
    requires
        powers_grow(m),
        Binary64::zero().at_most(low),
        low.at_most(high),
        high.at_most(Binary64::one()),
        falls_short(n, high, target, m),
    ensures
        falls_short(n, low, target, m),
{
    let one = Binary64::one();
    lemma_chance(low, high);
    let x = one.minus(success_chance(high));
    let y = one.minus(success_chance(low));
    let p = m(Elementary::Power(n), x);
    let q = m(Elementary::Power(n), y);
    assert(p.at_most(q));
    order::lemma_constants();
    order::lemma_negated(p);
    order::lemma_negated(q);
    order::lemma_plus_grows(q.negated(), p.negated(), one);
}

proof fn lemma_enough_falls(
    n: u32,
    low: Binary64,
    high: Binary64,
    target: Binary64,
    m: spec_fn(Elementary, Binary64) -> Binary64,
)
    requires
        n <= 16,
        powers_grow(m),
        Binary64::zero().at_most(low),
        low.at_most(high),
        high.at_most(Binary64::one()),
    ensures
        enough(n, high, target, m) <= enough(n, low, target, m),
    decreases 16 - n,
{
    lemma_enough(n, low, target, m);
    if n < 16 && falls_short(n, high, target, m) {
        lemma_falls_short(n, low, high, target, m);
        lemma_enough_falls((n + 1) as u32, low, high, target, m);
    }
}

/// A less trusted pool never needs fewer replicas.
pub proof fn lemma_less_trust_needs_no_fewer_replicas(
    low: Binary64,
    high: Binary64,
    pool_size: nat,
    spec: JobSpecView,
    m: spec_fn(Elementary, Binary64) -> Binary64,
)
    requires
        powers_grow(m),
        Binary64::zero().at_most(low),
        low.at_most(high),
        high.at_most(Binary64::one()),
    ensures
        replicas(high, pool_size, spec, m) <= replicas(low, pool_size, spec, m),
{
    match policy(spec) {
        Redundancy::Confidence(target) => {
            if proper(target) {
                lemma_enough_falls(1, low, high, target, m);
            }
        },
        _ => {},
    }
}

/// The best trust in a pool is in the unit interval, and no candidate is trusted more.
pub proof fn lemma_best_trust(
    pool: Seq<CandidateView>,
    spec: JobSpecView,
    m: spec_fn(Elementary, Binary64) -> Binary64,
)
    ensures
        Binary64::zero().at_most(best_trust(pool, spec, m)),
        best_trust(pool, spec, m).at_most(Binary64::one()),
        forall|i: int|
            0 <= i < pool.len() ==> coarse_trust(#[trigger] pool[i], spec, m).at_most(best_trust(pool, spec, m)),
    decreases pool.len(),
{
    order::lemma_constants();
    if pool.len() > 0 {
        let rest = pool.drop_last();
        lemma_best_trust(rest, spec, m);
        let c = pool.last();
        order::lemma_fraction_at_most_one(5, 100);
        match c.history {
            Some(h) => {
                order::lemma_clamped(
                    m(Elementary::LnOnePlus, Binary64::fraction(h.delivered(), 1)).over(
                        m(Elementary::LnOnePlus, scorer::positive_or(spec.trust_saturation, Binary64::fraction(50, 1))),
                    ),
                );
            },
            None => {},
        }
        assert forall|i: int| 0 <= i < pool.len() implies coarse_trust(#[trigger] pool[i], spec, m).at_most(
            best_trust(pool, spec, m),
        ) by {
            if i < rest.len() {
                assert(rest[i] == pool[i]);
            }
        }
    }
}

} // verus!
