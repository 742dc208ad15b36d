//! What each pick of a selection is.

use crate::accuracy::{self, grain};
use crate::api::{Cohort, JobSpecView, Redundancy, RedundancyPolicy, Selection, Weights};
use crate::binary64::{self, Binary64};
use crate::bounds;
use crate::candidate::CandidateView;
use crate::diversity::peers;
use crate::elementary::Elementary;
use crate::guarantees;
use crate::latency::LatencyModel;
use crate::order;
use crate::preferences::in_unit;
use crate::redundancy;
use crate::scorer::{self, StaticScore};
use crate::selection::{self, Progress, Setting};
use crate::vendor::{self, GroupKey};
use vstd::prelude::*;

verus! {

// ---- live scores ----

/// The live score of a host is its score, less the penalty coefficient times its diversity penalty, plus
/// its cohort bonus, within one part in 2^47.
pub proof fn lemma_live_score_in_numbers(set: Setting, chosen: Seq<int>, i: int, o: Weights)
    requires
        set.spec.weights == Some(o),
        o.w_d.finite(),
        0 <= o.w_d.value() <= 4 * binary64::one_unit(),
        chosen.len() <= u32::MAX,
        in_unit(set.scores[i].score),
    ensures
        ({
            let u = binary64::one_unit();
            let members = chosen.map_values(|k: int| set.pool[k]);
            let live = set.live_score(chosen, i);
            let penalty = vendor::penalty(set.pool[i], members, set.spec).value();
            let bonus = selection::cohort_bonus(set.pool[i], members, set.spec, set.graph).value();
            let exact = set.scores[i].score.value() * u - o.w_d.value() * penalty + bonus * u;
            &&& live.finite()
            &&& -(u * u) <= (live.value() * u - exact) * 0x8000_0000_0000 <= u * u
        }),
{
    let u = binary64::one_unit();
    let g = grain();
    let members = set.members(chosen);
    assert(members =~= chosen.map_values(|k: int| set.pool[k]));
    let c = set.pool[i];
    let w = selection::penalty_weight(set.spec);
    order::lemma_constants();
    accuracy::lemma_grain();
    bounds::lemma_unit_doubles(3);
    bounds::lemma_unit_doubles(-50);
    assert(w == o.w_d);
    let p = vendor::penalty(c, members, set.spec);
    let b = selection::cohort_bonus(c, members, set.spec, set.graph);
    selection::lemma_loads(c, members, set.spec);
    let x = vendor::group_load(c, members);
    let y = vendor::recent_load(c, set.spec);
    accuracy::lemma_plus_close(x, y, 1);
    order::lemma_plus(x, y);
    order::lemma_rounded_exact(Binary64::zero(), 1);
    order::lemma_rounded_grows(0, 1, x.value() + y.value(), 1);
    lemma_bonus_bounded(c, members, set.spec, set.graph);
    assert(w.value() * p.value() <= (8 * u) * u) by (nonlinear_arith)
        requires
            0 <= w.value() <= 4 * u,
            0 <= p.value() <= 2 * u,
    ;
    accuracy::lemma_times_close(w, p, 3);
    let q = w.times(p);
    let s = set.scores[i].score;
    accuracy::lemma_minus_close(s, q, 4);
    let d = s.minus(q);
    accuracy::lemma_plus_close(d, b, 4);
    let z = d.plus(b).value();
    let e = z - (s.value() - q.value() + b.value());
    assert(-(32 * g) <= e <= 32 * g);
    let gu = g * u;
    assert(-(32 * gu) <= e * u <= 32 * gu) by (nonlinear_arith)
        requires
            -(32 * g) <= e <= 32 * g,
            gu == g * u,
            u > 0,
    ;
    assert(e * u == z * u - s.value() * u + q.value() * u - b.value() * u) by (nonlinear_arith)
        requires
            e == z - (s.value() - q.value() + b.value()),
    ;
    assert(8 * g * u == 8 * gu && u * u == 0x20_0000_0000_0000 * gu) by (nonlinear_arith)
        requires
            gu == g * u,
            u == 0x20_0000_0000_0000 * g,
    ;
}

proof fn lemma_bonus_bounded(
    c: CandidateView,
    members: Seq<CandidateView>,
    spec: JobSpecView,
    graph: Option<LatencyModel>,
)
    ensures
        selection::cohort_bonus(c, members, spec, graph).finite(),
        0 <= selection::cohort_bonus(c, members, spec, graph).value() <= binary64::one_unit(),
{
    order::lemma_constants();
    accuracy::lemma_proper_fraction(15, 100);
    accuracy::lemma_proper_fraction(5, 100);
    match graph {
        Some(g) => {
            let (sum, n) = selection::cohort_rtt(c, members, g);
            let cap = scorer::positive_or(spec.rtt_soft_cap_ms, Binary64::fraction(250, 1));
            let x = Binary64::one().minus(sum.over(Binary64::fraction(n, 1)).over(cap));
            order::lemma_clamped(x);
            accuracy::lemma_share_of(Binary64::fraction(15, 100), x.clamped());
        },
        None => {},
    }
}

// ---- admission ----

/// A host may be picked where no pick has its id and no cap in force keeps it out: at most as many hosts
/// of one group as the cap says, counted with the host itself. The region cap is off from level 1 on and
/// for a co-located cohort, the network cap from level 2 on, the operator cap at level 3; the cluster cap
/// never is, nor, for replicas that are verified against each other, that their operators differ.
pub proof fn lemma_admission_is_counted(set: Setting, chosen: Seq<int>, level: int, i: int)
    requires
        set.pool[i].groups is Some,
    ensures
        ({
            let g = set.pool[i].groups->0;
            let members = chosen.map_values(|k: int| set.pool[k]);
            let cap = set.cap();
            let over = |key: GroupKey| peers(g, members, key) + 1 > cap;
            let verify = set.spec.redundancy == Some(Redundancy::Policy(RedundancyPolicy::Verify));
            let named = g.region.len() < 3 || g.region.take(3) != "r?:"@;
            set.admits(chosen, level, i) <==> {
                &&& forall|j: int|
                    0 <= j < chosen.len() ==> set.pool[#[trigger] chosen[j]].node_id != set.pool[i].node_id
                &&& verify ==> peers(g, members, GroupKey::Operator) == 0
                &&& level < 3 || verify ==> !over(GroupKey::Operator)
                &&& level < 2 && g.asn != "unknown"@ ==> !over(GroupKey::Asn)
                &&& level < 1 && named && set.spec.cohort != Some(Cohort::Colocate) ==> !over(GroupKey::Region)
                &&& !over(GroupKey::Cluster)
            }
        }),
{
    let g = set.pool[i].groups->0;
    let c = set.pool[i];
    let members = set.members(chosen);
    assert(members =~= chosen.map_values(|k: int| set.pool[k]));
    reveal_strlit("r?:");
    crate::diversity::lemma_sharing_is_a_count(c, members, g, GroupKey::Operator);
    crate::diversity::lemma_sharing_is_a_count(c, members, g, GroupKey::Asn);
    crate::diversity::lemma_sharing_is_a_count(c, members, g, GroupKey::Region);
    crate::diversity::lemma_sharing_is_a_count(c, members, g, GroupKey::Cluster);
    let loose = selection::loose_at(level, set.spec);
    assert(loose.contains(GroupKey::Operator) == selection::loosened(level, GroupKey::Operator, set.spec));
    assert(loose.contains(GroupKey::Asn) == selection::loosened(level, GroupKey::Asn, set.spec));
    assert(loose.contains(GroupKey::Region) == selection::loosened(level, GroupKey::Region, set.spec));
    assert(loose.contains(GroupKey::Cluster) == selection::loosened(level, GroupKey::Cluster, set.spec));
    assert(set.taken(chosen, c.node_id) <==> !(forall|j: int|
        0 <= j < chosen.len() ==> set.pool[#[trigger] chosen[j]].node_id != c.node_id)) by {
        if !set.taken(chosen, c.node_id) {
            assert forall|j: int| 0 <= j < chosen.len() implies set.pool[#[trigger] chosen[j]].node_id != c.node_id by {}
        }
    }
}

// ---- picks ----

/// A pick after others: at the strictest level that admits anything, it is the host with the highest live
/// score, or one whose live score is within the tie window of it.
pub open spec fn near_best(set: Setting, before: Seq<int>, i: int) -> bool {
    exists|level: int, best: int|
        {
            &&& 0 <= level <= 3
            &&& 0 <= best < set.pool.len()
            &&& #[trigger] set.admits(before, level, best)
            &&& set.admits(before, level, i)
            &&& forall|k: int, j: int| 0 <= k < level && 0 <= j < set.pool.len() ==> !#[trigger] set.admits(before, k, j)
            &&& forall|j: int|
                0 <= j < set.pool.len() && #[trigger] set.admits(before, level, j) ==> set.live_score(before, j).value()
                    <= set.live_score(before, best).value()
            &&& i == best || set.live_score(before, best).minus(set.live_score(before, i)).at_most(
                match set.spec.tie_eps {
                    Some(e) => if e.finite() { e } else { Binary64::fraction(2, 100) },
                    None => Binary64::fraction(2, 100),
                },
            )
        }
}

spec fn steps(set: Setting, chosen: Seq<int>) -> bool {
    forall|r: int| 0 <= r < chosen.len() ==> near_best(set, chosen.take(r), #[trigger] chosen[r])
}

proof fn lemma_steps(set: Setting, p: Progress)
    requires
        set.pool.len() <= u32::MAX,
        guarantees::sound(set, p),
        steps(set, p.chosen),
        set.spec.selection != Some(Selection::Weighted),
    ensures
        steps(set, set.run(p).chosen),
    decreases set.count - p.chosen.len(),
{
    if set.unfinished(p) {
        let held = set.noted(p.chosen, p.held, set.pool.len());
        guarantees::lemma_level_from(set, p.chosen, 0);
        match set.level_from(p.chosen, 0) {
            Some(level) => {
                let (i, rand) = set.pick(set.ranked(p.chosen, level), p.rand);
                guarantees::lemma_pick_is_admitted(set, p.chosen, level, p.rand);
                let best = guarantees::lemma_pick_is_near_best(set, p.chosen, level, p.rand);
                let after = held.remove(set.pool[i].node_id);
                let next = Progress {
                    chosen: p.chosen.push(i),
                    rand,
                    loosest: if level > p.loosest { level } else { p.loosest },
                    held: after,
                };
                assert(guarantees::sound(set, next)) by {
                    guarantees::lemma_push_is_sound(set, p, level, i, rand, after);
                }
                assert forall|k: int, j: int| 0 <= k < level && 0 <= j < set.pool.len() implies !#[trigger] set.admits(
                    p.chosen,
                    k,
                    j,
                ) by {
                    if set.admits(p.chosen, k, j) {
                        guarantees::lemma_live_complete(set, p.chosen, k, set.pool.len(), j);
                        assert(set.live(p.chosen, k, set.pool.len()).len() == 0);
                    }
                }
                assert(set.admits(p.chosen, level, best));
                assert(near_best(set, p.chosen, i));
                assert forall|r: int| 0 <= r < next.chosen.len() implies near_best(
                    set,
                    next.chosen.take(r),
                    #[trigger] next.chosen[r],
                ) by {
                    if r < p.chosen.len() {
                        assert(next.chosen.take(r) =~= p.chosen.take(r));
                        assert(next.chosen[r] == p.chosen[r]);
                    } else {
                        assert(next.chosen.take(r) =~= p.chosen);
                    }
                }
                lemma_steps(set, next);
            },
            None => {},
        }
    }
}

/// Every target is a candidate of the pool, reported with its own figures, and near the best of what could
/// be picked after the targets before it.
pub proof fn lemma_every_pick_is_near_the_best(
    pool: Seq<CandidateView>,
    spec: JobSpecView,
    graph: Option<LatencyModel>,
    seed: u32,
    scores: Seq<StaticScore>,
    m: spec_fn(Elementary, Binary64) -> Binary64,
) -> (chosen: Seq<int>)
    requires
        pool.len() <= u32::MAX,
        spec.selection != Some(Selection::Weighted),
    ensures
        ({
            let o = selection::selected(pool, spec, graph, seed, scores, m);
            let set = Setting { pool, spec, graph, scores, count: o.effective_k as int, m };
            &&& chosen.len() == o.targets.len()
            &&& forall|r: int|
                0 <= r < chosen.len() ==> {
                    let i = #[trigger] chosen[r];
                    let t = o.targets[r];
                    &&& 0 <= i < pool.len()
                    &&& t.node_id == pool[i].node_id
                    &&& t.rtt_ms == pool[i].rtt_ms
                    &&& t.score == scores[i].score
                    &&& t.bench_fit == scores[i].parts.bench_fit
                    &&& t.trust == scores[i].parts.trust
                    &&& pool[i].groups is Some ==> t.groups == pool[i].groups->0
                    &&& t.replica == r
                    &&& near_best(set, chosen.take(r), i)
                }
        }),
{
    let (set, p) = guarantees::ended(pool, spec, graph, seed, scores, m);
    let o = selection::selected(pool, spec, graph, seed, scores, m);
    let start = set.start(seed);
    guarantees::lemma_placed_and_missing_add_up(pool, spec, graph, seed, scores, m);
    redundancy::lemma_replicas_bounded(redundancy::best_trust(pool, spec, m), pool.len(), spec, m);
    assert(guarantees::sound(set, start));
    guarantees::lemma_run(set, start);
    lemma_steps(set, start);
    assert(set == (Setting { pool, spec, graph, scores, count: o.effective_k as int, m }));
    p.chosen
}

// ---- relaxations ----

/// After some of the picks nothing could be picked below a level.
pub open spec fn stuck(set: Setting, chosen: Seq<int>, r: int, level: int) -> bool {
    &&& 0 <= r < chosen.len()
    &&& forall|k: int, j: int|
        0 <= k < level && 0 <= j < set.pool.len() ==> !#[trigger] set.admits(chosen.take(r), k, j)
}

proof fn lemma_stuck(set: Setting, p: Progress)
    requires
        set.pool.len() <= u32::MAX,
        guarantees::sound(set, p),
        p.loosest > 0 ==> exists|r: int| stuck(set, p.chosen, r, p.loosest),
    ensures
        set.run(p).loosest > 0 ==> exists|r: int| stuck(set, set.run(p).chosen, r, set.run(p).loosest),
    decreases set.count - p.chosen.len(),
{
    if set.unfinished(p) {
        let held = set.noted(p.chosen, p.held, set.pool.len());
        guarantees::lemma_level_from(set, p.chosen, 0);
        match set.level_from(p.chosen, 0) {
            Some(level) => {
                let (i, rand) = set.pick(set.ranked(p.chosen, level), p.rand);
                guarantees::lemma_pick_is_admitted(set, p.chosen, level, p.rand);
                let after = held.remove(set.pool[i].node_id);
                guarantees::lemma_push_is_sound(set, p, level, i, rand, after);
                let next = Progress {
                    chosen: p.chosen.push(i),
                    rand,
                    loosest: if level > p.loosest { level } else { p.loosest },
                    held: after,
                };
                if level > p.loosest {
                    let r = p.chosen.len() as int;
                    assert(next.chosen.take(r) =~= p.chosen);
                    assert forall|k: int, j: int| 0 <= k < level && 0 <= j < set.pool.len() implies !#[trigger] set.admits(
                        next.chosen.take(r),
                        k,
                        j,
                    ) by {
                        if set.admits(p.chosen, k, j) {
                            guarantees::lemma_live_complete(set, p.chosen, k, set.pool.len(), j);
                            assert(set.live(p.chosen, k, set.pool.len()).len() == 0);
                        }
                    }
                    assert(stuck(set, next.chosen, r, level));
                } else if p.loosest > 0 {
                    let r = choose|r: int| stuck(set, p.chosen, r, p.loosest);
                    assert(next.chosen.take(r) =~= p.chosen.take(r));
                    assert(stuck(set, next.chosen, r, p.loosest));
                }
                lemma_stuck(set, next);
                assert(set.run(p) == set.run(next));
            },
            None => {
                assert(set.run(p) == (Progress { held, ..p }));
                assert(set.run(p).chosen == p.chosen && set.run(p).loosest == p.loosest);
            },
        }
    } else {
        assert(set.run(p) == p);
    }
}

/// No cap is reported as loosened without need: where caps are, there was a point after some of the picks
/// at which nothing could be picked with one cap less loosened.
pub proof fn lemma_no_needless_relaxation(
    pool: Seq<CandidateView>,
    spec: JobSpecView,
    graph: Option<LatencyModel>,
    seed: u32,
    scores: Seq<StaticScore>,
    m: spec_fn(Elementary, Binary64) -> Binary64,
) -> (chosen: Seq<int>)
    requires
        pool.len() <= u32::MAX,
    ensures
        ({
            let o = selection::selected(pool, spec, graph, seed, scores, m);
            let set = Setting { pool, spec, graph, scores, count: o.effective_k as int, m };
            &&& chosen.len() == o.targets.len()
            &&& forall|r: int|
                0 <= r < chosen.len() ==> 0 <= #[trigger] chosen[r] < pool.len() && pool[chosen[r]].node_id
                    == o.targets[r].node_id
            &&& o.relaxed.len() > 0 ==> exists|r: int| stuck(set, chosen, r, o.relaxed.len() as int)
        }),
{
    let (set, p) = guarantees::ended(pool, spec, graph, seed, scores, m);
    let o = selection::selected(pool, spec, graph, seed, scores, m);
    let start = set.start(seed);
    guarantees::lemma_placed_and_missing_add_up(pool, spec, graph, seed, scores, m);
    redundancy::lemma_replicas_bounded(redundancy::best_trust(pool, spec, m), pool.len(), spec, m);
    assert(guarantees::sound(set, start));
    guarantees::lemma_run(set, start);
    lemma_stuck(set, start);
    assert(set == (Setting { pool, spec, graph, scores, count: o.effective_k as int, m }));
    if o.relaxed.len() > 0 {
        let r = choose|r: int| stuck(set, p.chosen, r, p.loosest);
        assert(stuck(set, p.chosen, r, o.relaxed.len() as int));
    }
    p.chosen
}

// ---- the first pick ----

proof fn lemma_nothing_chosen(set: Setting, i: int)
    requires
        set.spec.recent_placements is None,
        selection::penalty_weight(set.spec).finite(),
        0 <= selection::penalty_weight(set.spec).value() <= 4 * binary64::one_unit(),
        in_unit(set.scores[i].score),
        0 <= i < set.pool.len(),
    ensures
        set.admits(Seq::empty(), 0, i),
        set.live_score(Seq::empty(), i).finite(),
        set.live_score(Seq::empty(), i).value() == set.scores[i].score.value(),
{
    let none = Seq::<int>::empty();
    let members = set.members(none);
    let c = set.pool[i];
    let s = set.scores[i].score;
    let u = binary64::one_unit();
    assert(members =~= Seq::<CandidateView>::empty());
    order::lemma_constants();
    accuracy::lemma_grain();
    crate::correlation::lemma_cap_is_between(
        set.count as u32,
        match set.spec.max_share {
            Some(x) => x,
            None => Binary64::fraction(34, 100),
        },
    );
    let p = vendor::penalty(c, members, set.spec);
    let zero = Binary64::zero();
    accuracy::lemma_plus_close(zero, zero, 0);
    order::lemma_plus(zero, zero);
    order::lemma_rounded_exact(zero, 1);
    order::lemma_rounded_exact(zero, u);
    let w = selection::penalty_weight(set.spec);
    assert(p.value() == 0);
    assert(w.value() * p.value() == 0) by (nonlinear_arith)
        requires
            p.value() == 0,
    ;
    accuracy::lemma_times_close(w, p, 0);
    order::lemma_times(w, p);
    let q = w.times(p);
    assert(q.value() == 0);
    accuracy::lemma_minus_close(s, q, 0);
    order::lemma_negated(q);
    order::lemma_plus(s, q.negated());
    order::lemma_rounded_exact(s, 1);
    let d = s.minus(q);
    assert(d.value() == s.value());
    accuracy::lemma_plus_close(d, zero, 0);
    order::lemma_plus(d, zero);
    order::lemma_rounded_exact(d, 1);
}

/// Without recent placements the first target has the highest score, or one within the tie window of it:
/// the window that the job names, 0.02 where it names none that is finite; to within one part in 2^52.
pub proof fn lemma_first_target_is_near_the_best(
    pool: Seq<CandidateView>,
    spec: JobSpecView,
    graph: Option<LatencyModel>,
    seed: u32,
    scores: Seq<StaticScore>,
    m: spec_fn(Elementary, Binary64) -> Binary64,
    o: Weights,
)
    requires
        0 < pool.len() <= u32::MAX,
        scores.len() == pool.len(),
        spec.selection != Some(Selection::Weighted),
        spec.recent_placements is None,
        spec.weights == Some(o),
        o.w_d.finite(),
        0 <= o.w_d.value() <= 4 * binary64::one_unit(),
        forall|j: int| 0 <= j < scores.len() ==> in_unit((#[trigger] scores[j]).score),
    ensures
        ({
            let u = binary64::one_unit();
            let targets = selection::selected(pool, spec, graph, seed, scores, m).targets;
            &&& targets.len() > 0
            &&& forall|j: int|
                0 <= j < scores.len() ==> {
                    let gap = (#[trigger] scores[j]).score.value() - targets[0].score.value();
                    ||| gap <= 0
                    ||| spec.tie_eps matches Some(e) && e.finite() && (gap - e.value()) * 0x10_0000_0000_0000 <= u
                    ||| (spec.tie_eps is None || !spec.tie_eps->0.finite()) && (100 * gap - 2 * u)
                        * 0x10_0000_0000_0000 <= 100 * u
                }
        }),
{
    let u = binary64::one_unit();
    let outcome = selection::selected(pool, spec, graph, seed, scores, m);
    let (set, p) = guarantees::ended(pool, spec, graph, seed, scores, m);
    let start = set.start(seed);
    let none = Seq::<int>::empty();
    order::lemma_constants();
    accuracy::lemma_grain();
    accuracy::lemma_proper_fraction(2, 100);
    guarantees::lemma_placed_and_missing_add_up(pool, spec, graph, seed, scores, m);
    redundancy::lemma_replicas_bounded(redundancy::best_trust(pool, spec, m), pool.len(), spec, m);
    assert(guarantees::sound(set, start));
    guarantees::lemma_run(set, start);
    assert forall|j: int| 0 <= j < pool.len() implies #[trigger] set.admits(none, 0, j) && set.live_score(none, j).finite()
        && set.live_score(none, j).value() == scores[j].score.value() by {
        assert(in_unit(scores[j].score));
        lemma_nothing_chosen(set, j);
    }
    let chosen = lemma_every_pick_is_near_the_best(pool, spec, graph, seed, scores, m);
    assert(set == (Setting { pool, spec, graph, scores, count: outcome.effective_k as int, m }));
    if p.chosen.len() == 0 {
        assert(p.chosen =~= none);
        assert(set.unfinished(p));
        guarantees::lemma_level_from(set, none, 0);
        assert(set.admits(none, 0, 0));
        guarantees::lemma_live_complete(set, none, 0, set.pool.len(), 0);
        assert(set.live(none, 0, set.pool.len()).len() > 0);
        assert(false);
    }
    assert(chosen.len() > 0);
    let i = chosen[0];
    assert(chosen.take(0) =~= none);
    assert(near_best(set, none, i));
    let (level, best) = choose|level: int, best: int|
        {
            &&& 0 <= level <= 3
            &&& 0 <= best < set.pool.len()
            &&& #[trigger] set.admits(none, level, best)
            &&& set.admits(none, level, i)
            &&& forall|k: int, j: int| 0 <= k < level && 0 <= j < set.pool.len() ==> !#[trigger] set.admits(none, k, j)
            &&& forall|j: int|
                0 <= j < set.pool.len() && #[trigger] set.admits(none, level, j) ==> set.live_score(none, j).value()
                    <= set.live_score(none, best).value()
            &&& i == best || set.live_score(none, best).minus(set.live_score(none, i)).at_most(
                match set.spec.tie_eps {
                    Some(e) => if e.finite() { e } else { Binary64::fraction(2, 100) },
                    None => Binary64::fraction(2, 100),
                },
            )
        };
    assert(set.admits(none, 0, best));
    assert(level == 0);
    assert(set.admits(none, 0, i));
    let x = set.live_score(none, best);
    let y = set.live_score(none, i);
    assert(in_unit(scores[best].score) && in_unit(scores[i].score));
    accuracy::lemma_minus_close(x, y, 0);
    assert forall|j: int| 0 <= j < scores.len() implies {
        let gap = (#[trigger] scores[j]).score.value() - outcome.targets[0].score.value();
        ||| gap <= 0
        ||| spec.tie_eps matches Some(e) && e.finite() && (gap - e.value()) * 0x10_0000_0000_0000 <= u
        ||| (spec.tie_eps is None || !spec.tie_eps->0.finite()) && (100 * gap - 2 * u) * 0x10_0000_0000_0000 <= 100 * u
    } by {
        assert(set.admits(none, 0, j));
    }
}

// ---- reasons ----

/// What the unrelaxed caps have held back is on record, and what is on record was held back.
#[verifier::opaque]
spec fn recorded(set: Setting, p: Progress) -> bool {
    &&& forall|id: Seq<char>|
        #[trigger] p.held.contains_key(id) ==> exists|r: int, i: int|
            0 <= r <= p.chosen.len() && 0 <= i < set.pool.len() && set.pool[i].node_id == id && p.held[id] == (
            set.gate(set.pool[i], set.members(p.chosen.take(r)), 0) == Some(GroupKey::Operator)) && #[trigger] set.gate(
                set.pool[i],
                set.members(p.chosen.take(r)),
                0,
            ) is Some
    &&& forall|r: int, i: int|
        0 <= r < p.chosen.len() && 0 <= i < set.pool.len() && (#[trigger] set.gate(
            set.pool[i],
            set.members(p.chosen.take(r)),
            0,
        )) is Some && !set.taken(p.chosen, set.pool[i].node_id) ==> p.held.contains_key(set.pool[i].node_id)
}

proof fn lemma_noted(set: Setting, chosen: Seq<int>, held: Map<Seq<char>, bool>, n: nat)
    requires
        n <= set.pool.len(),
    ensures
        ({
            let known = set.noted(chosen, held, n);
            &&& forall|id: Seq<char>| #[trigger] held.contains_key(id) ==> known.contains_key(id) && known[id] == held[id]
            &&& forall|id: Seq<char>|
                #[trigger] known.contains_key(id) && !held.contains_key(id) ==> exists|i: int|
                    0 <= i < n && set.pool[i].node_id == id && known[id] == (set.gate(
                        set.pool[i],
                        set.members(chosen),
                        0,
                    ) == Some(GroupKey::Operator)) && #[trigger] set.gate(set.pool[i], set.members(chosen), 0) is Some
            &&& forall|i: int|
                0 <= i < n && (#[trigger] set.gate(set.pool[i], set.members(chosen), 0)) is Some && !set.taken(
                    chosen,
                    set.pool[i].node_id,
                ) ==> known.contains_key(set.pool[i].node_id)
        }),
    decreases n,
{
    if n > 0 {
        lemma_noted(set, chosen, held, (n - 1) as nat);
        let before = set.noted(chosen, held, (n - 1) as nat);
        let known = set.noted(chosen, held, n);
        let c = set.pool[n - 1];
        let g = set.gate(c, set.members(chosen), 0);
        assert forall|id: Seq<char>| #[trigger] known.contains_key(id) && !held.contains_key(id) implies exists|i: int|
            0 <= i < n && set.pool[i].node_id == id && known[id] == (set.gate(set.pool[i], set.members(chosen), 0)
                == Some(GroupKey::Operator)) && #[trigger] set.gate(set.pool[i], set.members(chosen), 0) is Some by {
            if before.contains_key(id) {
                assert(known[id] == before[id]);
                let i = choose|i: int|
                    0 <= i < n - 1 && set.pool[i].node_id == id && before[id] == (set.gate(
                        set.pool[i],
                        set.members(chosen),
                        0,
                    ) == Some(GroupKey::Operator)) && #[trigger] set.gate(set.pool[i], set.members(chosen), 0) is Some;
                assert(set.gate(set.pool[i], set.members(chosen), 0) is Some);
            } else {
                assert(id == c.node_id);
                assert(set.gate(set.pool[n - 1], set.members(chosen), 0) is Some);
            }
        }
    }
}

proof fn lemma_noted_is_recorded(set: Setting, p: Progress)
    requires
        recorded(set, p),
    ensures
        recorded(set, (Progress { held: set.noted(p.chosen, p.held, set.pool.len()), ..p })),
{
    reveal(recorded);
    let held = set.noted(p.chosen, p.held, set.pool.len());
    let now = Progress { held, ..p };
    lemma_noted(set, p.chosen, p.held, set.pool.len());
    let whole = p.chosen.take(p.chosen.len() as int);
    assert(whole =~= p.chosen);
    assert forall|id: Seq<char>| #[trigger] now.held.contains_key(id) implies exists|r: int, i: int|
        0 <= r <= now.chosen.len() && 0 <= i < set.pool.len() && set.pool[i].node_id == id && now.held[id] == (set.gate(
            set.pool[i],
            set.members(now.chosen.take(r)),
            0,
        ) == Some(GroupKey::Operator)) && #[trigger] set.gate(set.pool[i], set.members(now.chosen.take(r)), 0) is Some by {
        if !p.held.contains_key(id) {
            let i = choose|i: int|
                0 <= i < set.pool.len() && set.pool[i].node_id == id && held[id] == (set.gate(
                    set.pool[i],
                    set.members(p.chosen),
                    0,
                ) == Some(GroupKey::Operator)) && #[trigger] set.gate(set.pool[i], set.members(p.chosen), 0) is Some;
            assert(set.gate(set.pool[i], set.members(now.chosen.take(p.chosen.len() as int)), 0) is Some);
        } else {
            let (r, i) = choose|r: int, i: int|
                0 <= r <= p.chosen.len() && 0 <= i < set.pool.len() && set.pool[i].node_id == id && p.held[id] == (
                set.gate(set.pool[i], set.members(p.chosen.take(r)), 0) == Some(GroupKey::Operator)) && #[trigger] set.gate(
                    set.pool[i],
                    set.members(p.chosen.take(r)),
                    0,
                ) is Some;
            assert(set.gate(set.pool[i], set.members(now.chosen.take(r)), 0) is Some);
        }
    }
}

proof fn lemma_recorded(set: Setting, p: Progress)
    requires
        set.pool.len() <= u32::MAX,
        guarantees::sound(set, p),
        recorded(set, p),
    ensures
        recorded(set, set.run(p)),
    decreases set.count - p.chosen.len(),
{
    if set.unfinished(p) {
        let held = set.noted(p.chosen, p.held, set.pool.len());
        let now = Progress { held, ..p };
        lemma_noted_is_recorded(set, p);
        guarantees::lemma_level_from(set, p.chosen, 0);
        match set.level_from(p.chosen, 0) {
            Some(level) => {
                let (i, rand) = set.pick(set.ranked(p.chosen, level), p.rand);
                guarantees::lemma_pick_is_admitted(set, p.chosen, level, p.rand);
                let after = held.remove(set.pool[i].node_id);
                guarantees::lemma_push_is_sound(set, p, level, i, rand, after);
                let next = Progress {
                    chosen: p.chosen.push(i),
                    rand,
                    loosest: if level > p.loosest { level } else { p.loosest },
                    held: after,
                };
                assert(recorded(set, next)) by {
                    lemma_noted(set, p.chosen, p.held, set.pool.len());
                    lemma_next_is_recorded(set, now, next, i);
                }
                lemma_recorded(set, next);
            },
            None => {},
        }
    }
}

proof fn lemma_next_is_recorded(set: Setting, now: Progress, next: Progress, pick: int)
    requires
        recorded(set, now),
        next.chosen == now.chosen.push(pick),
        next.held == now.held.remove(set.pool[pick].node_id),
        forall|i: int|
            0 <= i < set.pool.len() && (#[trigger] set.gate(set.pool[i], set.members(now.chosen), 0)) is Some && !set.taken(
                now.chosen,
                set.pool[i].node_id,
            ) ==> now.held.contains_key(set.pool[i].node_id),
    ensures
        recorded(set, next),
{
    reveal(recorded);
    assert forall|id: Seq<char>| #[trigger] next.held.contains_key(id) implies exists|r: int, i: int|
        0 <= r <= next.chosen.len() && 0 <= i < set.pool.len() && set.pool[i].node_id == id && next.held[id] == (
        set.gate(set.pool[i], set.members(next.chosen.take(r)), 0) == Some(GroupKey::Operator)) && #[trigger] set.gate(
            set.pool[i],
            set.members(next.chosen.take(r)),
            0,
        ) is Some by {
        assert(now.held.contains_key(id));
        let (r, i) = choose|r: int, i: int|
            0 <= r <= now.chosen.len() && 0 <= i < set.pool.len() && set.pool[i].node_id == id && now.held[id] == (
            set.gate(set.pool[i], set.members(now.chosen.take(r)), 0) == Some(GroupKey::Operator))
                && #[trigger] set.gate(set.pool[i], set.members(now.chosen.take(r)), 0) is Some;
        assert(next.chosen.take(r) =~= now.chosen.take(r));
        assert(set.gate(set.pool[i], set.members(next.chosen.take(r)), 0) is Some);
    }
    assert forall|r: int, i: int|
        0 <= r < next.chosen.len() && 0 <= i < set.pool.len() && (#[trigger] set.gate(
            set.pool[i],
            set.members(next.chosen.take(r)),
            0,
        )) is Some && !set.taken(next.chosen, set.pool[i].node_id) implies next.held.contains_key(set.pool[i].node_id) by {
        let id = set.pool[i].node_id;
        let last = next.chosen.len() - 1;
        assert(next.chosen[last] == pick);
        assert(id != set.pool[pick].node_id) by {
            if id == set.pool[pick].node_id {
                assert(set.pool[next.chosen[last]].node_id == id);
                assert(set.taken(next.chosen, id));
            }
        }
        assert(!set.taken(now.chosen, id)) by {
            if set.taken(now.chosen, id) {
                let j = choose|j: int| 0 <= j < now.chosen.len() && set.pool[#[trigger] now.chosen[j]].node_id == id;
                assert(next.chosen[j] == now.chosen[j]);
                assert(set.taken(next.chosen, id));
            }
        }
        if r < now.chosen.len() {
            assert(next.chosen.take(r) =~= now.chosen.take(r));
            assert(set.gate(set.pool[i], set.members(now.chosen.take(r)), 0) is Some);
        } else {
            assert(next.chosen.take(r) =~= now.chosen);
            assert(set.gate(set.pool[i], set.members(now.chosen), 0) is Some);
        }
    }
}

proof fn lemma_rejected_entry(set: Setting, p: Progress, n: nat, k: int) -> (i: int)
    requires
        n <= set.pool.len(),
        0 <= k < set.rejected(p, n).len(),
    ensures
        0 <= i < n,
        set.rejected(p, n)[k].node_id == set.pool[i].node_id,
        set.rejected(p, n)[k].reason == set.reason(p.held, i),
        !set.taken(p.chosen, set.pool[i].node_id),
    decreases n,
{
    let rest = set.rejected(p, (n - 1) as nat);
    if k < rest.len() {
        let i = lemma_rejected_entry(set, p, (n - 1) as nat, k);
        assert(set.rejected(p, n)[k] == rest[k]);
        i
    } else {
        n - 1
    }
}

proof fn lemma_reasons_differ()
    ensures
        "operator_dup"@ != "group_cap"@,
        "operator_dup"@ != "benchmark_suspect"@,
        "operator_dup"@ != "low_score"@,
        "group_cap"@ != "benchmark_suspect"@,
        "group_cap"@ != "low_score"@,
        "benchmark_suspect"@ != "low_score"@,
{
    reveal_strlit("operator_dup");
    reveal_strlit("group_cap");
    reveal_strlit("benchmark_suspect");
    reveal_strlit("low_score");
    assert("operator_dup"@.len() == 12 && "group_cap"@.len() == 9 && "benchmark_suspect"@.len() == 17
        && "low_score"@.len() == 9);
    assert("group_cap"@[0] == 'g' && "low_score"@[0] == 'l');
}

/// The end of a selection, with its record.
proof fn lemma_recorded_end(
    pool: Seq<CandidateView>,
    spec: JobSpecView,
    graph: Option<LatencyModel>,
    seed: u32,
    scores: Seq<StaticScore>,
    m: spec_fn(Elementary, Binary64) -> Binary64,
)
    requires
        pool.len() <= u32::MAX,
    ensures
        ({
            let (set, p) = guarantees::ended(pool, spec, graph, seed, scores, m);
            let o = selection::selected(pool, spec, graph, seed, scores, m);
            &&& set == (Setting { pool, spec, graph, scores, count: o.effective_k as int, m })
            &&& o == set.outcome(p)
            &&& guarantees::sound(set, p)
            &&& recorded(set, p)
        }),
{
    let (set, p) = guarantees::ended(pool, spec, graph, seed, scores, m);
    let start = set.start(seed);
    guarantees::lemma_placed_and_missing_add_up(pool, spec, graph, seed, scores, m);
    redundancy::lemma_replicas_bounded(redundancy::best_trust(pool, spec, m), pool.len(), spec, m);
    assert(guarantees::sound(set, start));
    guarantees::lemma_run(set, start);
    assert(recorded(set, start)) by {
        reveal(recorded);
    }
    lemma_recorded(set, start);
}

/// What a reason means: an operator or a group cap kept the host out at some point of the selection,
/// before any cap was loosened; or none did, and its claim is suspect; or neither, and others scored
/// higher.
pub proof fn lemma_what_a_reason_means(
    pool: Seq<CandidateView>,
    spec: JobSpecView,
    graph: Option<LatencyModel>,
    seed: u32,
    scores: Seq<StaticScore>,
    m: spec_fn(Elementary, Binary64) -> Binary64,
    k: int,
) -> (r: (int, Seq<int>))
    requires
        pool.len() <= u32::MAX,
        0 <= k < selection::selected(pool, spec, graph, seed, scores, m).rejected.len(),
    ensures
        ({
            let (i, chosen) = r;
            let o = selection::selected(pool, spec, graph, seed, scores, m);
            let set = Setting { pool, spec, graph, scores, count: o.effective_k as int, m };
            let x = o.rejected[k];
            let kept_out = |key: bool|
                exists|s: int, j: int|
                    0 <= s <= chosen.len() && 0 <= j < pool.len() && pool[j].node_id == x.node_id && (#[trigger] set.gate(
                        pool[j],
                        set.members(chosen.take(s)),
                        0,
                    )) is Some && key == (set.gate(pool[j], set.members(chosen.take(s)), 0) == Some(GroupKey::Operator));
            &&& 0 <= i < pool.len()
            &&& x.node_id == pool[i].node_id
            &&& chosen.len() == o.targets.len()
            &&& forall|t: int|
                0 <= t < chosen.len() ==> 0 <= #[trigger] chosen[t] < pool.len() && pool[chosen[t]].node_id
                    == o.targets[t].node_id && o.targets[t].node_id != x.node_id
            &&& x.reason == "operator_dup"@ ==> kept_out(true)
            &&& x.reason == "group_cap"@ ==> kept_out(false)
            &&& x.reason == "benchmark_suspect"@ ==> scores[i].benchmark_suspect
            &&& x.reason == "low_score"@ ==> !scores[i].benchmark_suspect
            &&& x.reason == "benchmark_suspect"@ || x.reason == "low_score"@ ==> forall|s: int|
                0 <= s < chosen.len() ==> (#[trigger] set.gate(pool[i], set.members(chosen.take(s)), 0)) is None
        }),
{
    let (set, p) = guarantees::ended(pool, spec, graph, seed, scores, m);
    let o = selection::selected(pool, spec, graph, seed, scores, m);
    lemma_recorded_end(pool, spec, graph, seed, scores, m);
    lemma_reasons_differ();
    reveal(recorded);
    let x = o.rejected[k];
    let i = lemma_rejected_entry(set, p, pool.len(), k);
    let chosen = p.chosen;
    assert forall|t: int| 0 <= t < chosen.len() implies 0 <= #[trigger] chosen[t] < pool.len() && pool[chosen[t]].node_id
        == o.targets[t].node_id && o.targets[t].node_id != x.node_id by {
        if set.pool[chosen[t]].node_id == set.pool[i].node_id {
            assert(set.taken(chosen, set.pool[i].node_id));
        }
    }
    if p.held.contains_key(x.node_id) {
        let (s, j) = choose|s: int, j: int|
            0 <= s <= p.chosen.len() && 0 <= j < set.pool.len() && set.pool[j].node_id == x.node_id && p.held[x.node_id]
                == (set.gate(set.pool[j], set.members(p.chosen.take(s)), 0) == Some(GroupKey::Operator))
                && #[trigger] set.gate(set.pool[j], set.members(p.chosen.take(s)), 0) is Some;
        assert(set.gate(pool[j], set.members(chosen.take(s)), 0) is Some);
        assert(x.reason == if p.held[x.node_id] { "operator_dup"@ } else { "group_cap"@ });
    } else {
        assert forall|s: int| 0 <= s < chosen.len() implies (#[trigger] set.gate(
            pool[i],
            set.members(chosen.take(s)),
            0,
        )) is None by {
            if set.gate(set.pool[i], set.members(p.chosen.take(s)), 0) is Some {
                assert(p.held.contains_key(set.pool[i].node_id));
            }
        }
    }
    (i, chosen)
}

} // verus!
