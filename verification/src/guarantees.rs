//! What holds of every selection, whatever the pool, the scores and the seed.

use crate::api::{GroupsView, JobSpecView, PlanTargetView, RejectedHostView, Selection};
use crate::binary64::Binary64;
use crate::candidate::CandidateView;
use crate::correlation;
use crate::elementary::Elementary;
use crate::latency::LatencyModel;
use crate::order;
use crate::prng;
use crate::redundancy;
use crate::scorer::{self, StaticScore};
use crate::selection::{self, Progress, Setting};
use crate::vendor::{self, Caps, GroupKey};
use vstd::prelude::*;

verus! {

// ---- one pick ----

pub proof fn lemma_used_up(weights: Seq<Binary64>, x: Binary64, i: int)
    requires
        0 <= i <= weights.len(),
        weights.len() > 0,
    ensures
        0 <= selection::used_up(weights, x, i) < weights.len(),
    decreases weights.len() - i,
{
    if i < weights.len() && !x.minus(weights[i]).at_most(Binary64::zero()) {
        lemma_used_up(weights, x.minus(weights[i]), i + 1);
    }
}

pub proof fn lemma_near_ties(ranking: Seq<(int, Binary64)>, window: Binary64, n: nat)
    requires
        n <= ranking.len(),
    ensures
        selection::near_ties(ranking, window, n).len() <= n,
        forall|j: int|
            0 <= j < selection::near_ties(ranking, window, n).len() ==> exists|k: int|
                0 <= k < n && (#[trigger] ranking[k]).0 == #[trigger] selection::near_ties(ranking, window, n)[j]
                    && ranking[0].1.minus(ranking[k].1).at_most(window),
    decreases n,
{
    if n > 0 {
        lemma_near_ties(ranking, window, (n - 1) as nat);
        let rest = selection::near_ties(ranking, window, (n - 1) as nat);
        let all = selection::near_ties(ranking, window, n);
        assert forall|j: int| 0 <= j < all.len() implies exists|k: int|
            0 <= k < n && (#[trigger] ranking[k]).0 == #[trigger] all[j] && ranking[0].1.minus(ranking[k].1).at_most(
                window,
            ) by {
            if j < rest.len() {
                assert(all[j] == rest[j]);
            } else {
                assert(ranking[n - 1].0 == all[j]);
            }
        }
    }
}

/// A pick stands at some place in the ranking; unless picks are weighted, it is the first or within
/// the tie window of the first.
proof fn lemma_pick_place(set: Setting, ranking: Seq<(int, Binary64)>, rand: u32) -> (k: int)
    requires
        0 < ranking.len() <= u32::MAX,
    ensures
        0 <= k < ranking.len(),
        set.pick(ranking, rand).0 == ranking[k].0,
        set.spec.selection != Some(Selection::Weighted) ==> k == 0 || ranking[0].1.minus(ranking[k].1).at_most(
            selection::tie_window(set.spec),
        ),
{
    if set.spec.selection == Some(Selection::Weighted) {
        let weights = selection::softmax_weights(ranking, set.spec, set.m);
        let s = prng::advance(rand);
        lemma_used_up(weights, prng::drawn(s).times(selection::total_weight(weights)), 0);
        selection::sampled(weights, rand).0
    } else {
        let window = selection::tie_window(set.spec);
        let ties = selection::near_ties(ranking, window, ranking.len());
        lemma_near_ties(ranking, window, ranking.len());
        if ties.len() > 1 {
            let s = prng::advance(rand);
            prng::lemma_drawn_position(s, ties.len() as int);
            let j = prng::drawn(s).times(Binary64::fraction(ties.len() as int, 1)).floor();
            let k = choose|k: int|
                0 <= k < ranking.len() && (#[trigger] ranking[k]).0 == ties[j] && ranking[0].1.minus(
                    ranking[k].1,
                ).at_most(window);
            k
        } else {
            0
        }
    }
}

pub proof fn lemma_live_len(set: Setting, chosen: Seq<int>, level: int, n: nat)
    ensures
        set.live(chosen, level, n).len() <= n,
    decreases n,
{
    if n > 0 {
        lemma_live_len(set, chosen, level, (n - 1) as nat);
    }
}

/// Every entry of a live list is an admitted candidate with its live score.
pub proof fn lemma_live_entry(set: Setting, chosen: Seq<int>, level: int, n: nat, j: int)
    requires
        0 <= j < set.live(chosen, level, n).len(),
    ensures
        0 <= set.live(chosen, level, n)[j].0 < n,
        set.admits(chosen, level, set.live(chosen, level, n)[j].0),
        set.live(chosen, level, n)[j].1 == set.live_score(chosen, set.live(chosen, level, n)[j].0),
    decreases n,
{
    if n > 0 {
        let rest = set.live(chosen, level, (n - 1) as nat);
        if j < rest.len() {
            lemma_live_entry(set, chosen, level, (n - 1) as nat, j);
        }
    }
}

/// Every admitted candidate is in the live list.
pub proof fn lemma_live_complete(set: Setting, chosen: Seq<int>, level: int, n: nat, i: int)
    requires
        0 <= i < n,
        set.admits(chosen, level, i),
    ensures
        set.live(chosen, level, n).contains((i, set.live_score(chosen, i))),
    decreases n,
{
    let all = set.live(chosen, level, n);
    let rest = set.live(chosen, level, (n - 1) as nat);
    if i < n - 1 {
        lemma_live_complete(set, chosen, level, (n - 1) as nat, i);
        let j = choose|j: int| 0 <= j < rest.len() && rest[j] == (i, set.live_score(chosen, i));
        assert(all[j] == rest[j]);
    } else {
        assert(all[all.len() - 1] == (i, set.live_score(chosen, i)));
    }
}

/// A ranking holds the same entries as the live list, each before those that it ranks before.
pub proof fn lemma_ranked(set: Setting, chosen: Seq<int>, level: int)
    ensures
        ({
            let live = set.live(chosen, level, set.pool.len());
            let ranking = set.ranked(chosen, level);
            &&& ranking.len() == live.len()
            &&& forall|x: (int, Binary64)| #[trigger] ranking.contains(x) <==> live.contains(x)
            &&& forall|i: int, j: int| 0 <= i < j < ranking.len() ==> set.ranks_before(#[trigger] ranking[i], #[trigger] ranking[j])
        }),
{
    let live = set.live(chosen, level, set.pool.len());
    let ranking = set.ranked(chosen, level);
    selection::lemma_ranks_total(set);
    live.lemma_sort_by_ensures(set.ranks());
    assert(ranking.len() == live.len() && forall|x: (int, Binary64)| #[trigger] ranking.contains(x) <==> live.contains(x))
        by {
        broadcast use vstd::seq_lib::group_to_multiset_ensures;

        assert(live.to_multiset().len() == live.len());
        assert(ranking.to_multiset().len() == ranking.len());
        assert forall|x: (int, Binary64)| #[trigger] ranking.contains(x) <==> live.contains(x) by {
            assert(ranking.to_multiset().count(x) == live.to_multiset().count(x));
        }
    }
    assert forall|i: int, j: int| 0 <= i < j < ranking.len() implies set.ranks_before(
        #[trigger] ranking[i],
        #[trigger] ranking[j],
    ) by {
        assert((set.ranks())(ranking[i], ranking[j]));
    }
}

/// What is picked at a level is a candidate that the level admits.
pub proof fn lemma_pick_is_admitted(set: Setting, chosen: Seq<int>, level: int, rand: u32)
    requires
        set.pool.len() <= u32::MAX,
        set.live(chosen, level, set.pool.len()).len() > 0,
    ensures
        0 <= set.pick(set.ranked(chosen, level), rand).0 < set.pool.len(),
        set.admits(chosen, level, set.pick(set.ranked(chosen, level), rand).0),
{
    let live = set.live(chosen, level, set.pool.len());
    let ranking = set.ranked(chosen, level);
    lemma_ranked(set, chosen, level);
    lemma_live_len(set, chosen, level, set.pool.len());
    let k = lemma_pick_place(set, ranking, rand);
    assert(ranking.contains(ranking[k]));
    let j = choose|j: int| 0 <= j < live.len() && live[j] == ranking[k];
    lemma_live_entry(set, chosen, level, set.pool.len(), j);
}

/// Unless picks are weighted, only near ties are left to chance: among the candidates that the level
/// admits there is one whose live score none exceeds, and the pick is that one or one whose score is
/// within the tie window of it.
pub proof fn lemma_pick_is_near_best(set: Setting, chosen: Seq<int>, level: int, rand: u32) -> (best: int)
    requires
        set.pool.len() <= u32::MAX,
        set.live(chosen, level, set.pool.len()).len() > 0,
        set.spec.selection != Some(Selection::Weighted),
    ensures
        0 <= best < set.pool.len(),
        set.admits(chosen, level, best),
        forall|i: int|
            0 <= i < set.pool.len() && #[trigger] set.admits(chosen, level, i) ==> set.live_score(chosen, i).value()
                <= set.live_score(chosen, best).value(),
        ({
            let i = set.pick(set.ranked(chosen, level), rand).0;
            i == best || set.live_score(chosen, best).minus(set.live_score(chosen, i)).at_most(
                selection::tie_window(set.spec),
            )
        }),
{
    let live = set.live(chosen, level, set.pool.len());
    let ranking = set.ranked(chosen, level);
    lemma_ranked(set, chosen, level);
    lemma_live_len(set, chosen, level, set.pool.len());
    let k = lemma_pick_place(set, ranking, rand);
    assert(ranking.contains(ranking[k]));
    let j = choose|j: int| 0 <= j < live.len() && live[j] == ranking[k];
    lemma_live_entry(set, chosen, level, set.pool.len(), j);
    assert(ranking.contains(ranking[0]));
    let b = choose|j: int| 0 <= j < live.len() && live[j] == ranking[0];
    lemma_live_entry(set, chosen, level, set.pool.len(), b);
    let best = ranking[0].0;
    assert forall|i: int| 0 <= i < set.pool.len() && #[trigger] set.admits(chosen, level, i) implies set.live_score(
        chosen,
        i,
    ).value() <= set.live_score(chosen, best).value() by {
        lemma_live_complete(set, chosen, level, set.pool.len(), i);
        assert(ranking.contains((i, set.live_score(chosen, i))));
        let q = choose|q: int| 0 <= q < ranking.len() && ranking[q] == (i, set.live_score(chosen, i));
        if q > 0 {
            assert(set.ranks_before(ranking[0], ranking[q]));
        }
    }
    best
}

// ---- the caps ----

/// What keeps a tagged candidate out: with nothing loosened every cap is in force, what is admitted
/// stays so with more loosened, and the rule of distinct operators holds whatever is loosened.
pub proof fn lemma_gate_follows_the_caps(
    c: CandidateView,
    members: Seq<CandidateView>,
    caps: Caps,
    loose: Set<GroupKey>,
    looser: Set<GroupKey>,
)
    requires
        c.groups is Some,
        loose.subset_of(looser),
    ensures
        selection::gated(c, members, caps, Set::empty()) == vendor::violation(c, members, caps),
        selection::gated(c, members, caps, loose) is None ==> selection::gated(c, members, caps, looser) is None,
        caps.require_distinct_operator && vendor::sharing(c, members, GroupKey::Operator) > 0 ==> selection::gated(
            c,
            members,
            caps,
            loose,
        ) == Some(GroupKey::Operator),
{
}

/// Before anything is loosened, and unless the cohort is co-located, a round keeps out of the tagged
/// candidates those that break a cap and no others.
pub proof fn lemma_first_level_enforces_every_cap(set: Setting, c: CandidateView, members: Seq<CandidateView>)
    requires
        c.groups is Some,
        !selection::colocates(set.spec),
    ensures
        set.gate(c, members, 0) == vendor::violation(c, members, set.caps()),
{
    assert(selection::loose_at(0, set.spec) =~= Set::empty());
    lemma_gate_follows_the_caps(c, members, set.caps(), Set::empty(), Set::empty());
}

// ---- what a round prefers ----

/// A co-located cohort may fill a region: the region cap never keeps a candidate out of it, while the
/// operator cap still does where replicas are to be verified.
pub proof fn lemma_colocation_frees_the_region(
    set: Setting,
    c: CandidateView,
    members: Seq<CandidateView>,
    level: int,
)
    requires
        selection::colocates(set.spec),
    ensures
        set.gate(c, members, level) != Some(GroupKey::Region),
        redundancy::verifies(set.spec) && c.groups is Some && vendor::sharing(c, members, GroupKey::Operator) > 0
            ==> set.gate(c, members, level) == Some(GroupKey::Operator),
{
}

/// In a co-located cohort, a candidate that is nearer to the members on average earns at least the
/// bonus of one that is farther.
pub proof fn lemma_nearer_to_the_cohort_is_no_worse(
    near: CandidateView,
    far: CandidateView,
    members: Seq<CandidateView>,
    spec: JobSpecView,
    graph: LatencyModel,
)
    requires
        selection::colocates(spec),
        selection::cohort_rtt(near, members, graph).1 > 0,
        selection::cohort_rtt(far, members, graph).1 > 0,
        mean_rtt(near, members, graph).finite(),
        mean_rtt(near, members, graph).at_most(mean_rtt(far, members, graph)),
    ensures
        selection::cohort_bonus(far, members, spec, Some(graph)).at_most(
            selection::cohort_bonus(near, members, spec, Some(graph)),
        ),
{
    let a = mean_rtt(near, members, graph);
    let b = mean_rtt(far, members, graph);
    let cap = scorer::positive_or(spec.rtt_soft_cap_ms, Binary64::fraction(250, 1));
    let one = Binary64::one();
    let share = Binary64::fraction(15, 100);
    order::lemma_constants();
    order::lemma_whole_number(250);
    order::lemma_fraction_at_most_one(15, 100);
    order::lemma_clamped(one.minus(a.over(cap)));
    order::lemma_clamped(one.minus(b.over(cap)));
    if b.finite() {
        order::lemma_over_ordered(a, b, cap);
        order::lemma_one_minus_shrinks(a.over(cap), b.over(cap));
    } else {
        reveal(Binary64::over);
        reveal(Binary64::plus);
        order::lemma_finite_bounds(a);
        order::lemma_finite_bounds(b);
        order::lemma_value_sign(cap);
        assert(one.minus(b.over(cap)).clamped() == Binary64::zero());
    }
    order::lemma_times_grows(one.minus(b.over(cap)).clamped(), one.minus(a.over(cap)).clamped(), share);
}

/// The mean of the finite predicted RTTs to the members.
pub open spec fn mean_rtt(c: CandidateView, members: Seq<CandidateView>, graph: LatencyModel) -> Binary64 {
    let (sum, n) = selection::cohort_rtt(c, members, graph);
    sum.over(Binary64::fraction(n, 1))
}

/// A cohort that is to spread prefers a region that no member is in.
pub proof fn lemma_fresh_regions_are_preferred(
    fresh: CandidateView,
    other: CandidateView,
    members: Seq<CandidateView>,
    spec: JobSpecView,
    graph: Option<LatencyModel>,
)
    requires
        !selection::colocates(spec),
        members.len() > 0,
        fresh.groups is Some,
        fresh.groups->0.region.len() > 0,
        vendor::region_is_real(fresh.groups->0.region),
        !selection::region_used(fresh.groups->0.region, members),
        other.groups is Some ==> selection::region_used(other.groups->0.region, members),
    ensures
        selection::cohort_bonus(other, members, spec, graph).less(
            selection::cohort_bonus(fresh, members, spec, graph),
        ),
{
    order::lemma_constants();
    vstd::arithmetic::power2::lemma2_to64();
    order::lemma_dyadic(1, 5);
    order::lemma_fraction_ordered(1, 32, 5, 100);
}

/// Of two candidates alike in static score, cohort bonus and the payer's recent use of their
/// operators, the one that shares groups with more of the picks ranks no higher.
pub proof fn lemma_sharing_ranks_no_higher(set: Setting, chosen: Seq<int>, i: int, j: int)
    requires
        chosen.len() <= u32::MAX,
        set.scores[i].score == set.scores[j].score,
        selection::rankable(set.scores[i].score, set.spec),
        selection::cohort_bonus(set.pool[i], set.members(chosen), set.spec, set.graph) == selection::cohort_bonus(
            set.pool[j],
            set.members(chosen),
            set.spec,
            set.graph,
        ),
        vendor::recent_load(set.pool[i], set.spec) == vendor::recent_load(set.pool[j], set.spec),
        vendor::sharing_any(set.pool[i], set.members(chosen)) <= vendor::sharing_any(
            set.pool[j],
            set.members(chosen),
        ),
    ensures
        set.live_score(chosen, j).at_most(set.live_score(chosen, i)),
{
    let members = set.members(chosen);
    let w = selection::penalty_weight(set.spec);
    let p = vendor::penalty(set.pool[i], members, set.spec);
    let q = vendor::penalty(set.pool[j], members, set.spec);
    let s = set.scores[i].score;
    let bonus = selection::cohort_bonus(set.pool[i], members, set.spec, set.graph);
    selection::lemma_penalty_weight(set.spec);
    selection::lemma_penalty(set.pool[i], members, set.spec);
    selection::lemma_penalty(set.pool[j], members, set.spec);
    selection::lemma_cohort_bonus(set.pool[i], members, set.spec, set.graph);
    correlation::lemma_penalty_grows_with_sharing(set.pool[i], set.pool[j], members, set.spec);
    order::lemma_times(w, p);
    order::lemma_times(w, q);
    order::lemma_times_grows(p, q, w);
    selection::lemma_penalty_stays_finite(set.pool[j], members, set.spec);
    order::lemma_adjusted_shrinks(s, w.times(p), w.times(q), bonus);
}

// ---- every state of a selection ----

/// What every state of a selection keeps: the picks are candidates with distinct ids, no more than
/// wanted, and the caps that the loosest level used leaves in force admitted each pick beside those
/// before it.
pub open spec fn sound(set: Setting, p: Progress) -> bool {
    &&& p.chosen.len() <= set.count
    &&& 0 <= p.loosest <= 3
    &&& forall|r: int| 0 <= r < p.chosen.len() ==> 0 <= #[trigger] p.chosen[r] < set.pool.len()
    &&& forall|r: int, q: int|
        0 <= r < q < p.chosen.len() ==> set.pool[#[trigger] p.chosen[r]].node_id != set.pool[#[trigger] p.chosen[q]].node_id
    &&& forall|r: int|
        0 <= r < p.chosen.len() ==> set.gate(
            set.pool[#[trigger] p.chosen[r]],
            set.members(p.chosen.take(r)),
            p.loosest,
        ) is None
}

/// What a level admits, a looser level admits.
pub proof fn lemma_looser_admits(set: Setting, c: CandidateView, members: Seq<CandidateView>, level: int, looser: int)
    requires
        level <= looser,
        set.gate(c, members, level) is None,
    ensures
        set.gate(c, members, looser) is None,
{
}

/// A pick that the caps admit keeps a state sound.
pub proof fn lemma_push_is_sound(set: Setting, p: Progress, level: int, i: int, rand: u32, held: Map<Seq<char>, bool>)
    requires
        sound(set, p),
        p.chosen.len() < set.count,
        0 <= level <= 3,
        0 <= i < set.pool.len(),
        set.admits(p.chosen, level, i),
    ensures
        sound(
            set,
            Progress {
                chosen: p.chosen.push(i),
                rand,
                loosest: if level > p.loosest { level } else { p.loosest },
                held,
            },
        ),
{
    let chosen = p.chosen.push(i);
    let loosest = if level > p.loosest { level } else { p.loosest };
    assert forall|r: int, q: int| 0 <= r < q < chosen.len() implies set.pool[#[trigger] chosen[r]].node_id
        != set.pool[#[trigger] chosen[q]].node_id by {
        assert(chosen[r] == p.chosen[r]);
        if q < p.chosen.len() {
            assert(chosen[q] == p.chosen[q]);
        } else {
            assert(!set.taken(p.chosen, set.pool[i].node_id));
        }
    }
    assert forall|r: int| 0 <= r < chosen.len() implies set.gate(
        set.pool[#[trigger] chosen[r]],
        set.members(chosen.take(r)),
        loosest,
    ) is None by {
        if r < p.chosen.len() {
            assert(chosen[r] == p.chosen[r]);
            assert(chosen.take(r) =~= p.chosen.take(r));
            lemma_looser_admits(set, set.pool[p.chosen[r]], set.members(p.chosen.take(r)), p.loosest, loosest);
        } else {
            assert(chosen.take(r) =~= p.chosen);
            lemma_looser_admits(set, set.pool[i], set.members(p.chosen), level, loosest);
        }
    }
}

/// A cap is loosened only where nothing is admitted with it in force: the level of a pick is the first
/// that admits anything, and no level is left where none does.
pub proof fn lemma_level_from(set: Setting, chosen: Seq<int>, level: int)
    requires
        0 <= level,
    ensures
        match set.level_from(chosen, level) {
            Some(l) => level <= l <= 3 && set.live(chosen, l, set.pool.len()).len() > 0 && forall|k: int|
                level <= k < l ==> (#[trigger] set.live(chosen, k, set.pool.len())).len() == 0,
            None => forall|k: int| level <= k <= 3 ==> (#[trigger] set.live(chosen, k, set.pool.len())).len() == 0,
        },
    decreases 4 - level,
{
    if level <= 3 && set.live(chosen, level, set.pool.len()).len() == 0 {
        lemma_level_from(set, chosen, level + 1);
    }
}

/// A selection keeps its states sound, keeps the picks that it has made, and ends only where nothing
/// more is wanted, nothing is left, or no level admits anything.
pub proof fn lemma_run(set: Setting, p: Progress)
    requires
        set.pool.len() <= u32::MAX,
        sound(set, p),
    ensures
        sound(set, set.run(p)),
        set.run(p).chosen.len() >= p.chosen.len(),
        set.run(p).chosen.take(p.chosen.len() as int) == p.chosen,
        set.run(p).loosest >= p.loosest,
        !set.unfinished(set.run(p)) || set.level_from(set.run(p).chosen, 0) is None,
    decreases set.count - p.chosen.len(),
{
    if set.unfinished(p) {
        let held = set.noted(p.chosen, p.held, set.pool.len());
        lemma_level_from(set, p.chosen, 0);
        match set.level_from(p.chosen, 0) {
            Some(level) => {
                let (i, rand) = set.pick(set.ranked(p.chosen, level), p.rand);
                lemma_pick_is_admitted(set, p.chosen, level, p.rand);
                let after = held.remove(set.pool[i].node_id);
                lemma_push_is_sound(set, p, level, i, rand, after);
                let next = Progress {
                    chosen: p.chosen.push(i),
                    rand,
                    loosest: if level > p.loosest { level } else { p.loosest },
                    held: after,
                };
                lemma_run(set, next);
                let done = set.run(next);
                assert(done.chosen.take(p.chosen.len() as int) =~= next.chosen.take(p.chosen.len() as int)) by {
                    assert(done.chosen.take(next.chosen.len() as int).take(p.chosen.len() as int) =~= done.chosen.take(
                        p.chosen.len() as int,
                    ));
                }
                assert(next.chosen.take(p.chosen.len() as int) =~= p.chosen);
            },
            None => {
                assert(p.chosen.take(p.chosen.len() as int) =~= p.chosen);
            },
        }
    } else {
        assert(p.chosen.take(p.chosen.len() as int) =~= p.chosen);
    }
}

// ---- what a selection reports ----

/// The final state of a selection and the setting that it ran in.
pub open spec fn ended(
    pool: Seq<CandidateView>,
    spec: JobSpecView,
    graph: Option<LatencyModel>,
    seed: u32,
    scores: Seq<StaticScore>,
    m: spec_fn(Elementary, Binary64) -> Binary64,
) -> (Setting, Progress) {
    let set = selection::setting_of(pool, spec, graph, scores, redundancy::effective_count(pool, spec, m), m);
    (set, set.run(set.start(seed)))
}

proof fn lemma_ended(
    pool: Seq<CandidateView>,
    spec: JobSpecView,
    graph: Option<LatencyModel>,
    seed: u32,
    scores: Seq<StaticScore>,
    m: spec_fn(Elementary, Binary64) -> Binary64,
)
    requires
        pool.len() <= u32::MAX,
    ensures
        ({
            let (set, p) = ended(pool, spec, graph, seed, scores, m);
            &&& 1 <= set.count <= u32::MAX
            &&& sound(set, p)
            &&& !set.unfinished(p) || set.level_from(p.chosen, 0) is None
            &&& selection::selected(pool, spec, graph, seed, scores, m) == set.outcome(p)
        }),
{
    let (set, p) = ended(pool, spec, graph, seed, scores, m);
    redundancy::lemma_replicas_bounded(redundancy::best_trust(pool, spec, m), pool.len(), spec, m);
    assert(sound(set, set.start(seed)));
    lemma_run(set, set.start(seed));
}

/// The shortfall is never silent: what is placed and what is missing add up to the replicas that the
/// selection aimed for, which are at least what was asked for. Targets are numbered in the order in
/// which they were picked.
pub proof fn lemma_placed_and_missing_add_up(
    pool: Seq<CandidateView>,
    spec: JobSpecView,
    graph: Option<LatencyModel>,
    seed: u32,
    scores: Seq<StaticScore>,
    m: spec_fn(Elementary, Binary64) -> Binary64,
)
    requires
        pool.len() <= u32::MAX,
    ensures
        ({
            let o = selection::selected(pool, spec, graph, seed, scores, m);
            &&& o.targets.len() + o.shortfall == o.effective_k
            &&& o.effective_k == redundancy::effective_count(pool, spec, m)
            &&& o.effective_k >= redundancy::requested(spec)
            &&& forall|r: int| 0 <= r < o.targets.len() ==> (#[trigger] o.targets[r]).replica == r
        }),
{
    lemma_ended(pool, spec, graph, seed, scores, m);
    redundancy::lemma_replicas_bounded(redundancy::best_trust(pool, spec, m), pool.len(), spec, m);
}

/// Each target is a candidate of the pool with its score, and no host is placed on twice.
pub proof fn lemma_targets_are_distinct_candidates(
    pool: Seq<CandidateView>,
    spec: JobSpecView,
    graph: Option<LatencyModel>,
    seed: u32,
    scores: Seq<StaticScore>,
    m: spec_fn(Elementary, Binary64) -> Binary64,
)
    requires
        pool.len() <= u32::MAX,
    ensures
        ({
            let o = selection::selected(pool, spec, graph, seed, scores, m);
            &&& forall|r: int|
                0 <= r < o.targets.len() ==> exists|i: int|
                    0 <= i < pool.len() && (#[trigger] o.targets[r]).node_id == (#[trigger] pool[i]).node_id
                        && o.targets[r].score == scores[i].score && o.targets[r].rtt_ms == pool[i].rtt_ms
            &&& forall|r: int, q: int|
                0 <= r < q < o.targets.len() ==> (#[trigger] o.targets[r]).node_id != (#[trigger] o.targets[q]).node_id
        }),
{
    lemma_ended(pool, spec, graph, seed, scores, m);
    let (set, p) = ended(pool, spec, graph, seed, scores, m);
    let o = set.outcome(p);
    assert forall|r: int| 0 <= r < o.targets.len() implies exists|i: int|
        0 <= i < pool.len() && (#[trigger] o.targets[r]).node_id == (#[trigger] pool[i]).node_id && o.targets[r].score
            == scores[i].score && o.targets[r].rtt_ms == pool[i].rtt_ms by {
        let i = p.chosen[r];
        assert(o.targets[r] == set.target(p.chosen, r));
        assert(pool[i].node_id == o.targets[r].node_id);
    }
    assert forall|r: int, q: int| 0 <= r < q < o.targets.len() implies (#[trigger] o.targets[r]).node_id
        != (#[trigger] o.targets[q]).node_id by {
        assert(o.targets[r] == set.target(p.chosen, r));
        assert(o.targets[q] == set.target(p.chosen, q));
        assert(set.pool[p.chosen[r]].node_id != set.pool[p.chosen[q]].node_id);
    }
}

/// Replicas that are to be verified against each other are on distinct operators.
pub proof fn lemma_verified_replicas_have_distinct_operators(
    pool: Seq<CandidateView>,
    spec: JobSpecView,
    graph: Option<LatencyModel>,
    seed: u32,
    scores: Seq<StaticScore>,
    m: spec_fn(Elementary, Binary64) -> Binary64,
)
    requires
        pool.len() <= u32::MAX,
        redundancy::verifies(spec),
        forall|i: int| 0 <= i < pool.len() ==> (#[trigger] pool[i]).groups is Some,
    ensures
        ({
            let o = selection::selected(pool, spec, graph, seed, scores, m);
            forall|r: int, q: int|
                0 <= r < q < o.targets.len() ==> (#[trigger] o.targets[r]).groups.operator
                    != (#[trigger] o.targets[q]).groups.operator
        }),
{
    lemma_ended(pool, spec, graph, seed, scores, m);
    let (set, p) = ended(pool, spec, graph, seed, scores, m);
    let o = set.outcome(p);
    assert forall|r: int, q: int| 0 <= r < q < o.targets.len() implies (#[trigger] o.targets[r]).groups.operator
        != (#[trigger] o.targets[q]).groups.operator by {
        assert(o.targets[r] == set.target(p.chosen, r));
        assert(o.targets[q] == set.target(p.chosen, q));
        let c = set.pool[p.chosen[q]];
        let before = set.members(p.chosen.take(q));
        assert(set.gate(c, before, p.loosest) is None);
        assert(set.pool[p.chosen[r]].groups is Some);
        assert(c.groups is Some);
        if o.targets[r].groups.operator == o.targets[q].groups.operator {
            assert(before[r] == set.pool[p.chosen[r]]);
            lemma_sharing_counts(c, before, GroupKey::Operator, r);
        }
    }
}

/// A member that shares a group is counted.
proof fn lemma_sharing_counts(c: CandidateView, members: Seq<CandidateView>, key: GroupKey, r: int)
    requires
        0 <= r < members.len(),
        vendor::shares(c, members[r], key),
    ensures
        vendor::sharing(c, members, key) > 0,
    decreases members.len(),
{
    if r < members.len() - 1 {
        lemma_sharing_counts(c, members.drop_last(), key, r);
    }
}

/// The caps are loosened in a fixed order, and what was loosened is reported: first the region, then
/// the network, then the operator, which never is where replicas are to be verified.
pub proof fn lemma_relaxations_follow_the_ladder(
    pool: Seq<CandidateView>,
    spec: JobSpecView,
    graph: Option<LatencyModel>,
    seed: u32,
    scores: Seq<StaticScore>,
    m: spec_fn(Elementary, Binary64) -> Binary64,
)
    requires
        pool.len() <= u32::MAX,
    ensures
        ({
            let relaxed = selection::selected(pool, spec, graph, seed, scores, m).relaxed;
            let ladder = seq!["region"@, "asn"@, "operator"@];
            &&& relaxed.len() <= 3
            &&& relaxed == ladder.take(relaxed.len() as int)
            &&& redundancy::verifies(spec) ==> relaxed.len() <= 2
        }),
{
    lemma_ended(pool, spec, graph, seed, scores, m);
    let (set, p) = ended(pool, spec, graph, seed, scores, m);
    let relaxed = selection::relaxations(p.loosest, spec);
    assert(relaxed =~= seq!["region"@, "asn"@, "operator"@].take(relaxed.len() as int));
}

/// The value of a group key.
pub open spec fn group_value(g: GroupsView, key: GroupKey) -> Seq<char> {
    match key {
        GroupKey::Operator => g.operator,
        GroupKey::Asn => g.asn,
        GroupKey::Region => g.region,
        GroupKey::Cluster => g.cluster,
    }
}

/// Whether a value of a group key is a signal at all.
pub open spec fn is_signal(key: GroupKey, value: Seq<char>) -> bool {
    match key {
        GroupKey::Asn => value != vendor::UNKNOWN@,
        GroupKey::Region => vendor::region_is_real(value),
        _ => true,
    }
}

/// How many targets are in a group.
pub open spec fn holding(targets: Seq<PlanTargetView>, key: GroupKey, value: Seq<char>) -> nat
    decreases targets.len(),
{
    if targets.len() == 0 {
        0
    } else {
        holding(targets.drop_last(), key, value) + if group_value(targets.last().groups, key) == value {
            1nat
        } else {
            0nat
        }
    }
}

proof fn lemma_holding(set: Setting, p: Progress, key: GroupKey, value: Seq<char>, n: int)
    requires
        sound(set, p),
        0 <= n <= p.chosen.len(),
        set.cap() >= 1,
        !selection::loosened(p.loosest, key, set.spec),
        is_signal(key, value),
        forall|i: int| 0 <= i < set.pool.len() ==> (#[trigger] set.pool[i]).groups is Some,
    ensures
        holding(set.outcome(p).targets.take(n), key, value) <= set.cap(),
        forall|c: CandidateView|
            c.groups is Some && group_value(c.groups->0, key) == value ==> #[trigger] vendor::sharing(
                c,
                set.members(p.chosen.take(n)),
                key,
            ) == holding(set.outcome(p).targets.take(n), key, value),
    decreases n,
{
    let targets = set.outcome(p).targets;
    if n > 0 {
        lemma_holding(set, p, key, value, n - 1);
        let d = set.pool[p.chosen[n - 1]];
        let before = set.members(p.chosen.take(n - 1));
        let now = set.members(p.chosen.take(n));
        assert(now.drop_last() =~= before);
        assert(now.last() == d);
        assert(targets.take(n).drop_last() =~= targets.take(n - 1));
        assert(targets.take(n).last() == set.target(p.chosen, n - 1));
        assert(d.groups is Some);
        assert(set.gate(d, before, p.loosest) is None);
        if group_value(d.groups->0, key) == value {
            assert(vendor::signals(d, key));
            assert(!vendor::full(d, before, key, set.cap()));
        }
        assert forall|c: CandidateView| c.groups is Some && group_value(c.groups->0, key) == value implies #[trigger] vendor::sharing(
            c,
            now,
            key,
        ) == holding(targets.take(n), key, value) by {
            assert(vendor::sharing(c, before, key) == holding(targets.take(n - 1), key, value));
        }
    } else {
        assert(targets.take(n) =~= Seq::empty());
        assert(set.members(p.chosen.take(n)) =~= Seq::empty());
    }
}

/// Concentration is capped: unless the cap on a kind of group was loosened, and so reported, no group
/// of that kind holds more targets than its share of the replicas, rounded up. A co-located cohort is
/// free to share a region.
pub proof fn lemma_no_group_exceeds_its_cap(
    pool: Seq<CandidateView>,
    spec: JobSpecView,
    graph: Option<LatencyModel>,
    seed: u32,
    scores: Seq<StaticScore>,
    m: spec_fn(Elementary, Binary64) -> Binary64,
    key: GroupKey,
    value: Seq<char>,
)
    requires
        pool.len() <= u32::MAX,
        forall|i: int| 0 <= i < pool.len() ==> (#[trigger] pool[i]).groups is Some,
        is_signal(key, value),
        !selection::selected(pool, spec, graph, seed, scores, m).relaxed.contains(key.name()),
        selection::colocates(spec) ==> key != GroupKey::Region,
    ensures
        ({
            let o = selection::selected(pool, spec, graph, seed, scores, m);
            let share = match spec.max_share {
                Some(s) => s,
                None => Binary64::fraction(34, 100),
            };
            holding(o.targets, key, value) <= vendor::group_cap(o.effective_k, share)
        }),
{
    lemma_ended(pool, spec, graph, seed, scores, m);
    let (set, p) = ended(pool, spec, graph, seed, scores, m);
    let relaxed = selection::relaxations(p.loosest, spec);
    assert(!selection::loosened(p.loosest, key, spec)) by {
        if selection::loosened(p.loosest, key, spec) {
            match key {
                GroupKey::Region => {
                    assert(relaxed[0] == "region"@);
                },
                GroupKey::Asn => {
                    assert(relaxed[1] == "asn"@);
                },
                GroupKey::Operator => {
                    assert(relaxed[2] == "operator"@);
                },
                GroupKey::Cluster => {},
            }
        }
    }
    let targets = set.outcome(p).targets;
    assert(targets.take(targets.len() as int) =~= targets);
    lemma_holding(set, p, key, value, targets.len() as int);
}

/// How many targets have a value of a group key among the given ones.
spec fn holding_any(targets: Seq<PlanTargetView>, key: GroupKey, values: Set<Seq<char>>) -> nat
    decreases targets.len(),
{
    if targets.len() == 0 {
        0
    } else {
        holding_any(targets.drop_last(), key, values) + if values.contains(group_value(targets.last().groups, key)) {
            1nat
        } else {
            0nat
        }
    }
}

/// The values of a group key that the targets have.
pub open spec fn values_held(targets: Seq<PlanTargetView>, key: GroupKey) -> Set<Seq<char>>
    decreases targets.len(),
{
    if targets.len() == 0 {
        Set::empty()
    } else {
        values_held(targets.drop_last(), key).insert(group_value(targets.last().groups, key))
    }
}

proof fn lemma_holding_any_split(targets: Seq<PlanTargetView>, key: GroupKey, values: Set<Seq<char>>, v: Seq<char>)
    requires
        values.contains(v),
    ensures
        holding_any(targets, key, values) == holding_any(targets, key, values.remove(v)) + holding(targets, key, v),
    decreases targets.len(),
{
    if targets.len() > 0 {
        lemma_holding_any_split(targets.drop_last(), key, values, v);
    }
}

proof fn lemma_holding_any_bounded(targets: Seq<PlanTargetView>, key: GroupKey, values: Set<Seq<char>>, cap: nat)
    requires
        values.finite(),
        forall|v: Seq<char>| #[trigger] holding(targets, key, v) <= cap,
    ensures
        holding_any(targets, key, values) <= cap * values.len(),
    decreases values.len(),
{
    if values.len() == 0 {
        assert(values =~= Set::empty());
        lemma_holding_none(targets, key);
        assert(cap * 0 == 0) by (nonlinear_arith);
    } else {
        let v = values.choose();
        lemma_holding_any_split(targets, key, values, v);
        lemma_holding_any_bounded(targets, key, values.remove(v), cap);
        assert(holding(targets, key, v) <= cap);
        let n = values.remove(v).len();
        assert(cap * (n + 1) == cap * n + cap) by (nonlinear_arith);
    }
}

proof fn lemma_holding_none(targets: Seq<PlanTargetView>, key: GroupKey)
    ensures
        holding_any(targets, key, Set::empty()) == 0,
    decreases targets.len(),
{
    if targets.len() > 0 {
        lemma_holding_none(targets.drop_last(), key);
    }
}

proof fn lemma_values_held(targets: Seq<PlanTargetView>, key: GroupKey, more: Set<Seq<char>>)
    requires
        values_held(targets, key).subset_of(more),
    ensures
        values_held(targets, key).finite(),
        holding_any(targets, key, more) == targets.len(),
    decreases targets.len(),
{
    if targets.len() > 0 {
        assert(values_held(targets, key).contains(group_value(targets.last().groups, key)));
        lemma_values_held(targets.drop_last(), key, more);
    }
}

/// Risk is spread over operators: unless the operator cap was loosened, a plan spans enough operators
/// that none of them holds more than its cap.
pub proof fn lemma_targets_span_operators(
    pool: Seq<CandidateView>,
    spec: JobSpecView,
    graph: Option<LatencyModel>,
    seed: u32,
    scores: Seq<StaticScore>,
    m: spec_fn(Elementary, Binary64) -> Binary64,
)
    requires
        pool.len() <= u32::MAX,
        forall|i: int| 0 <= i < pool.len() ==> (#[trigger] pool[i]).groups is Some,
        !selection::selected(pool, spec, graph, seed, scores, m).relaxed.contains("operator"@),
    ensures
        ({
            let o = selection::selected(pool, spec, graph, seed, scores, m);
            let share = match spec.max_share {
                Some(s) => s,
                None => Binary64::fraction(34, 100),
            };
            let operators = values_held(o.targets, GroupKey::Operator);
            &&& operators.finite()
            &&& o.targets.len() <= vendor::group_cap(o.effective_k, share) * operators.len()
        }),
{
    let o = selection::selected(pool, spec, graph, seed, scores, m);
    let share = match spec.max_share {
        Some(s) => s,
        None => Binary64::fraction(34, 100),
    };
    let cap = vendor::group_cap(o.effective_k, share);
    let operators = values_held(o.targets, GroupKey::Operator);
    assert forall|v: Seq<char>| #[trigger] holding(o.targets, GroupKey::Operator, v) <= cap as nat by {
        lemma_no_group_exceeds_its_cap(pool, spec, graph, seed, scores, m, GroupKey::Operator, v);
    }
    lemma_values_held(o.targets, GroupKey::Operator, operators);
    lemma_holding_any_bounded(o.targets, GroupKey::Operator, operators, cap as nat);
}

/// A short plan is short for a reason: every candidate is a target, or none that is left is admitted
/// even with every cap loosened that may be.
pub proof fn lemma_short_only_where_nothing_is_admitted(
    pool: Seq<CandidateView>,
    spec: JobSpecView,
    graph: Option<LatencyModel>,
    seed: u32,
    scores: Seq<StaticScore>,
    m: spec_fn(Elementary, Binary64) -> Binary64,
)
    requires
        pool.len() <= u32::MAX,
        selection::selected(pool, spec, graph, seed, scores, m).shortfall > 0,
    ensures
        ({
            let (set, p) = ended(pool, spec, graph, seed, scores, m);
            p.chosen.len() >= pool.len() || forall|i: int|
                0 <= i < pool.len() ==> !#[trigger] set.admits(p.chosen, 3, i)
        }),
{
    lemma_ended(pool, spec, graph, seed, scores, m);
    let (set, p) = ended(pool, spec, graph, seed, scores, m);
    if set.unfinished(p) {
        lemma_level_from(set, p.chosen, 0);
        assert(set.live(p.chosen, 3, set.pool.len()).len() == 0);
        assert forall|i: int| 0 <= i < pool.len() implies !#[trigger] set.admits(p.chosen, 3, i) by {
            if set.admits(p.chosen, 3, i) {
                lemma_live_complete(set, p.chosen, 3, set.pool.len(), i);
            }
        }
    }
}

/// Whether a host is among the targets.
pub open spec fn is_target(targets: Seq<PlanTargetView>, id: Seq<char>) -> bool {
    exists|r: int| 0 <= r < targets.len() && (#[trigger] targets[r]).node_id == id
}

/// Whether a host is among the rejected.
pub open spec fn is_rejected(rejected: Seq<RejectedHostView>, id: Seq<char>) -> bool {
    exists|k: int| 0 <= k < rejected.len() && (#[trigger] rejected[k]).node_id == id
}

proof fn lemma_rejected(set: Setting, p: Progress, n: nat)
    requires
        n <= set.pool.len(),
    ensures
        forall|k: int|
            0 <= k < set.rejected(p, n).len() ==> !set.taken(p.chosen, (#[trigger] set.rejected(p, n)[k]).node_id)
                && seq!["operator_dup"@, "group_cap"@, "benchmark_suspect"@, "low_score"@].contains(
                set.rejected(p, n)[k].reason,
            ),
        forall|i: int|
            0 <= i < n && !set.taken(p.chosen, (#[trigger] set.pool[i]).node_id) ==> exists|k: int|
                0 <= k < set.rejected(p, n).len() && (#[trigger] set.rejected(p, n)[k]).node_id == set.pool[i].node_id,
    decreases n,
{
    if n > 0 {
        lemma_rejected(set, p, (n - 1) as nat);
        let rest = set.rejected(p, (n - 1) as nat);
        let all = set.rejected(p, n);
        let reasons = seq!["operator_dup"@, "group_cap"@, "benchmark_suspect"@, "low_score"@];
        assert(reasons[0] == "operator_dup"@ && reasons[1] == "group_cap"@ && reasons[2] == "benchmark_suspect"@
            && reasons[3] == "low_score"@);
        assert(reasons.contains(set.reason(p.held, n - 1)));
        assert forall|k: int| 0 <= k < all.len() implies !set.taken(p.chosen, (#[trigger] all[k]).node_id)
            && reasons.contains(all[k].reason) by {
            if k < rest.len() {
                assert(all[k] == rest[k]);
            }
        }
        assert forall|i: int| 0 <= i < n && !set.taken(p.chosen, (#[trigger] set.pool[i]).node_id) implies exists|k: int|
            0 <= k < all.len() && (#[trigger] all[k]).node_id == set.pool[i].node_id by {
            if i < n - 1 {
                let k = choose|k: int| 0 <= k < rest.len() && (#[trigger] rest[k]).node_id == set.pool[i].node_id;
                assert(all[k] == rest[k]);
            } else {
                assert(all[all.len() - 1].node_id == set.pool[i].node_id);
            }
        }
    }
}

proof fn lemma_accounted(set: Setting, p: Progress, i: int)
    requires
        0 <= i < set.pool.len(),
    ensures
        is_target(set.outcome(p).targets, set.pool[i].node_id) <==> set.taken(p.chosen, set.pool[i].node_id),
        is_rejected(set.outcome(p).rejected, set.pool[i].node_id) <==> !set.taken(p.chosen, set.pool[i].node_id),
{
    let o = set.outcome(p);
    let id = set.pool[i].node_id;
    lemma_rejected(set, p, set.pool.len());
    if is_target(o.targets, id) {
        let r = choose|r: int| 0 <= r < o.targets.len() && (#[trigger] o.targets[r]).node_id == id;
        assert(o.targets[r] == set.target(p.chosen, r));
        assert(set.pool[p.chosen[r]].node_id == id);
    }
    if set.taken(p.chosen, id) {
        let r = choose|r: int| 0 <= r < p.chosen.len() && set.pool[#[trigger] p.chosen[r]].node_id == id;
        assert(o.targets[r] == set.target(p.chosen, r));
    }
    if is_rejected(o.rejected, id) {
        let k = choose|k: int| 0 <= k < o.rejected.len() && (#[trigger] o.rejected[k]).node_id == id;
        assert(!set.taken(p.chosen, set.rejected(p, set.pool.len())[k].node_id));
    }
    if !set.taken(p.chosen, id) {
        let all = set.rejected(p, set.pool.len());
        let k = choose|k: int| 0 <= k < all.len() && (#[trigger] all[k]).node_id == id;
        assert(o.rejected[k].node_id == id);
    }
}

/// Every candidate is accounted for: it is a target or it is rejected, never both.
pub proof fn lemma_every_candidate_is_accounted_for(
    pool: Seq<CandidateView>,
    spec: JobSpecView,
    graph: Option<LatencyModel>,
    seed: u32,
    scores: Seq<StaticScore>,
    m: spec_fn(Elementary, Binary64) -> Binary64,
    i: int,
)
    requires
        pool.len() <= u32::MAX,
        0 <= i < pool.len(),
    ensures
        is_target(selection::selected(pool, spec, graph, seed, scores, m).targets, pool[i].node_id) <==> !is_rejected(
            selection::selected(pool, spec, graph, seed, scores, m).rejected,
            pool[i].node_id,
        ),
{
    let (set, p) = ended(pool, spec, graph, seed, scores, m);
    lemma_accounted(set, p, i);
}

/// Each rejection names one of four reasons.
pub proof fn lemma_every_rejection_has_a_reason(
    pool: Seq<CandidateView>,
    spec: JobSpecView,
    graph: Option<LatencyModel>,
    seed: u32,
    scores: Seq<StaticScore>,
    m: spec_fn(Elementary, Binary64) -> Binary64,
    k: int,
)
    requires
        0 <= k < selection::selected(pool, spec, graph, seed, scores, m).rejected.len(),
    ensures
        seq!["operator_dup"@, "group_cap"@, "benchmark_suspect"@, "low_score"@].contains(
            selection::selected(pool, spec, graph, seed, scores, m).rejected[k].reason,
        ),
{
    let (set, p) = ended(pool, spec, graph, seed, scores, m);
    lemma_rejected(set, p, set.pool.len());
}

} // verus!
