//! Selection of hosts from a candidate pool.
//!
//! Greedy with live re-ranking: each round ranks the candidates that the group caps admit by their
//! score less the diversity penalty, and picks one. Where nothing is admissible the caps are
//! loosened one by one: region, then network, then operator.

use crate::api::{
    self, Cohort, Groups, GroupsView, JobSpec, JobSpecView, PlanTarget, PlanTargetView,
    RejectedHost, RejectedHostView, Selection,
};
use crate::binary64::Binary64;
use crate::candidate::{self, Candidate, CandidateView};
use crate::elementary::{self, Elementary};
use crate::latency::{self, LatencyModel, LatencyView};
use crate::notes::Notes;
use crate::order;
use crate::partition;
use crate::prng::{self, Mulberry32};
use crate::redundancy;
use crate::scorer::{self, StaticScore};
use crate::sorting;
use crate::text;
use crate::vendor::{self, Caps, GroupKey};
use vstd::prelude::*;
use vstd::relations::*;
use vstd::seq_lib::*;

verus! {

// ---- the model of a selection ----

/// What a selection works on.
pub struct Setting {
    pub pool: Seq<CandidateView>,
    pub spec: JobSpecView,
    pub graph: Option<LatencyModel>,
    /// The static score of each candidate.
    pub scores: Seq<StaticScore>,
    /// The replicas to place.
    pub count: int,
    pub m: spec_fn(Elementary, Binary64) -> Binary64,
}

/// How far a selection has come.
pub struct Progress {
    /// The picks, as positions in the pool.
    pub chosen: Seq<int>,
    /// The generator's state.
    pub rand: u32,
    /// The loosest level that a pick has used.
    pub loosest: int,
    /// For ids that the unrelaxed caps held back: whether the operator cap did.
    pub held: Map<Seq<char>, bool>,
}

/// The coefficient of the diversity penalty.
pub open spec fn penalty_weight(spec: JobSpecView) -> Binary64 {
    let w = scorer::normalized(scorer::raw_weights(spec)).w_d;
    if w.finite() {
        w
    } else {
        Binary64::fraction(15, 100)
    }
}

/// A static score from which live scores can be ranked: no NaN, and infinite only where the penalty,
/// which is at most twice its coefficient, stays finite.
pub open spec fn rankable(score: Binary64, spec: JobSpecView) -> bool {
    &&& !score.nan()
    &&& score == Binary64::infinity() ==> penalty_weight(spec).times(Binary64::fraction(2, 1)).finite()
}

pub open spec fn colocates(spec: JobSpecView) -> bool {
    spec.cohort == Some(Cohort::Colocate)
}

/// Whether the cap on a group is loosened at a level: the region cap from level 1 on, the network
/// cap from level 2 on, the operator cap at level 3. Replicas that are to be verified never share
/// an operator, and a co-located cohort is free to share a region.
pub open spec fn loosened(level: int, key: GroupKey, spec: JobSpecView) -> bool {
    match key {
        GroupKey::Region => level >= 1 || colocates(spec),
        GroupKey::Asn => level >= 2,
        GroupKey::Operator => level >= 3 && !redundancy::verifies(spec),
        GroupKey::Cluster => false,
    }
}

/// The keys whose caps are loosened at a level.
pub open spec fn loose_at(level: int, spec: JobSpecView) -> Set<GroupKey> {
    Set::new(|key: GroupKey| loosened(level, key, spec))
}

/// The first constraint that adding `c` would break, where the caps on some keys are loosened. A
/// candidate that is not tagged breaks none.
pub open spec fn gated(
    c: CandidateView,
    chosen: Seq<CandidateView>,
    caps: Caps,
    loose: Set<GroupKey>,
) -> Option<GroupKey> {
    if c.groups is None {
        None
    } else if caps.require_distinct_operator && vendor::sharing(c, chosen, GroupKey::Operator) > 0 {
        Some(GroupKey::Operator)
    } else if binds(c, chosen, caps, loose, GroupKey::Operator) {
        Some(GroupKey::Operator)
    } else if binds(c, chosen, caps, loose, GroupKey::Asn) {
        Some(GroupKey::Asn)
    } else if binds(c, chosen, caps, loose, GroupKey::Region) {
        Some(GroupKey::Region)
    } else if binds(c, chosen, caps, loose, GroupKey::Cluster) {
        Some(GroupKey::Cluster)
    } else {
        None
    }
}

/// The group is at its cap, and the cap is in force.
pub open spec fn binds(
    c: CandidateView,
    chosen: Seq<CandidateView>,
    caps: Caps,
    loose: Set<GroupKey>,
    key: GroupKey,
) -> bool {
    !loose.contains(key) && vendor::signals(c, key) && vendor::full(c, chosen, key, caps.per_group)
}

impl Setting {
    /// The picks as candidates.
    pub open spec fn members(self, chosen: Seq<int>) -> Seq<CandidateView> {
        chosen.map_values(|i: int| self.pool[i])
    }

    /// A pick carries the id.
    pub open spec fn taken(self, chosen: Seq<int>, id: Seq<char>) -> bool {
        exists|j: int| 0 <= j < chosen.len() && self.pool[#[trigger] chosen[j]].node_id == id
    }

    /// The most members of one group.
    pub open spec fn cap(self) -> u32 {
        vendor::group_cap(
            self.count as u32,
            match self.spec.max_share {
                Some(s) => s,
                None => Binary64::fraction(34, 100),
            },
        ) as u32
    }

    /// The caps on groups.
    pub open spec fn caps(self) -> Caps {
        Caps { per_group: self.cap(), require_distinct_operator: redundancy::verifies(self.spec) }
    }

    /// The first cap that keeps a candidate out at a level.
    pub open spec fn gate(self, c: CandidateView, chosen: Seq<CandidateView>, level: int) -> Option<GroupKey> {
        gated(c, chosen, self.caps(), loose_at(level, self.spec))
    }

    /// The score of a candidate, less the diversity penalty, plus the cohort bonus.
    pub open spec fn live_score(self, chosen: Seq<int>, i: int) -> Binary64 {
        let members = self.members(chosen);
        self.scores[i].score.minus(
            penalty_weight(self.spec).times(vendor::penalty(self.pool[i], members, self.spec)),
        ).plus(cohort_bonus(self.pool[i], members, self.spec, self.graph))
    }

    /// A candidate that may be picked.
    pub open spec fn admits(self, chosen: Seq<int>, level: int, i: int) -> bool {
        !self.taken(chosen, self.pool[i].node_id) && self.gate(self.pool[i], self.members(chosen), level) is None
    }

    /// The candidates among the first `n` that may be picked, with their live scores.
    pub open spec fn live(self, chosen: Seq<int>, level: int, n: nat) -> Seq<(int, Binary64)>
        decreases n,
    {
        if n == 0 {
            Seq::empty()
        } else {
            let rest = self.live(chosen, level, (n - 1) as nat);
            if self.admits(chosen, level, n - 1) {
                rest.push((n - 1, self.live_score(chosen, n - 1)))
            } else {
                rest
            }
        }
    }

    /// Higher scores first, then smaller ids, then earlier positions.
    pub open spec fn ranks(self) -> spec_fn((int, Binary64), (int, Binary64)) -> bool {
        |a: (int, Binary64), b: (int, Binary64)| self.ranks_before(a, b)
    }

    pub open spec fn ranks_before(self, a: (int, Binary64), b: (int, Binary64)) -> bool {
        let x = self.pool[a.0].node_id;
        let y = self.pool[b.0].node_id;
        ||| a.1.value() > b.1.value()
        ||| a.1.value() == b.1.value() && text::lex_less(x, y)
        ||| a.1.value() == b.1.value() && x == y && a.0 < b.0
        ||| a.1.value() == b.1.value() && x == y && a.0 == b.0 && a.1.bits <= b.1.bits
    }

    pub open spec fn ranked(self, chosen: Seq<int>, level: int) -> Seq<(int, Binary64)> {
        self.live(chosen, level, self.pool.len()).sort_by(self.ranks())
    }

    /// The pick from a ranking, and the generator's state after it.
    pub open spec fn pick(self, ranking: Seq<(int, Binary64)>, rand: u32) -> (int, u32) {
        if self.spec.selection == Some(Selection::Weighted) {
            let weights = softmax_weights(ranking, self.spec, self.m);
            let (i, s) = sampled(weights, rand);
            (ranking[i].0, s)
        } else {
            let ties = near_ties(ranking, tie_window(self.spec), ranking.len());
            if ties.len() > 1 {
                let s = prng::advance(rand);
                (ties[prng::drawn(s).times(Binary64::fraction(ties.len() as int, 1)).floor()], s)
            } else {
                (ranking[0].0, rand)
            }
        }
    }

    /// The first level from `level` on at which something may be picked.
    pub open spec fn level_from(self, chosen: Seq<int>, level: int) -> Option<int>
        decreases 4 - level,
    {
        if level > 3 {
            None
        } else if self.live(chosen, level, self.pool.len()).len() > 0 {
            Some(level)
        } else {
            self.level_from(chosen, level + 1)
        }
    }

    /// The ids among the first `n` candidates that the unrelaxed caps hold back, added to those
    /// already known.
    pub open spec fn noted(self, chosen: Seq<int>, held: Map<Seq<char>, bool>, n: nat) -> Map<Seq<char>, bool>
        decreases n,
    {
        if n == 0 {
            held
        } else {
            let known = self.noted(chosen, held, (n - 1) as nat);
            let c = self.pool[n - 1];
            let g = self.gate(c, self.members(chosen), 0);
            if !self.taken(chosen, c.node_id) && g is Some && !known.contains_key(c.node_id) {
                known.insert(c.node_id, g == Some(GroupKey::Operator))
            } else {
                known
            }
        }
    }

    /// More picks are wanted and there is something left to pick from.
    pub open spec fn unfinished(self, p: Progress) -> bool {
        p.chosen.len() < self.count && p.chosen.len() < self.pool.len()
    }

    /// The selection carried through from a state.
    pub open spec fn run(self, p: Progress) -> Progress
        decreases self.count - p.chosen.len(),
    {
        if self.unfinished(p) {
            let held = self.noted(p.chosen, p.held, self.pool.len());
            match self.level_from(p.chosen, 0) {
                Some(level) => {
                    let (i, rand) = self.pick(self.ranked(p.chosen, level), p.rand);
                    self.run(
                        Progress {
                            chosen: p.chosen.push(i),
                            rand,
                            loosest: if level > p.loosest { level } else { p.loosest },
                            held: held.remove(self.pool[i].node_id),
                        },
                    )
                },
                None => Progress { held, ..p },
            }
        } else {
            p
        }
    }

    pub open spec fn start(self, seed: u32) -> Progress {
        Progress { chosen: Seq::empty(), rand: seed, loosest: 0, held: Map::empty() }
    }

    /// The reason why a candidate that is not among the picks was left out.
    pub open spec fn reason(self, held: Map<Seq<char>, bool>, i: int) -> Seq<char> {
        let id = self.pool[i].node_id;
        if held.contains_key(id) {
            if held[id] {
                "operator_dup"@
            } else {
                "group_cap"@
            }
        } else if self.scores[i].benchmark_suspect {
            "benchmark_suspect"@
        } else {
            "low_score"@
        }
    }

    /// The rejected among the first `n` candidates.
    pub open spec fn rejected(self, p: Progress, n: nat) -> Seq<RejectedHostView>
        decreases n,
    {
        if n == 0 {
            Seq::empty()
        } else {
            let rest = self.rejected(p, (n - 1) as nat);
            let id = self.pool[n - 1].node_id;
            if self.taken(p.chosen, id) {
                rest
            } else {
                rest.push(RejectedHostView { node_id: id, reason: self.reason(p.held, n - 1) })
            }
        }
    }

    /// The target for the `replica`-th pick.
    pub open spec fn target(self, chosen: Seq<int>, replica: int) -> PlanTargetView {
        let i = chosen[replica];
        let c = self.pool[i];
        let s = self.scores[i];
        PlanTargetView {
            node_id: c.node_id,
            score: s.score,
            rtt_ms: c.rtt_ms,
            bench_fit: s.parts.bench_fit,
            trust: s.parts.trust,
            groups: match c.groups {
                Some(g) => g,
                None => GroupsView { operator: c.node_id, asn: vendor::UNKNOWN@, region: "r?"@, cluster: c.node_id },
            },
            replica: replica as u32,
        }
    }

    /// What the selection reports.
    pub open spec fn outcome(self, p: Progress) -> SelectOutcomeView {
        SelectOutcomeView {
            targets: Seq::new(p.chosen.len(), |r: int| self.target(p.chosen, r)),
            relaxed: relaxations(p.loosest, self.spec),
            shortfall: (if p.chosen.len() < self.count { self.count - p.chosen.len() } else { 0 }) as u32,
            rejected: self.rejected(p, self.pool.len()),
            effective_k: self.count as u32,
        }
    }
}

/// The names of the caps that were loosened.
pub open spec fn relaxations(loosest: int, spec: JobSpecView) -> Seq<Seq<char>> {
    let region = if loosest >= 1 { seq!["region"@] } else { seq![] };
    let asn = if loosest >= 2 { seq!["asn"@] } else { seq![] };
    let operator = if loosest >= 3 && !redundancy::verifies(spec) { seq!["operator"@] } else { seq![] };
    region + asn + operator
}

/// The sum of the finite predicted RTTs to the members, and how many there are.
pub open spec fn cohort_rtt(c: CandidateView, members: Seq<CandidateView>, graph: LatencyModel) -> (Binary64, int)
    decreases members.len(),
{
    if members.len() == 0 {
        (Binary64::zero(), 0)
    } else {
        let (sum, n) = cohort_rtt(c, members.drop_last(), graph);
        let rtt = (graph.predicted)(c.node_id, members.last().node_id);
        if rtt.finite() {
            (sum.plus(rtt), n + 1)
        } else {
            (sum, n)
        }
    }
}

/// A member is in the region.
pub open spec fn region_used(region: Seq<char>, members: Seq<CandidateView>) -> bool {
    exists|i: int| 0 <= i < members.len() && match (#[trigger] members[i]).groups {
        Some(g) => g.region == region,
        None => false,
    }
}

/// The cohort bonus: up to 0.15 for being near the members of a co-located cohort, else 0.05 for a
/// region that no member is in.
pub open spec fn cohort_bonus(
    c: CandidateView,
    members: Seq<CandidateView>,
    spec: JobSpecView,
    graph: Option<LatencyModel>,
) -> Binary64 {
    if members.len() == 0 {
        Binary64::zero()
    } else if colocates(spec) {
        match graph {
            Some(g) => {
                let (sum, n) = cohort_rtt(c, members, g);
                let cap = scorer::positive_or(spec.rtt_soft_cap_ms, Binary64::fraction(250, 1));
                if n == 0 {
                    Binary64::zero()
                } else {
                    Binary64::fraction(15, 100).times(
                        Binary64::one().minus(sum.over(Binary64::fraction(n, 1)).over(cap)).clamped(),
                    )
                }
            },
            None => Binary64::zero(),
        }
    } else {
        match c.groups {
            Some(g) => if g.region.len() == 0 || !vendor::region_is_real(g.region) || region_used(g.region, members) {
                Binary64::zero()
            } else {
                Binary64::fraction(5, 100)
            },
            None => Binary64::zero(),
        }
    }
}

/// The window within which scores tie with the best.
pub open spec fn tie_window(spec: JobSpecView) -> Binary64 {
    match spec.tie_eps {
        Some(e) => if e.finite() { e } else { Binary64::fraction(2, 100) },
        None => Binary64::fraction(2, 100),
    }
}

/// The positions among the first `n` of a ranking whose score is within the window of the best.
pub open spec fn near_ties(ranking: Seq<(int, Binary64)>, window: Binary64, n: nat) -> Seq<int>
    decreases n,
{
    if n == 0 {
        Seq::empty()
    } else {
        let rest = near_ties(ranking, window, (n - 1) as nat);
        if ranking[0].1.minus(ranking[n - 1].1).at_most(window) {
            rest.push(ranking[n - 1].0)
        } else {
            rest
        }
    }
}

/// The greatest score.
pub open spec fn top_score(ranking: Seq<(int, Binary64)>) -> Binary64
    decreases ranking.len(),
{
    if ranking.len() == 0 {
        Binary64::negative_infinity()
    } else {
        let top = top_score(ranking.drop_last());
        if top.less(ranking.last().1) {
            ranking.last().1
        } else {
            top
        }
    }
}

/// The softmax temperature.
pub open spec fn temperature(spec: JobSpecView) -> Binary64 {
    scorer::positive_or(spec.temperature, Binary64::fraction(15, 100))
}

/// `exp((score - top) / temperature)` for each score.
pub open spec fn softmax_weights(
    ranking: Seq<(int, Binary64)>,
    spec: JobSpecView,
    m: spec_fn(Elementary, Binary64) -> Binary64,
) -> Seq<Binary64> {
    ranking.map_values(
        |x: (int, Binary64)| m(Elementary::Exp, x.1.minus(top_score(ranking)).over(temperature(spec))),
    )
}

pub open spec fn total_weight(weights: Seq<Binary64>) -> Binary64
    decreases weights.len(),
{
    if weights.len() == 0 {
        Binary64::zero()
    } else {
        total_weight(weights.drop_last()).plus(weights.last())
    }
}

/// The first position from `i` on at which taking off the weights uses up `x`; the last position
/// where none does.
pub open spec fn used_up(weights: Seq<Binary64>, x: Binary64, i: int) -> int
    decreases weights.len() - i,
{
    if i >= weights.len() {
        weights.len() - 1
    } else {
        let y = x.minus(weights[i]);
        if y.at_most(Binary64::zero()) {
            i
        } else {
            used_up(weights, y, i + 1)
        }
    }
}

/// The position that is sampled in proportion to the weights, and the generator's state after it.
/// Without a positive total weight it is the first, and nothing is drawn.
pub open spec fn sampled(weights: Seq<Binary64>, rand: u32) -> (int, u32) {
    let total = total_weight(weights);
    if Binary64::zero().less(total) {
        let s = prng::advance(rand);
        (used_up(weights, prng::drawn(s).times(total), 0), s)
    } else {
        (0, rand)
    }
}

/// What a selection hands back.
#[derive(Debug, Clone)]
pub struct SelectOutcome {
    pub targets: Vec<PlanTarget>,
    /// Independence relaxations applied, in the order `region`, `asn`, `operator`.
    pub relaxed: Vec<String>,
    /// Missing replicas.
    pub shortfall: u32,
    pub rejected: Vec<RejectedHost>,
    /// The replicas that the selection aimed for.
    pub effective_k: u32,
}

/// What a [`SelectOutcome`] holds.
pub struct SelectOutcomeView {
    pub targets: Seq<PlanTargetView>,
    pub relaxed: Seq<Seq<char>>,
    pub shortfall: u32,
    pub rejected: Seq<RejectedHostView>,
    pub effective_k: u32,
}

impl View for SelectOutcome {
    type V = SelectOutcomeView;

    open spec fn view(&self) -> SelectOutcomeView {
        SelectOutcomeView {
            targets: self.targets@.map_values(|x: PlanTarget| x@),
            relaxed: text::texts(self.relaxed@),
            shortfall: self.shortfall,
            rejected: self.rejected@.map_values(|x: RejectedHost| x@),
            effective_k: self.effective_k,
        }
    }
}

// ---- sampling ----

/// Samples a position in proportion to the weights.
pub fn sample_index(weights: &Vec<Binary64>, rand: &mut Mulberry32) -> (r: usize)
    requires
        weights.len() > 0,
    ensures
        (r as int, final(rand)@) == sampled(weights@, old(rand)@),
        r < weights.len(),
{
    let zero = Binary64 { bits: 0 };
    let mut total = zero;
    for i in 0..weights.len()
        invariant
            total == total_weight(weights@.take(i as int)),
    {
        proof {
            assert(weights@.take(i + 1).drop_last() =~= weights@.take(i as int));
        }
        total = total.add(weights[i]);
    }
    proof {
        assert(weights@.take(weights.len() as int) =~= weights@);
    }
    if !zero.lt(total) {
        return 0;
    }
    let mut x = rand.next().mul(total);
    let ghost first = x;
    let mut i: usize = 0;
    while i < weights.len()
        invariant
            i <= weights.len(),
            zero == Binary64::zero(),
            total == total_weight(weights@),
            zero.less(total),
            rand@ == prng::advance(old(rand)@),
            first == prng::drawn(rand@).times(total),
            used_up(weights@, first, 0) == used_up(weights@, x, i as int),
        decreases weights.len() - i,
    {
        x = x.sub(weights[i]);
        if x.le(zero) {
            return i;
        }
        i = i + 1;
    }
    weights.len() - 1
}

/// A ranking with positions as mathematical integers.
pub open spec fn positions(s: Seq<(usize, Binary64)>) -> Seq<(int, Binary64)> {
    s.map_values(|x: (usize, Binary64)| (x.0 as int, x.1))
}

/// Samples a position of a ranking by the softmax of its scores.
fn softmax_sample<M: Fn(Elementary, Binary64) -> Binary64>(
    ranking: &Vec<(usize, Binary64)>,
    spec: &JobSpec,
    rand: &mut Mulberry32,
    math: &M,
) -> (r: usize)
    requires
        ranking.len() > 0,
        elementary::steady(*math),
    ensures
        (r as int, final(rand)@) == sampled(
            softmax_weights(positions(ranking@), spec@, elementary::answers(*math)),
            old(rand)@,
        ),
        r < ranking.len(),
{
    let ghost all = positions(ranking@);
    let ghost m = elementary::answers(*math);
    let t = scorer::pos_or(spec.temperature, Binary64::ratio(15, 100));
    let mut top = Binary64 { bits: 0xfff0_0000_0000_0000 };
    for i in 0..ranking.len()
        invariant
            all == positions(ranking@),
            top == top_score(all.take(i as int)),
    {
        proof {
            assert(all.take(i + 1).drop_last() =~= all.take(i as int));
            assert(all.take(i + 1).last() == all[i as int]);
        }
        if top.lt(ranking[i].1) {
            top = ranking[i].1;
        }
    }
    proof {
        assert(all.take(ranking.len() as int) =~= all);
    }
    let mut weights: Vec<Binary64> = Vec::new();
    for i in 0..ranking.len()
        invariant
            all == positions(ranking@),
            m == elementary::answers(*math),
            elementary::steady(*math),
            top == top_score(all),
            t == temperature(spec@),
            weights.len() == i,
            forall|j: int| 0 <= j < i ==> #[trigger] weights@[j] == softmax_weights(all, spec@, m)[j],
    {
        weights.push(elementary::ask(math, Elementary::Exp, ranking[i].1.sub(top).div(t)));
    }
    proof {
        assert(weights@ =~= softmax_weights(all, spec@, m));
    }
    sample_index(&weights, rand)
}

// ---- ranking ----

/// The ranking relation is a total order.
pub proof fn lemma_ranks_total(set: Setting)
    ensures
        total_ordering(set.ranks()),
{
    let leq = set.ranks();
    assert forall|a: (int, Binary64), b: (int, Binary64)| #[trigger] leq(a, b) && #[trigger] leq(b, a) implies a
        == b by {
        text::lemma_lex_asymmetric(set.pool[a.0].node_id, set.pool[b.0].node_id);
        text::lemma_lex_irreflexive(set.pool[a.0].node_id);
        assert(a.1.bits == b.1.bits);
    }
    assert forall|a: (int, Binary64), b: (int, Binary64)| #[trigger] leq(a, b) || #[trigger] leq(b, a) by {
        text::lemma_lex_total(set.pool[a.0].node_id, set.pool[b.0].node_id);
    }
    assert forall|a: (int, Binary64), b: (int, Binary64), c: (int, Binary64)| #[trigger]
        leq(a, b) && #[trigger] leq(b, c) implies leq(a, c) by {
        let x = set.pool[a.0].node_id;
        let y = set.pool[b.0].node_id;
        let z = set.pool[c.0].node_id;
        if text::lex_less(x, y) && text::lex_less(y, z) {
            text::lemma_lex_transitive(x, y, z);
        }
    }
}

/// Whether `a` ranks at or before `b`.
fn ranks_first(pool: &Vec<Candidate>, a: (usize, Binary64), b: (usize, Binary64), set: Ghost<Setting>) -> (r: bool)
    requires
        candidate::pool_view(pool@) == set@.pool,
        a.0 < pool.len(),
        b.0 < pool.len(),
        !a.1.nan(),
        !b.1.nan(),
    ensures
        r == set@.ranks_before((a.0 as int, a.1), (b.0 as int, b.1)),
{
    proof {
        assert(set@.pool[a.0 as int] == pool@[a.0 as int]@);
        assert(set@.pool[b.0 as int] == pool@[b.0 as int]@);
    }
    if b.1.lt(a.1) {
        true
    } else if a.1.lt(b.1) {
        false
    } else if text::before(pool[a.0].node_id.as_str(), pool[b.0].node_id.as_str()) {
        true
    } else if pool[a.0].node_id == pool[b.0].node_id {
        proof {
            text::lemma_lex_irreflexive(pool@[a.0 as int]@.node_id);
        }
        a.0 < b.0 || (a.0 == b.0 && a.1.bits <= b.1.bits)
    } else {
        false
    }
}

/// Sorts a live list into a ranking.
fn rank(live: &Vec<(usize, Binary64)>, pool: &Vec<Candidate>, set: Ghost<Setting>) -> (r: Vec<(usize, Binary64)>)
    requires
        candidate::pool_view(pool@) == set@.pool,
        forall|i: int| 0 <= i < live.len() ==> (#[trigger] live@[i]).0 < pool.len() && !live@[i].1.nan(),
    ensures
        positions(r@) == positions(live@).sort_by(set@.ranks()),
        r.len() == live.len(),
        forall|i: int| 0 <= i < r.len() ==> (#[trigger] r@[i]).0 < pool.len(),
{
    let ghost leq = set@.ranks();
    proof {
        lemma_ranks_total(set@);
    }
    let mut r: Vec<(usize, Binary64)> = Vec::new();
    proof {
        assert(positions(r@) =~= positions(live@).take(0));
    }
    for n in 0..live.len()
        invariant
            leq == set@.ranks(),
            total_ordering(leq),
            candidate::pool_view(pool@) == set@.pool,
            forall|i: int| 0 <= i < live.len() ==> (#[trigger] live@[i]).0 < pool.len() && !live@[i].1.nan(),
            r.len() == n,
            forall|i: int| 0 <= i < r.len() ==> (#[trigger] r@[i]).0 < pool.len() && !r@[i].1.nan(),
            sorted_by(positions(r@), leq),
            positions(r@).to_multiset() == positions(live@).take(n as int).to_multiset(),
    {
        let x = live[n];
        let ghost item = (x.0 as int, x.1);
        let ghost before = positions(r@);
        let mut i: usize = 0;
        while i < r.len() && ranks_first(pool, r[i], x, set)
            invariant
                i <= r.len(),
                candidate::pool_view(pool@) == set@.pool,
                x.0 < pool.len(),
                !x.1.nan(),
                item == (x.0 as int, x.1),
                leq == set@.ranks(),
                before == positions(r@),
                forall|k: int| 0 <= k < r.len() ==> (#[trigger] r@[k]).0 < pool.len() && !r@[k].1.nan(),
                forall|k: int| 0 <= k < i ==> leq(#[trigger] before[k], item),
            decreases r.len() - i,
        {
            proof {
                assert(before[i as int] == (r@[i as int].0 as int, r@[i as int].1));
            }
            i = i + 1;
        }
        proof {
            if i < r.len() {
                assert(before[i as int] == (r@[i as int].0 as int, r@[i as int].1));
                assert(!leq(before[i as int], item));
                assert(leq(item, before[i as int]));
            }
        }
        r.insert(i, x);
        proof {
            assert(positions(r@) =~= before.insert(i as int, item));
            sorting::lemma_insert_sorted(before, item, i as int, leq);
            to_multiset_insert(before, i as int, item);
            assert(positions(live@).take(n + 1) =~= positions(live@).take(n as int).push(item));
            to_multiset_build(positions(live@).take(n as int), item);
        }
    }
    proof {
        assert(positions(live@).take(live.len() as int) =~= positions(live@));
        positions(live@).lemma_sort_by_ensures(leq);
        lemma_sorted_unique(positions(r@), positions(live@).sort_by(leq), leq);
    }
    r
}

// ---- scores that can be ranked ----

/// The coefficient of the penalty is finite and not negative.
pub proof fn lemma_penalty_weight(spec: JobSpecView)
    ensures
        penalty_weight(spec).finite(),
        penalty_weight(spec).value() >= 0,
{
    order::lemma_constants();
    order::lemma_fraction_at_most_one(10, 100);
    order::lemma_fraction_at_most_one(15, 100);
}

/// The total of recent counts is at least each positive count.
proof fn lemma_recent_total(recent: Seq<(Seq<char>, Binary64)>, i: int)
    requires
        0 <= i < recent.len(),
    ensures
        !vendor::recent_total(recent).nan(),
        vendor::recent_total(recent).infinite() ==> !vendor::recent_total(recent).negative(),
        recent[i].1.positive() ==> recent[i].1.at_most(vendor::recent_total(recent)),
    decreases recent.len(),
{
    let rest = recent.drop_last();
    let t = vendor::recent_total(rest);
    let last = recent.last().1;
    order::lemma_constants();
    if rest.len() > 0 {
        lemma_recent_total(rest, if i < rest.len() { i } else { 0 });
    }
    lemma_recent_total_nonnegative(rest);
    if last.positive() {
        order::lemma_plus_nonnegative(t, last);
        order::lemma_plus_commutes(t, last);
        order::lemma_plus_nonnegative(last, t);
    }
}

proof fn lemma_recent_total_nonnegative(recent: Seq<(Seq<char>, Binary64)>)
    ensures
        Binary64::zero().at_most(vendor::recent_total(recent)),
        vendor::recent_total(recent).infinite() ==> !vendor::recent_total(recent).negative(),
    decreases recent.len(),
{
    order::lemma_constants();
    if recent.len() > 0 {
        let rest = recent.drop_last();
        lemma_recent_total_nonnegative(rest);
        if recent.last().1.positive() {
            order::lemma_plus_nonnegative(vendor::recent_total(rest), recent.last().1);
        }
    }
}

proof fn lemma_lookup(recent: Seq<(Seq<char>, Binary64)>, key: Seq<char>)
    ensures
        api::lookup(recent, key) is Some ==> exists|i: int|
            0 <= i < recent.len() && (#[trigger] recent[i]).1 == api::lookup(recent, key)->0,
    decreases recent.len(),
{
    if recent.len() > 0 {
        if recent[0].0 == key {
            assert(recent[0].1 == api::lookup(recent, key)->0);
        } else {
            lemma_lookup(recent.drop_first(), key);
            if api::lookup(recent, key) is Some {
                let i = choose|i: int|
                    0 <= i < recent.drop_first().len() && (#[trigger] recent.drop_first()[i]).1 == api::lookup(
                        recent,
                        key,
                    )->0;
                assert(recent[i + 1].1 == api::lookup(recent, key)->0);
            }
        }
    }
}

pub proof fn lemma_sharing_any_bounded(c: CandidateView, chosen: Seq<CandidateView>)
    ensures
        vendor::sharing_any(c, chosen) <= chosen.len(),
    decreases chosen.len(),
{
    if chosen.len() > 0 {
        lemma_sharing_any_bounded(c, chosen.drop_last());
    }
}

/// Both loads lie in `[0, 1]`.
pub proof fn lemma_loads(c: CandidateView, chosen: Seq<CandidateView>, spec: JobSpecView)
    requires
        chosen.len() <= u32::MAX,
    ensures
        vendor::group_load(c, chosen).finite(),
        0 <= vendor::group_load(c, chosen).value() <= Binary64::one().value(),
        vendor::recent_load(c, spec).finite(),
        0 <= vendor::recent_load(c, spec).value() <= Binary64::one().value(),
{
    order::lemma_constants();
    if chosen.len() > 0 {
        let any = vendor::sharing_any(c, chosen) as int;
        let n = chosen.len() as int;
        lemma_sharing_any_bounded(c, chosen);
        order::lemma_whole_number(any);
        order::lemma_whole_number(n);
        let u = crate::binary64::one_unit();
        vstd::arithmetic::mul::lemma_mul_inequality(any, n, u);
        vstd::arithmetic::mul::lemma_mul_strictly_positive(n, u);
        vstd::arithmetic::mul::lemma_mul_nonnegative(any, u);
        order::lemma_over_at_most_one(Binary64::fraction(any, 1), Binary64::fraction(n, 1));
    }
    match spec.recent_placements {
        Some(recent) => {
            let operator = match c.groups {
                Some(g) => g.operator,
                None => vendor::operator_of(c),
            };
            lemma_lookup(recent, operator);
            match api::lookup(recent, operator) {
                Some(mine) => {
                    let i = choose|i: int| 0 <= i < recent.len() && (#[trigger] recent[i]).1 == mine;
                    lemma_recent_total(recent, i);
                    if Binary64::zero().less(vendor::recent_total(recent)) && mine.positive() {
                        order::lemma_over_at_most_one(mine, vendor::recent_total(recent));
                    }
                },
                None => {},
            }
        },
        None => {},
    }
}

/// The penalty lies in `[0, 2]`.
pub proof fn lemma_penalty(c: CandidateView, chosen: Seq<CandidateView>, spec: JobSpecView)
    requires
        chosen.len() <= u32::MAX,
    ensures
        vendor::penalty(c, chosen, spec).finite(),
        0 <= vendor::penalty(c, chosen, spec).value() <= 2 * Binary64::one().value(),
{
    let a = vendor::group_load(c, chosen);
    let b = vendor::recent_load(c, spec);
    let u = crate::binary64::one_unit();
    order::lemma_constants();
    lemma_loads(c, chosen, spec);
    order::lemma_plus(a, b);
    order::lemma_whole_number(2);
    let two = Binary64::fraction(2, 1);
    order::lemma_rounded_grows(0, 1, a.value() + b.value(), 1);
    order::lemma_rounded_exact(Binary64::zero(), 1);
    order::lemma_rounded_grows(a.value() + b.value(), 1, two.value(), 1);
    order::lemma_rounded_exact(two, 1);
    order::lemma_finite_bounds(two);
    order::lemma_finite_bounds(a.plus(b));
}

/// The cohort bonus lies between zero and 0.15.
pub proof fn lemma_cohort_bonus(
    c: CandidateView,
    members: Seq<CandidateView>,
    spec: JobSpecView,
    graph: Option<LatencyModel>,
)
    ensures
        cohort_bonus(c, members, spec, graph).finite(),
        cohort_bonus(c, members, spec, graph).value() >= 0,
        cohort_bonus(c, members, spec, graph).at_most(Binary64::fraction(15, 100)),
{
    order::lemma_constants();
    order::lemma_fraction_at_most_one(5, 100);
    order::lemma_fraction_at_most_one(15, 100);
    order::lemma_fraction_ordered(5, 100, 15, 100);
    let x = Binary64::fraction(15, 100);
    if members.len() > 0 && colocates(spec) && graph is Some {
        let g = graph->0;
        let (sum, n) = cohort_rtt(c, members, g);
        let cap = scorer::positive_or(spec.rtt_soft_cap_ms, Binary64::fraction(250, 1));
        let y = Binary64::one().minus(sum.over(Binary64::fraction(n, 1)).over(cap)).clamped();
        order::lemma_clamped(Binary64::one().minus(sum.over(Binary64::fraction(n, 1)).over(cap)));
        order::lemma_times_shrinks(x, y);
        order::lemma_finite_bounds(x);
        order::lemma_finite_bounds(x.times(y));
    }
}

/// Where twice the coefficient is finite, so is the weighted penalty.
pub proof fn lemma_penalty_stays_finite(c: CandidateView, chosen: Seq<CandidateView>, spec: JobSpecView)
    requires
        chosen.len() <= u32::MAX,
    ensures
        penalty_weight(spec).times(Binary64::fraction(2, 1)).finite() ==> penalty_weight(spec).times(
            vendor::penalty(c, chosen, spec),
        ).finite(),
{
    let w = penalty_weight(spec);
    let p = vendor::penalty(c, chosen, spec);
    let two = Binary64::fraction(2, 1);
    lemma_penalty_weight(spec);
    lemma_penalty(c, chosen, spec);
    order::lemma_constants();
    order::lemma_whole_number(2);
    order::lemma_times(w, p);
    order::lemma_times(w, two);
    order::lemma_times_grows(p, two, w);
    order::lemma_finite_bounds(w.times(p));
    order::lemma_finite_bounds(w.times(two));
}

/// A live score of a rankable static score is no NaN.
pub proof fn lemma_live_score(set: Setting, chosen: Seq<int>, i: int)
    requires
        rankable(set.scores[i].score, set.spec),
        chosen.len() <= u32::MAX,
    ensures
        !set.live_score(chosen, i).nan(),
{
    let members = set.members(chosen);
    let c = set.pool[i];
    let w = penalty_weight(set.spec);
    let p = vendor::penalty(c, members, set.spec);
    let s = set.scores[i].score;
    lemma_penalty_weight(set.spec);
    lemma_penalty(c, members, set.spec);
    order::lemma_constants();
    order::lemma_times(w, p);
    lemma_penalty_stays_finite(c, members, set.spec);
    lemma_cohort_bonus(c, members, set.spec, set.graph);
    order::lemma_adjusted(s, w.times(p), cohort_bonus(c, members, set.spec, set.graph));
}

// ---- a round ----

/// The picks of a selection in progress.
fn member_refs<'a>(pool: &'a Vec<Candidate>, chosen: &Vec<usize>, set: Ghost<Setting>) -> (r: Vec<&'a Candidate>)
    requires
        candidate::pool_view(pool@) == set@.pool,
        forall|i: int| 0 <= i < chosen.len() ==> #[trigger] chosen@[i] < pool.len(),
    ensures
        vendor::chosen_view(r@) == set@.members(partition::indices(chosen@)),
        r.len() == chosen.len(),
{
    let mut r: Vec<&Candidate> = Vec::new();
    for i in 0..chosen.len()
        invariant
            candidate::pool_view(pool@) == set@.pool,
            forall|j: int| 0 <= j < chosen.len() ==> #[trigger] chosen@[j] < pool.len(),
            r.len() == i,
            forall|j: int| 0 <= j < i ==> (#[trigger] r@[j])@ == set@.pool[chosen@[j] as int],
    {
        r.push(&pool[chosen[i]]);
    }
    proof {
        assert(vendor::chosen_view(r@) =~= set@.members(partition::indices(chosen@)));
    }
    r
}

/// Whether a pick carries the id.
fn is_taken(pool: &Vec<Candidate>, chosen: &Vec<usize>, id: &String, set: Ghost<Setting>) -> (r: bool)
    requires
        candidate::pool_view(pool@) == set@.pool,
        forall|i: int| 0 <= i < chosen.len() ==> #[trigger] chosen@[i] < pool.len(),
    ensures
        r == set@.taken(partition::indices(chosen@), id@),
{
    let ghost all = partition::indices(chosen@);
    let mut i: usize = 0;
    while i < chosen.len()
        invariant
            i <= chosen.len(),
            all == partition::indices(chosen@),
            candidate::pool_view(pool@) == set@.pool,
            forall|j: int| 0 <= j < chosen.len() ==> #[trigger] chosen@[j] < pool.len(),
            forall|j: int| 0 <= j < i ==> set@.pool[#[trigger] all[j]].node_id != id@,
        decreases chosen.len() - i,
    {
        proof {
            assert(all[i as int] == chosen@[i as int]);
            assert(set@.pool[chosen@[i as int] as int] == pool@[chosen@[i as int] as int]@);
        }
        if pool[chosen[i]].node_id == *id {
            return true;
        }
        i = i + 1;
    }
    false
}

/// Which caps are loosened.
#[derive(Debug, Clone, Copy)]
pub struct Loosened {
    pub operator: bool,
    pub asn: bool,
    pub region: bool,
    pub cluster: bool,
}

impl View for Loosened {
    type V = Set<GroupKey>;

    open spec fn view(&self) -> Set<GroupKey> {
        Set::new(
            |key: GroupKey|
                match key {
                    GroupKey::Operator => self.operator,
                    GroupKey::Asn => self.asn,
                    GroupKey::Region => self.region,
                    GroupKey::Cluster => self.cluster,
                },
        )
    }
}

/// The caps that a round enforces.
#[derive(Clone, Copy)]
struct Gate {
    per_group: u32,
    verify: bool,
    colocate: bool,
    level: u32,
}

impl Gate {
    spec fn of(self, set: Setting, level: int) -> bool {
        &&& self.per_group == set.cap()
        &&& self.verify == redundancy::verifies(set.spec)
        &&& self.colocate == colocates(set.spec)
        &&& self.level == level
    }

    /// The first cap that keeps a candidate out.
    fn keeps_out(self, c: &Candidate, chosen: &[&Candidate], set: Ghost<Setting>) -> (r: Option<GroupKey>)
        requires
            chosen@.len() < u32::MAX,
            self.of(set@, self.level as int),
        ensures
            r == set@.gate(c@, vendor::chosen_view(chosen@), self.level as int),
    {
        let caps = Caps { per_group: self.per_group, require_distinct_operator: self.verify };
        let loose = Loosened {
            operator: self.level >= 3 && !self.verify,
            asn: self.level >= 2,
            region: self.level >= 1 || self.colocate,
            cluster: false,
        };
        proof {
            assert(loose@ =~= loose_at(self.level as int, set@.spec));
        }
        cap_gate(c, chosen, &caps, &loose)
    }
}

/// The first cap that adding `c` to `chosen` would break, where some caps are loosened. The
/// distinct-operator rule of a verified job is never loosened.
pub fn cap_gate(c: &Candidate, chosen: &[&Candidate], caps: &Caps, loose: &Loosened) -> (r: Option<GroupKey>)
    requires
        chosen@.len() < u32::MAX,
    ensures
        r == gated(c@, vendor::chosen_view(chosen@), *caps, loose@),
{
    match &c.groups {
        None => None,
        Some(g) => {
            let counts = vendor::group_counts(c, chosen);
            if caps.require_distinct_operator && counts.operator > 0 {
                return Some(GroupKey::Operator);
            }
            if !loose.operator && counts.operator + 1 > caps.per_group {
                return Some(GroupKey::Operator);
            }
            if !loose.asn && !text::same(g.asn.as_str(), vendor::UNKNOWN) && counts.asn + 1 > caps.per_group {
                return Some(GroupKey::Asn);
            }
            if !loose.region && !text::begins_with(g.region.as_str(), "r?:") && counts.region + 1 > caps.per_group {
                return Some(GroupKey::Region);
            }
            if !loose.cluster && counts.cluster + 1 > caps.per_group {
                return Some(GroupKey::Cluster);
            }
            None
        },
    }
}

fn uses_region(region: &String, chosen: &[&Candidate]) -> (r: bool)
    ensures
        r == region_used(region@, vendor::chosen_view(chosen@)),
{
    let ghost all = vendor::chosen_view(chosen@);
    let mut i: usize = 0;
    while i < chosen.len()
        invariant
            i <= chosen.len(),
            all == vendor::chosen_view(chosen@),
            forall|j: int|
                0 <= j < i ==> !(match (#[trigger] all[j]).groups {
                    Some(g) => g.region == region@,
                    None => false,
                }),
        decreases chosen.len() - i,
    {
        proof {
            assert(all[i as int] == chosen@[i as int]@);
        }
        match &chosen[i].groups {
            Some(g) => {
                if g.region == *region {
                    return true;
                }
            },
            None => {},
        }
        i = i + 1;
    }
    false
}

/// The cohort bonus of a candidate.
fn cohort_adjust<G: LatencyView>(c: &Candidate, chosen: &[&Candidate], spec: &JobSpec, graph: Option<&G>) -> (r:
    Binary64)
    requires
        chosen@.len() <= u32::MAX,
    ensures
        r == cohort_bonus(c@, vendor::chosen_view(chosen@), spec@, latency::model_of(graph)),
{
    let zero = Binary64 { bits: 0 };
    if chosen.len() == 0 {
        return zero;
    }
    let ghost all = vendor::chosen_view(chosen@);
    match spec.cohort {
        Some(Cohort::Colocate) => {
            match graph {
                Some(g) => {
                    let mut sum = zero;
                    let mut n: u64 = 0;
                    for i in 0..chosen.len()
                        invariant
                            all == vendor::chosen_view(chosen@),
                            chosen@.len() <= u32::MAX,
                            n <= i,
                            (sum, n as int) == cohort_rtt(c@, all.take(i as int), g.model()),
                    {
                        proof {
                            assert(all.take(i + 1).drop_last() =~= all.take(i as int));
                            assert(all.take(i + 1).last() == chosen@[i as int]@);
                        }
                        let rtt = g.predicted_rtt(c.node_id.as_str(), chosen[i].node_id.as_str());
                        if rtt.is_finite() {
                            sum = sum.add(rtt);
                            n = n + 1;
                        }
                    }
                    proof {
                        assert(all.take(chosen.len() as int) =~= all);
                    }
                    if n == 0 {
                        return zero;
                    }
                    let mean = sum.div(Binary64::from_u64(n));
                    let cap = scorer::pos_or(spec.rtt_soft_cap_ms, Binary64::from_u64(250));
                    Binary64::ratio(15, 100).mul(
                        scorer::clamp01((Binary64 { bits: 0x3ff0_0000_0000_0000 }).sub(mean.div(cap))),
                    )
                },
                None => zero,
            }
        },
        _ => {
            match &c.groups {
                Some(g) => {
                    if g.region.as_str().is_empty() || text::begins_with(g.region.as_str(), "r?:") || uses_region(
                        &g.region,
                        chosen,
                    ) {
                        zero
                    } else {
                        Binary64::ratio(5, 100)
                    }
                },
                None => zero,
            }
        },
    }
}

/// The setting that a selection works in.
pub open spec fn setting_of(
    pool: Seq<CandidateView>,
    spec: JobSpecView,
    graph: Option<LatencyModel>,
    scores: Seq<StaticScore>,
    count: int,
    m: spec_fn(Elementary, Binary64) -> Binary64,
) -> Setting {
    Setting { pool, spec, graph, scores, count, m }
}

/// The candidates that a level admits, with their live scores.
fn live_at<G: LatencyView>(
    pool: &Vec<Candidate>,
    chosen: &Vec<usize>,
    spec: &JobSpec,
    graph: Option<&G>,
    scores: &Vec<StaticScore>,
    gate: Gate,
    weight: Binary64,
    set: Ghost<Setting>,
) -> (r: Vec<(usize, Binary64)>)
    requires
        set@ == setting_of(candidate::pool_view(pool@), spec@, latency::model_of(graph), scores@, set@.count, set@.m),
        gate.of(set@, gate.level as int),
        weight == penalty_weight(spec@),
        chosen.len() < u32::MAX,
        scores.len() == pool.len(),
        forall|i: int| 0 <= i < chosen.len() ==> #[trigger] chosen@[i] < pool.len(),
        forall|i: int| 0 <= i < scores.len() ==> rankable((#[trigger] scores@[i]).score, spec@),
    ensures
        positions(r@) == set@.live(partition::indices(chosen@), gate.level as int, pool@.len()),
        r.len() <= pool.len(),
        forall|i: int| 0 <= i < r.len() ==> (#[trigger] r@[i]).0 < pool.len() && !r@[i].1.nan(),
{
    let ghost picks = partition::indices(chosen@);
    let refs = member_refs(pool, chosen, set);
    let mut r: Vec<(usize, Binary64)> = Vec::new();
    proof {
        assert(positions(r@) =~= Seq::empty());
    }
    for i in 0..pool.len()
        invariant
            set@ == setting_of(candidate::pool_view(pool@), spec@, latency::model_of(graph), scores@, set@.count, set@.m),
            gate.of(set@, gate.level as int),
            weight == penalty_weight(spec@),
            chosen.len() < u32::MAX,
            scores.len() == pool.len(),
            forall|j: int| 0 <= j < chosen.len() ==> #[trigger] chosen@[j] < pool.len(),
            forall|j: int| 0 <= j < scores.len() ==> rankable((#[trigger] scores@[j]).score, spec@),
            picks == partition::indices(chosen@),
            vendor::chosen_view(refs@) == set@.members(picks),
            refs.len() == chosen.len(),
            r.len() <= i,
            positions(r@) == set@.live(picks, gate.level as int, i as nat),
            forall|j: int| 0 <= j < r.len() ==> (#[trigger] r@[j]).0 < pool.len() && !r@[j].1.nan(),
    {
        let c = &pool[i];
        proof {
            assert(set@.pool[i as int] == c@);
        }
        if !is_taken(pool, chosen, &c.node_id, set) && gate.keeps_out(c, refs.as_slice(), set).is_none() {
            let penalty = weight.mul(vendor::diversity_penalty(c, refs.as_slice(), spec));
            let cohort = cohort_adjust(c, refs.as_slice(), spec, graph);
            let score = scores[i].score.sub(penalty).add(cohort);
            proof {
                lemma_live_score(set@, picks, i as int);
            }
            let ghost before = positions(r@);
            r.push((i, score));
            proof {
                assert(positions(r@) =~= before.push((i as int, score)));
            }
        }
    }
    r
}

/// Notes which candidates the unrelaxed caps hold back.
fn note_held(
    pool: &Vec<Candidate>,
    chosen: &Vec<usize>,
    gate: Gate,
    held: &mut Notes,
    set: Ghost<Setting>,
)
    requires
        candidate::pool_view(pool@) == set@.pool,
        gate.of(set@, 0),
        chosen.len() < u32::MAX,
        forall|i: int| 0 <= i < chosen.len() ==> #[trigger] chosen@[i] < pool.len(),
    ensures
        final(held)@ == set@.noted(partition::indices(chosen@), old(held)@, pool@.len()),
{
    let ghost picks = partition::indices(chosen@);
    let ghost start = held@;
    let refs = member_refs(pool, chosen, set);
    for i in 0..pool.len()
        invariant
            candidate::pool_view(pool@) == set@.pool,
            gate.of(set@, 0),
            chosen.len() < u32::MAX,
            forall|j: int| 0 <= j < chosen.len() ==> #[trigger] chosen@[j] < pool.len(),
            picks == partition::indices(chosen@),
            vendor::chosen_view(refs@) == set@.members(picks),
            refs.len() == chosen.len(),
            held@ == set@.noted(picks, start, i as nat),
    {
        let c = &pool[i];
        proof {
            assert(set@.pool[i as int] == c@);
        }
        if !is_taken(pool, chosen, &c.node_id, set) {
            match gate.keeps_out(c, refs.as_slice(), set) {
                Some(key) => {
                    if held.get(c.node_id.as_str()).is_none() {
                        let operator: bool = match key {
                            GroupKey::Operator => true,
                            _ => false,
                        };
                        held.set(c.node_id.clone(), operator);
                    }
                },
                None => {},
            }
        }
    }
}

/// The pick from a ranking that is not empty.
fn pick_from<M: Fn(Elementary, Binary64) -> Binary64>(
    ranking: &Vec<(usize, Binary64)>,
    spec: &JobSpec,
    rand: &mut Mulberry32,
    math: &M,
    set: Ghost<Setting>,
) -> (r: usize)
    requires
        0 < ranking.len() <= u32::MAX,
        elementary::steady(*math),
        set@.spec == spec@,
        set@.m == elementary::answers(*math),
    ensures
        (r as int, final(rand)@) == set@.pick(positions(ranking@), old(rand)@),
        exists|i: int| 0 <= i < ranking.len() && (#[trigger] ranking@[i]).0 == r,
{
    let ghost all = positions(ranking@);
    match spec.selection {
        Some(Selection::Weighted) => {
            let i: usize = softmax_sample(ranking, spec, rand, math);
            ranking[i].0
        },
        _ => {
            let top = ranking[0].1;
            let window = match spec.tie_eps {
                Some(e) => if e.is_finite() { e } else { Binary64::ratio(2, 100) },
                None => Binary64::ratio(2, 100),
            };
            let mut ties: Vec<usize> = Vec::new();
            proof {
                assert(partition::indices(ties@) =~= Seq::empty());
            }
            for i in 0..ranking.len()
                invariant
                    0 < ranking.len() <= u32::MAX,
                    all == positions(ranking@),
                    top == all[0].1,
                    window == tie_window(spec@),
                    ties.len() <= i,
                    partition::indices(ties@) == near_ties(all, window, i as nat),
                    forall|j: int|
                        0 <= j < ties.len() ==> exists|k: int|
                            0 <= k < ranking.len() && (#[trigger] ranking@[k]).0 == #[trigger] ties@[j],
            {
                if top.sub(ranking[i].1).le(window) {
                    let ghost before = ties@;
                    ties.push(ranking[i].0);
                    proof {
                        assert(partition::indices(ties@) =~= partition::indices(before).push(ranking@[i as int].0 as int));
                    }
                }
            }
            if ties.len() > 1 {
                let draw = rand.next();
                proof {
                    prng::lemma_drawn_position(rand@, ties.len() as int);
                }
                let i: usize = draw.mul(Binary64::from_u64(ties.len() as u64)).to_u64() as usize;
                proof {
                    assert(partition::indices(ties@)[i as int] == ties@[i as int]);
                }
                ties[i]
            } else {
                proof {
                    assert(all[0].0 == ranking@[0].0);
                }
                ranking[0].0
            }
        },
    }
}

// ---- the selection ----

/// One round: the level that admits something and the pick, or nothing.
fn pick_round<G: LatencyView, M: Fn(Elementary, Binary64) -> Binary64>(
    pool: &Vec<Candidate>,
    chosen: &Vec<usize>,
    spec: &JobSpec,
    graph: Option<&G>,
    scores: &Vec<StaticScore>,
    per_group: u32,
    rand: &mut Mulberry32,
    math: &M,
    set: Ghost<Setting>,
) -> (r: Option<(usize, u32)>)
    requires
        set@ == setting_of(candidate::pool_view(pool@), spec@, latency::model_of(graph), scores@, set@.count, elementary::answers(*math)),
        elementary::steady(*math),
        per_group == set@.cap(),
        pool.len() <= u32::MAX,
        chosen.len() < u32::MAX,
        scores.len() == pool.len(),
        forall|i: int| 0 <= i < chosen.len() ==> #[trigger] chosen@[i] < pool.len(),
        forall|i: int| 0 <= i < scores.len() ==> rankable((#[trigger] scores@[i]).score, spec@),
    ensures
        match r {
            Some((i, level)) => {
                &&& set@.level_from(partition::indices(chosen@), 0) == Some(level as int)
                &&& level <= 3
                &&& (i as int, final(rand)@) == set@.pick(
                    set@.ranked(partition::indices(chosen@), level as int),
                    old(rand)@,
                )
                &&& i < pool.len()
            },
            None => set@.level_from(partition::indices(chosen@), 0) is None && final(rand)@ == old(rand)@,
        },
{
    let ghost picks = partition::indices(chosen@);
    let weights = scorer::resolve_weights(spec);
    let weight = if weights.w_d.is_finite() { weights.w_d } else { Binary64::ratio(15, 100) };
    let verify: bool = redundancy::is_verify(spec);
    let colocate: bool = match spec.cohort {
        Some(Cohort::Colocate) => true,
        _ => false,
    };
    let mut level: u32 = 0;
    while level < 4
        invariant
            level <= 4,
            set@ == setting_of(candidate::pool_view(pool@), spec@, latency::model_of(graph), scores@, set@.count, elementary::answers(*math)),
            elementary::steady(*math),
            per_group == set@.cap(),
            pool.len() <= u32::MAX,
            chosen.len() < u32::MAX,
            scores.len() == pool.len(),
            forall|i: int| 0 <= i < chosen.len() ==> #[trigger] chosen@[i] < pool.len(),
            forall|i: int| 0 <= i < scores.len() ==> rankable((#[trigger] scores@[i]).score, spec@),
            picks == partition::indices(chosen@),
            weight == penalty_weight(spec@),
            verify == redundancy::verifies(spec@),
            colocate == colocates(spec@),
            rand@ == old(rand)@,
            set@.level_from(picks, 0) == set@.level_from(picks, level as int),
        decreases 4 - level,
    {
        let gate = Gate { per_group, verify, colocate, level };
        let live = live_at(pool, chosen, spec, graph, scores, gate, weight, set);
        if live.len() > 0 {
            let ranking = rank(&live, pool, set);
            let i: usize = pick_from(&ranking, spec, rand, math, set);
            return Some((i, level));
        }
        level = level + 1;
    }
    None
}

/// The rejected candidates with their reasons.
fn list_rejected(
    pool: &Vec<Candidate>,
    chosen: &Vec<usize>,
    scores: &Vec<StaticScore>,
    held: &Notes,
    set: Ghost<Setting>,
    p: Ghost<Progress>,
) -> (r: Vec<RejectedHost>)
    requires
        candidate::pool_view(pool@) == set@.pool,
        scores@ == set@.scores,
        scores.len() == pool.len(),
        p@.chosen == partition::indices(chosen@),
        p@.held == held@,
        forall|i: int| 0 <= i < chosen.len() ==> #[trigger] chosen@[i] < pool.len(),
    ensures
        r@.map_values(|x: RejectedHost| x@) == set@.rejected(p@, pool@.len()),
{
    let mut r: Vec<RejectedHost> = Vec::new();
    proof {
        assert(r@.map_values(|x: RejectedHost| x@) =~= Seq::empty());
    }
    for i in 0..pool.len()
        invariant
            candidate::pool_view(pool@) == set@.pool,
            scores@ == set@.scores,
            scores.len() == pool.len(),
            p@.chosen == partition::indices(chosen@),
            p@.held == held@,
            forall|j: int| 0 <= j < chosen.len() ==> #[trigger] chosen@[j] < pool.len(),
            r@.map_values(|x: RejectedHost| x@) == set@.rejected(p@, i as nat),
    {
        let c = &pool[i];
        proof {
            assert(set@.pool[i as int] == c@);
        }
        if !is_taken(pool, chosen, &c.node_id, set) {
            let reason: &str = match held.get(c.node_id.as_str()) {
                Some(operator) => if operator { "operator_dup" } else { "group_cap" },
                None => if scores[i].benchmark_suspect { "benchmark_suspect" } else { "low_score" },
            };
            let ghost before = r@;
            let host = RejectedHost { node_id: c.node_id.clone(), reason: reason.to_owned() };
            r.push(host);
            proof {
                assert(r@.map_values(|x: RejectedHost| x@) =~= before.map_values(|x: RejectedHost| x@).push(host@));
            }
        }
    }
    r
}

/// The targets for the picks.
fn list_targets(pool: &Vec<Candidate>, chosen: &Vec<usize>, scores: &Vec<StaticScore>, set: Ghost<Setting>) -> (r: Vec<
    PlanTarget,
>)
    requires
        candidate::pool_view(pool@) == set@.pool,
        scores@ == set@.scores,
        scores.len() == pool.len(),
        chosen.len() <= u32::MAX,
        forall|i: int| 0 <= i < chosen.len() ==> #[trigger] chosen@[i] < pool.len(),
    ensures
        r.len() == chosen.len(),
        forall|j: int| 0 <= j < r.len() ==> (#[trigger] r@[j])@ == set@.target(partition::indices(chosen@), j),
{
    let ghost picks = partition::indices(chosen@);
    let mut r: Vec<PlanTarget> = Vec::new();
    for n in 0..chosen.len()
        invariant
            candidate::pool_view(pool@) == set@.pool,
            scores@ == set@.scores,
            scores.len() == pool.len(),
            chosen.len() <= u32::MAX,
            forall|i: int| 0 <= i < chosen.len() ==> #[trigger] chosen@[i] < pool.len(),
            picks == partition::indices(chosen@),
            r.len() == n,
            forall|j: int| 0 <= j < n ==> (#[trigger] r@[j])@ == set@.target(picks, j),
    {
        let i: usize = chosen[n];
        let c = &pool[i];
        let s = scores[i];
        proof {
            assert(picks[n as int] == i);
            assert(set@.pool[i as int] == c@);
        }
        let groups = match &c.groups {
            Some(g) => g.clone(),
            None => Groups {
                operator: c.node_id.clone(),
                asn: vendor::UNKNOWN.to_owned(),
                region: "r?".to_owned(),
                cluster: c.node_id.clone(),
            },
        };
        r.push(
            PlanTarget {
                node_id: c.node_id.clone(),
                score: s.score,
                rtt_ms: c.rtt_ms,
                bench_fit: s.parts.bench_fit,
                trust: s.parts.trust,
                groups,
                replica: n as u32,
            },
        );
    }
    r
}

fn list_relaxations(loosest: u32, verify: bool, spec: &JobSpec) -> (r: Vec<String>)
    requires
        verify == redundancy::verifies(spec@),
    ensures
        text::texts(r@) == relaxations(loosest as int, spec@),
{
    let mut r: Vec<String> = Vec::new();
    if loosest >= 1 {
        r.push("region".to_owned());
    }
    if loosest >= 2 {
        r.push("asn".to_owned());
    }
    if loosest >= 3 && !verify {
        r.push("operator".to_owned());
    }
    proof {
        assert(text::texts(r@) =~= relaxations(loosest as int, spec@));
    }
    r
}

/// What a selection of the given scores reports.
pub open spec fn selected(
    pool: Seq<CandidateView>,
    spec: JobSpecView,
    graph: Option<LatencyModel>,
    seed: u32,
    scores: Seq<StaticScore>,
    m: spec_fn(Elementary, Binary64) -> Binary64,
) -> SelectOutcomeView {
    let set = setting_of(pool, spec, graph, scores, redundancy::effective_count(pool, spec, m), m);
    set.outcome(set.run(set.start(seed)))
}

/// Selects hosts by given scores, one per candidate.
pub fn select_scored<G: LatencyView, M: Fn(Elementary, Binary64) -> Binary64>(
    candidates: &Vec<Candidate>,
    spec: &JobSpec,
    graph: Option<&G>,
    seed: u32,
    scores: &Vec<StaticScore>,
    math: &M,
) -> (r: SelectOutcome)
    requires
        elementary::steady(*math),
        candidates.len() <= u32::MAX,
        scores.len() == candidates.len(),
        forall|i: int| 0 <= i < candidates.len() ==> (#[trigger] candidates@[i])@.countable(),
        forall|i: int| 0 <= i < scores.len() ==> rankable((#[trigger] scores@[i]).score, spec@),
    ensures
        r@ == selected(candidate::pool_view(candidates@), spec@, latency::model_of(graph), seed, scores@, elementary::answers(*math)),
{
    let pool = candidates;
    let effective_k: u32 = redundancy::redundancy_for(pool.as_slice(), spec, math);
    let set: Ghost<Setting> = Ghost(
        setting_of(candidate::pool_view(pool@), spec@, latency::model_of(graph), scores@, effective_k as int, elementary::answers(*math)),
    );
    let share = match spec.max_share {
        Some(s) => s,
        None => Binary64::ratio(34, 100),
    };
    let per_group: u32 = vendor::per_group_cap(effective_k, share);
    let verify: bool = redundancy::is_verify(spec);
    let colocate: bool = match spec.cohort {
        Some(Cohort::Colocate) => true,
        _ => false,
    };
    let gate = Gate { per_group, verify, colocate, level: 0 };

    let mut rand = Mulberry32::new(seed);
    let mut chosen: Vec<usize> = Vec::new();
    let mut held = Notes::new();
    let mut loosest: u32 = 0;
    let mut stuck: bool = false;
    let ghost mut p = set@.start(seed);
    proof {
        assert(partition::indices(chosen@) =~= Seq::empty());
    }
    while !stuck && chosen.len() < effective_k as usize && pool.len() > chosen.len()
        invariant
            set@ == setting_of(candidate::pool_view(pool@), spec@, latency::model_of(graph), scores@, effective_k as int, elementary::answers(*math)),
            elementary::steady(*math),
            gate.of(set@, 0),
            per_group == set@.cap(),
            pool.len() <= u32::MAX,
            scores.len() == pool.len(),
            forall|i: int| 0 <= i < scores.len() ==> rankable((#[trigger] scores@[i]).score, spec@),
            forall|i: int| 0 <= i < chosen.len() ==> #[trigger] chosen@[i] < pool.len(),
            chosen.len() <= effective_k,
            p == (Progress { chosen: partition::indices(chosen@), rand: rand@, loosest: loosest as int, held: held@ }),
            loosest <= 3,
            !stuck ==> set@.run(p) == set@.run(set@.start(seed)),
            stuck ==> p == set@.run(set@.start(seed)),
        decreases effective_k - chosen.len(), (if stuck { 0int } else { 1int }),
    {
        let ghost before = p;
        note_held(pool, &chosen, gate, &mut held, set);
        match pick_round(pool, &chosen, spec, graph, scores, per_group, &mut rand, math, set) {
            Some((i, level)) => {
                held.forget(pool[i].node_id.as_str());
                if level > loosest {
                    loosest = level;
                }
                let ghost picks = partition::indices(chosen@);
                chosen.push(i);
                proof {
                    assert(partition::indices(chosen@) =~= picks.push(i as int));
                    assert(set@.pool[i as int] == pool@[i as int]@);
                    p = Progress {
                        chosen: partition::indices(chosen@),
                        rand: rand@,
                        loosest: loosest as int,
                        held: held@,
                    };
                    assert(set@.unfinished(before));
                    assert(set@.run(before) == set@.run(p));
                }
            },
            None => {
                stuck = true;
                proof {
                    p = Progress { held: held@, ..before };
                    assert(set@.unfinished(before));
                }
            },
        }
    }
    proof {
        if !stuck {
            assert(!set@.unfinished(p));
        }
        assert(p == set@.run(set@.start(seed)));
    }
    let shortfall: u32 = if chosen.len() < effective_k as usize { effective_k - chosen.len() as u32 } else { 0 };
    let rejected = list_rejected(pool, &chosen, scores, &held, set, Ghost(p));
    let targets = list_targets(pool, &chosen, scores, set);
    let relaxed = list_relaxations(loosest, verify, spec);
    let r = SelectOutcome { targets, relaxed, shortfall, rejected, effective_k };
    proof {
        assert(r@.targets =~= set@.outcome(p).targets);
        assert(r@ == set@.outcome(p));
    }
    r
}

/// Selects hosts, scoring each candidate once with `score_fn`.
pub fn select_with<
    G: LatencyView,
    F: Fn(&Candidate, &JobSpec, Option<&G>) -> StaticScore,
    M: Fn(Elementary, Binary64) -> Binary64,
>(candidates: Vec<Candidate>, spec: &JobSpec, graph: Option<&G>, seed: u32, score_fn: &F, math: &M) -> (r:
    SelectOutcome)
    requires
        elementary::steady(*math),
        candidates.len() <= u32::MAX,
        forall|i: int| 0 <= i < candidates.len() ==> (#[trigger] candidates@[i])@.countable(),
        forall|i: int|
            0 <= i < candidates.len() ==> call_requires(*score_fn, (&#[trigger] candidates@[i], spec, graph)),
        forall|i: int, s: StaticScore|
            0 <= i < candidates.len() && #[trigger] call_ensures(*score_fn, (&candidates@[i], spec, graph), s)
                ==> rankable(s.score, spec@),
    ensures
        exists|scores: Seq<StaticScore>|
            scores.len() == candidates@.len() && (forall|i: int|
                0 <= i < scores.len() ==> call_ensures(
                    *score_fn,
                    (&candidates@[i], spec, graph),
                    #[trigger] scores[i],
                )) && r@ == #[trigger] selected(
                candidate::pool_view(candidates@),
                spec@,
                latency::model_of(graph),
                seed,
                scores,
                elementary::answers(*math),
            ),
{
    let mut scores: Vec<StaticScore> = Vec::new();
    for i in 0..candidates.len()
        invariant
            scores.len() == i,
            forall|j: int|
                0 <= j < candidates.len() ==> call_requires(*score_fn, (&#[trigger] candidates@[j], spec, graph)),
            forall|j: int, s: StaticScore|
                0 <= j < candidates.len() && #[trigger] call_ensures(*score_fn, (&candidates@[j], spec, graph), s)
                    ==> rankable(s.score, spec@),
            forall|j: int|
                0 <= j < i ==> call_ensures(*score_fn, (&candidates@[j], spec, graph), #[trigger] scores@[j]),
            forall|j: int| 0 <= j < i ==> rankable((#[trigger] scores@[j]).score, spec@),
    {
        let c = &candidates[i];
        scores.push(score_fn(c, spec, graph));
    }
    select_scored(&candidates, spec, graph, seed, &scores, math)
}

/// The static scores of a pool.
pub open spec fn pool_scores(
    pool: Seq<CandidateView>,
    spec: JobSpecView,
    graph: Option<LatencyModel>,
    m: spec_fn(Elementary, Binary64) -> Binary64,
) -> Seq<StaticScore> {
    pool.map_values(|c: CandidateView| scorer::scored(c, spec, graph, m))
}

/// Selects hosts with the default scoring.
pub fn select<G: LatencyView, M: Fn(Elementary, Binary64) -> Binary64>(
    candidates: Vec<Candidate>,
    spec: &JobSpec,
    graph: Option<&G>,
    seed: u32,
    math: &M,
) -> (r: SelectOutcome)
    requires
        elementary::steady(*math),
        candidates.len() <= u32::MAX,
        forall|i: int| 0 <= i < candidates.len() ==> (#[trigger] candidates@[i])@.countable(),
    ensures
        r@ == selected(
            candidate::pool_view(candidates@),
            spec@,
            latency::model_of(graph),
            seed,
            pool_scores(
                candidate::pool_view(candidates@),
                spec@,
                latency::model_of(graph),
                elementary::answers(*math),
            ),
            elementary::answers(*math),
        ),
{
    let ghost m = elementary::answers(*math);
    let ghost all = pool_scores(candidate::pool_view(candidates@), spec@, latency::model_of(graph), m);
    let mut scores: Vec<StaticScore> = Vec::new();
    for i in 0..candidates.len()
        invariant
            elementary::steady(*math),
            m == elementary::answers(*math),
            all == pool_scores(candidate::pool_view(candidates@), spec@, latency::model_of(graph), m),
            forall|j: int| 0 <= j < candidates.len() ==> (#[trigger] candidates@[j])@.countable(),
            scores.len() == i,
            forall|j: int| 0 <= j < i ==> #[trigger] scores@[j] == all[j],
            forall|j: int| 0 <= j < i ==> rankable((#[trigger] scores@[j]).score, spec@),
    {
        let s = scorer::static_score(&candidates[i], spec, graph, math);
        proof {
            assert(s == all[i as int]);
            lemma_score_finite(candidates@[i as int]@, spec@, latency::model_of(graph), m);
        }
        scores.push(s);
    }
    proof {
        assert(scores@ =~= all);
    }
    select_scored(&candidates, spec, graph, seed, &scores, math)
}

/// Static scores lie in `[0, 1]`.
pub proof fn lemma_score_finite(
    c: CandidateView,
    spec: JobSpecView,
    graph: Option<LatencyModel>,
    m: spec_fn(Elementary, Binary64) -> Binary64,
)
    ensures
        scorer::scored(c, spec, graph, m).score.finite(),
        0 <= scorer::scored(c, spec, graph, m).score.value() <= Binary64::one().value(),
{
    let w = scorer::normalized(scorer::raw_weights(spec));
    let s = scorer::scored(c, spec, graph, m);
    order::lemma_clamped(
        scorer::blend(w, s.parts.latency, s.parts.bench_fit, s.parts.trust, s.parts.price).times(s.parts.runtime_factor),
    );
}

} // verus!
