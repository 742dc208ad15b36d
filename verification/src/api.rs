//! The vocabulary of the scheduler: job specifications, placement plans, dispatch results and the
//! fabric map that plans are made against.
//!
//! Amounts of money are integer base units carried as decimal strings. The only non-integers
//! anywhere are measurements and normalized ranking scores, never an amount.

use crate::binary64::Binary64;
use crate::text;
use vstd::prelude::*;

verus! {

/// A node id, the stable key of a node.
pub type NodeId = String;

/// Optimization objective; picks the default blend [`Weights`].
#[derive(Debug, Clone, Copy, PartialEq, Eq, Structural)]
pub enum Objective {
    Latency,
    Throughput,
    Balanced,
    Cheap,
}

impl Default for Objective {
    fn default() -> (r: Objective)
        ensures
            r == Objective::Balanced,
    {
        Objective::Balanced
    }
}

impl Objective {
    /// The wire name of an objective.
    pub open spec fn name(self) -> Seq<char> {
        match self {
            Objective::Latency => "latency"@,
            Objective::Throughput => "throughput"@,
            Objective::Balanced => "balanced"@,
            Objective::Cheap => "cheap"@,
        }
    }

    /// The wire string for this objective.
    pub fn as_str(&self) -> (r: &'static str)
        ensures
            r@ == self.name(),
    {
        match self {
            Objective::Latency => "latency",
            Objective::Throughput => "throughput",
            Objective::Balanced => "balanced",
            Objective::Cheap => "cheap",
        }
    }
}

/// Multi-host relationship for the cohort.
#[derive(Debug, Clone, Copy, PartialEq, Eq, Structural)]
pub enum Cohort {
    /// Reward landing in a latency region that is not used yet.
    Spread,
    /// Reward low predicted RTT to already chosen members.
    Colocate,
    /// Stage adjacency; treated as `Spread`.
    Dag,
}

impl Default for Cohort {
    fn default() -> (r: Cohort)
        ensures
            r == Cohort::Spread,
    {
        Cohort::Spread
    }
}

/// Target-picking strategy.
#[derive(Debug, Clone, Copy, PartialEq, Eq, Structural)]
pub enum Selection {
    /// Highest score, with a beacon-seeded tie-break among near-ties.
    Best,
    /// Softmax-sample from the live scores (beacon-seeded).
    Weighted,
}

impl Default for Selection {
    fn default() -> (r: Selection)
        ensures
            r == Selection::Best,
    {
        Selection::Best
    }
}

/// Redundancy policy or target confidence.
#[derive(Debug, Clone, Copy, PartialEq)]
pub enum Redundancy {
    /// A target confidence in `(0,1)`.
    Confidence(Binary64),
    /// Trust the single best, or verify over independent replicas.
    Policy(RedundancyPolicy),
}

/// The named redundancy policies.
#[derive(Debug, Clone, Copy, PartialEq, Eq, Structural)]
pub enum RedundancyPolicy {
    Single,
    Verify,
}

impl Default for Redundancy {
    fn default() -> (r: Redundancy)
        ensures
            r == Redundancy::Policy(RedundancyPolicy::Single),
    {
        Redundancy::Policy(RedundancyPolicy::Single)
    }
}

/// One axis of the benchmark demand vector: how much the axis matters, and the bar at which it is
/// enough.
#[derive(Debug, Clone, Copy, PartialEq)]
pub struct DemandAxis {
    pub weight: Binary64,
    pub target: Binary64,
}

/// The demand vector: which benchmark axes matter for a job.
#[derive(Debug, Clone, Copy, Default, PartialEq)]
pub struct Demand {
    pub gflops: Option<DemandAxis>,
    pub mem_bw_gbps: Option<DemandAxis>,
    pub vram_mb: Option<DemandAxis>,
    pub fp16_tflops: Option<DemandAxis>,
    pub tokens_per_sec: Option<DemandAxis>,
    pub disk_read_mbps: Option<DemandAxis>,
    pub disk_write_mbps: Option<DemandAxis>,
}

/// Blend weights. The first four are normalized to a convex combination; `w_d` is a separate
/// diversity-penalty coefficient.
#[derive(Debug, Clone, Copy, PartialEq)]
pub struct Weights {
    pub w_l: Binary64,
    pub w_b: Binary64,
    pub w_t: Binary64,
    pub w_p: Binary64,
    pub w_d: Binary64,
}

impl Weights {
    /// Weights given in hundredths.
    pub open spec fn hundredths(l: int, b: int, t: int, p: int, d: int) -> Weights {
        Weights {
            w_l: Binary64::fraction(l, 100),
            w_b: Binary64::fraction(b, 100),
            w_t: Binary64::fraction(t, 100),
            w_p: Binary64::fraction(p, 100),
            w_d: Binary64::fraction(d, 100),
        }
    }

    /// The default blend of each objective.
    pub open spec fn defaults(obj: Objective) -> Weights {
        match obj {
            Objective::Latency => Self::hundredths(50, 15, 20, 5, 10),
            Objective::Throughput => Self::hundredths(10, 50, 25, 5, 10),
            Objective::Balanced => Self::hundredths(25, 25, 25, 10, 15),
            Objective::Cheap => Self::hundredths(10, 20, 20, 40, 10),
        }
    }

    fn of_hundredths(l: u64, b: u64, t: u64, p: u64, d: u64) -> (r: Weights)
        requires
            l <= 100,
            b <= 100,
            t <= 100,
            p <= 100,
            d <= 100,
        ensures
            r == Self::hundredths(l as int, b as int, t as int, p as int, d as int),
    {
        Weights {
            w_l: Binary64::ratio(l, 100),
            w_b: Binary64::ratio(b, 100),
            w_t: Binary64::ratio(t, 100),
            w_p: Binary64::ratio(p, 100),
            w_d: Binary64::ratio(d, 100),
        }
    }

    /// The default weights for an objective.
    pub fn for_objective(obj: Objective) -> (r: Weights)
        ensures
            r == Self::defaults(obj),
    {
        match obj {
            Objective::Latency => Self::of_hundredths(50, 15, 20, 5, 10),
            Objective::Throughput => Self::of_hundredths(10, 50, 25, 5, 10),
            Objective::Balanced => Self::of_hundredths(25, 25, 25, 10, 15),
            Objective::Cheap => Self::of_hundredths(10, 20, 20, 40, 10),
        }
    }
}


pub fn clone_opt_text(s: &Option<String>) -> (r: Option<String>)
    ensures
        text::opt_text(r) == text::opt_text(*s),
{
    match s {
        Some(t) => Some(t.clone()),
        None => None,
    }
}

pub fn clone_texts(s: &Vec<String>) -> (r: Vec<String>)
    ensures
        text::texts(r@) == text::texts(s@),
{
    let mut r: Vec<String> = Vec::new();
    for i in 0..s.len()
        invariant
            r.len() == i,
            forall|j: int| 0 <= j < i ==> #[trigger] r@[j]@ == s@[j]@,
    {
        r.push(s[i].clone());
    }
    proof {
        assert(text::texts(r@) =~= text::texts(s@));
    }
    r
}

/// A payer's recent `operator -> count`, by ascending operator, each operator once.
#[derive(Debug, PartialEq)]
pub struct RecentPlacements {
    entries: Vec<(String, Binary64)>,
}

/// Keys ascend strictly.
pub open spec fn ascending(s: Seq<(Seq<char>, Binary64)>) -> bool {
    forall|i: int, j: int| 0 <= i < j < s.len() ==> text::lex_less(#[trigger] s[i].0, #[trigger] s[j].0)
}

impl View for RecentPlacements {
    type V = Seq<(Seq<char>, Binary64)>;

    closed spec fn view(&self) -> Seq<(Seq<char>, Binary64)> {
        self.entries@.map_values(|e: (String, Binary64)| (e.0@, e.1))
    }
}

impl RecentPlacements {
    #[verifier::type_invariant]
    spec fn ordered(self) -> bool {
        ascending(self@)
    }

    pub fn new() -> (r: RecentPlacements)
        ensures
            r@ == Seq::<(Seq<char>, Binary64)>::empty(),
    {
        let r = RecentPlacements { entries: Vec::new() };
        proof {
            assert(r@ =~= Seq::<(Seq<char>, Binary64)>::empty());
        }
        r
    }

    /// The operators ascend strictly, so each occurs once.
    pub fn len(&self) -> (r: usize)
        ensures
            r == self@.len(),
            ascending(self@),
    {
        proof {
            use_type_invariant(self);
        }
        self.entries.len()
    }

    /// The count of the `i`-th operator.
    pub fn count(&self, i: usize) -> (r: Binary64)
        requires
            i < self@.len(),
        ensures
            r == self@[i as int].1,
    {
        self.entries[i].1
    }

    /// The count of an operator.
    pub fn get(&self, operator: &str) -> (r: Option<Binary64>)
        ensures
            match r {
                Some(v) => self@.contains((operator@, v)),
                None => forall|v: Binary64| !self@.contains((operator@, v)),
            },
            r == lookup(self@, operator@),
    {
        let mut i: usize = 0;
        proof {
            assert(self@.skip(0) =~= self@);
        }
        while i < self.entries.len()
            invariant
                i <= self.entries.len(),
                self@.len() == self.entries.len(),
                forall|j: int| 0 <= j < i ==> #[trigger] self@[j].0 != operator@,
                lookup(self@, operator@) == lookup(self@.skip(i as int), operator@),
            decreases self.entries.len() - i,
        {
            if text::same(self.entries[i].0.as_str(), operator) {
                proof {
                    assert(self@[i as int] == (operator@, self.entries@[i as int].1));
                }
                return Some(self.entries[i].1);
            }
            proof {
                assert(self@[i as int].0 != operator@);
                assert(self@.skip(i as int).drop_first() =~= self@.skip(i + 1));
            }
            i = i + 1;
        }
        proof {
            assert forall|v: Binary64| !self@.contains((operator@, v)) by {
                if self@.contains((operator@, v)) {
                    assert(self@[self@.index_of((operator@, v))].0 != operator@);
                }
            }
        }
        None
    }

    /// Sets the count of an operator.
    pub fn insert(&mut self, operator: String, count: Binary64)
        ensures
            final(self)@.contains((operator@, count)),
            forall|k: Seq<char>, v: Binary64|
                k != operator@ ==> (#[trigger] final(self)@.contains((k, v)) <==> old(self)@.contains((k, v))),
            ascending(final(self)@),
    {
        proof {
            use_type_invariant(&*self);
        }
        let ghost before = self@;
        let mut entries: Vec<(String, Binary64)> = Vec::new();
        std::mem::swap(&mut entries, &mut self.entries);
        let mut i: usize = 0;
        let ghost shown = entries@.map_values(|e: (String, Binary64)| (e.0@, e.1));
        proof {
            assert(shown == before);
        }
        while i < entries.len() && text::before(entries[i].0.as_str(), operator.as_str())
            invariant
                i <= entries.len(),
                shown == entries@.map_values(|e: (String, Binary64)| (e.0@, e.1)),
                forall|j: int| 0 <= j < i ==> text::lex_less(#[trigger] shown[j].0, operator@),
            decreases entries.len() - i,
        {
            proof {
                assert(shown[i as int].0 == entries@[i as int].0@);
            }
            i = i + 1;
        }
        let ghost key = operator@;
        if i < entries.len() && text::same(entries[i].0.as_str(), operator.as_str()) {
            entries.set(i, (operator, count));
            proof {
                let after = entries@.map_values(|e: (String, Binary64)| (e.0@, e.1));
                assert(after =~= before.update(i as int, (key, count)));
                lemma_replaced(before, after, i as int, key, count);
            }
        } else {
            proof {
                if i < entries.len() {
                    assert(shown[i as int].0 == entries@[i as int].0@);
                    text::lemma_lex_total(shown[i as int].0, key);
                }
            }
            entries.insert(i, (operator, count));
            proof {
                let after = entries@.map_values(|e: (String, Binary64)| (e.0@, e.1));
                assert(after =~= before.insert(i as int, (key, count)));
                lemma_inserted(before, after, i as int, key, count);
            }
        }
        *self = RecentPlacements { entries };
    }
}

impl Clone for RecentPlacements {
    fn clone(&self) -> (r: RecentPlacements)
        ensures
            r@ == self@,
    {
        proof {
            use_type_invariant(self);
        }
        let mut entries: Vec<(String, Binary64)> = Vec::new();
        for i in 0..self.entries.len()
            invariant
                entries.len() == i,
                forall|j: int|
                    0 <= j < i ==> (#[trigger] entries@[j]).0@ == self.entries@[j].0@ && entries@[j].1
                        == self.entries@[j].1,
        {
            entries.push((self.entries[i].0.clone(), self.entries[i].1));
        }
        proof {
            assert(entries@.map_values(|e: (String, Binary64)| (e.0@, e.1)) =~= self@);
        }
        RecentPlacements { entries }
    }
}

/// The value of the first pair with the given key.
pub open spec fn lookup(s: Seq<(Seq<char>, Binary64)>, key: Seq<char>) -> Option<Binary64>
    decreases s.len(),
{
    if s.len() == 0 {
        None
    } else if s[0].0 == key {
        Some(s[0].1)
    } else {
        lookup(s.drop_first(), key)
    }
}

proof fn lemma_replaced(
    before: Seq<(Seq<char>, Binary64)>,
    after: Seq<(Seq<char>, Binary64)>,
    i: int,
    key: Seq<char>,
    count: Binary64,
)
    requires
        ascending(before),
        0 <= i < before.len(),
        before[i].0 == key,
        after == before.update(i, (key, count)),
    ensures
        ascending(after),
        after.contains((key, count)),
        forall|k: Seq<char>, v: Binary64| k != key ==> (#[trigger] after.contains((k, v)) <==> before.contains((k, v))),
{
    assert(after[i] == (key, count));
    assert forall|k: Seq<char>, v: Binary64| k != key implies (#[trigger] after.contains((k, v)) <==> before.contains(
        (k, v),
    )) by {
        if before.contains((k, v)) {
            let j = before.index_of((k, v));
            assert(after[j] == (k, v));
        }
        if after.contains((k, v)) {
            let j = after.index_of((k, v));
            assert(before[j] == (k, v));
        }
    }
}

proof fn lemma_inserted(
    before: Seq<(Seq<char>, Binary64)>,
    after: Seq<(Seq<char>, Binary64)>,
    i: int,
    key: Seq<char>,
    count: Binary64,
)
    requires
        ascending(before),
        0 <= i <= before.len(),
        forall|j: int| 0 <= j < i ==> text::lex_less(#[trigger] before[j].0, key),
        i < before.len() ==> text::lex_less(key, before[i].0),
        after == before.insert(i, (key, count)),
    ensures
        ascending(after),
        after.contains((key, count)),
        forall|k: Seq<char>, v: Binary64| k != key ==> (#[trigger] after.contains((k, v)) <==> before.contains((k, v))),
{
    assert(after[i] == (key, count));
    assert forall|a: int, b: int| 0 <= a < b < after.len() implies text::lex_less(
        #[trigger] after[a].0,
        #[trigger] after[b].0,
    ) by {
        if a == i && b > i + 1 {
            text::lemma_lex_transitive(key, before[i].0, before[b - 1].0);
        }
    }
    assert forall|k: Seq<char>, v: Binary64| k != key implies (#[trigger] after.contains((k, v)) <==> before.contains(
        (k, v),
    )) by {
        if before.contains((k, v)) {
            let j = before.index_of((k, v));
            assert(after[if j < i { j } else { j + 1 }] == (k, v));
        }
        if after.contains((k, v)) {
            let j = after.index_of((k, v));
            assert(before[if j < i { j } else { j - 1 }] == (k, v));
        }
    }
}


/// Everything the caller declares about a job and how to place it.
#[derive(Debug, Clone, Default, PartialEq)]
pub struct JobSpec {
    /// Latency origin: the node that "near me" is measured from.
    pub payer: Option<NodeId>,
    /// Requested host count; redundancy may raise it.
    pub k: Option<u32>,
    /// CPU cores that a host must have free.
    pub cpu_cores: u32,
    /// Memory (MB) that a host must have available.
    pub mem_mb: u64,
    /// Tags that a host must carry.
    pub require_tags: Vec<String>,
    /// Node ids never to pick.
    pub exclude: Vec<NodeId>,
    /// Allow placing on the payer node itself.
    pub allow_self: bool,
    /// Liveness window (seconds).
    pub max_stale_secs: Option<u64>,
    pub objective: Option<Objective>,
    /// Overrides the objective's default blend.
    pub weights: Option<Weights>,
    /// Benchmark demand vector.
    pub demand: Option<Demand>,
    /// Capability floors, met by a measured profile.
    pub min_gflops: Option<Binary64>,
    pub min_vram_mb: Option<Binary64>,
    pub min_tokens_per_sec: Option<Binary64>,
    /// Exclude hosts without a measured profile when a floor is set.
    pub require_profile: bool,
    /// Latency normalization cap.
    pub rtt_soft_cap_ms: Option<Binary64>,
    /// Delivered-work count at which trust saturates.
    pub trust_saturation: Option<Binary64>,
    /// Price normalization cap, in base units.
    pub price_cap_base_units: Option<String>,
    /// Price score of a host that advertises no ask.
    pub default_price_score: Option<Binary64>,
    pub redundancy: Option<Redundancy>,
    /// Largest fraction of the replicas on any one group.
    pub max_share: Option<Binary64>,
    /// Recent `operator -> count` of this payer.
    pub recent_placements: Option<RecentPlacements>,
    pub cohort: Option<Cohort>,
    pub selection: Option<Selection>,
    /// Softmax temperature for weighted selection.
    pub temperature: Option<Binary64>,
    /// Score window that counts as a tie.
    pub tie_eps: Option<Binary64>,
    /// Confirmed-depth offset for high-stakes selection.
    pub beacon_depth: Option<u64>,
    /// Per-request entropy mixed into the beacon seed.
    pub nonce: Option<String>,
    /// Run the optional swap-improvement pass.
    pub refine: bool,
}

/// What a [`JobSpec`] holds.
pub struct JobSpecView {
    pub payer: Option<Seq<char>>,
    pub k: Option<u32>,
    pub cpu_cores: u32,
    pub mem_mb: u64,
    pub require_tags: Seq<Seq<char>>,
    pub exclude: Seq<Seq<char>>,
    pub allow_self: bool,
    pub max_stale_secs: Option<u64>,
    pub objective: Option<Objective>,
    pub weights: Option<Weights>,
    pub demand: Option<Demand>,
    pub min_gflops: Option<Binary64>,
    pub min_vram_mb: Option<Binary64>,
    pub min_tokens_per_sec: Option<Binary64>,
    pub require_profile: bool,
    pub rtt_soft_cap_ms: Option<Binary64>,
    pub trust_saturation: Option<Binary64>,
    pub price_cap_base_units: Option<Seq<char>>,
    pub default_price_score: Option<Binary64>,
    pub redundancy: Option<Redundancy>,
    pub max_share: Option<Binary64>,
    pub recent_placements: Option<Seq<(Seq<char>, Binary64)>>,
    pub cohort: Option<Cohort>,
    pub selection: Option<Selection>,
    pub temperature: Option<Binary64>,
    pub tie_eps: Option<Binary64>,
    pub beacon_depth: Option<u64>,
    pub nonce: Option<Seq<char>>,
    pub refine: bool,
}

impl View for JobSpec {
    type V = JobSpecView;

    open spec fn view(&self) -> JobSpecView {
        JobSpecView {
            payer: text::opt_text(self.payer),
            k: self.k,
            cpu_cores: self.cpu_cores,
            mem_mb: self.mem_mb,
            require_tags: text::texts(self.require_tags@),
            exclude: text::texts(self.exclude@),
            allow_self: self.allow_self,
            max_stale_secs: self.max_stale_secs,
            objective: self.objective,
            weights: self.weights,
            demand: self.demand,
            min_gflops: self.min_gflops,
            min_vram_mb: self.min_vram_mb,
            min_tokens_per_sec: self.min_tokens_per_sec,
            require_profile: self.require_profile,
            rtt_soft_cap_ms: self.rtt_soft_cap_ms,
            trust_saturation: self.trust_saturation,
            price_cap_base_units: text::opt_text(self.price_cap_base_units),
            default_price_score: self.default_price_score,
            redundancy: self.redundancy,
            max_share: self.max_share,
            recent_placements: match self.recent_placements { Some(x) => Some(x@), None => None },
            cohort: self.cohort,
            selection: self.selection,
            temperature: self.temperature,
            tie_eps: self.tie_eps,
            beacon_depth: self.beacon_depth,
            nonce: text::opt_text(self.nonce),
            refine: self.refine,
        }
    }
}

/// The correlation groups of a host.
#[derive(Debug, PartialEq, Eq)]
pub struct Groups {
    pub operator: String,
    pub asn: String,
    pub region: String,
    pub cluster: String,
}

/// What a [`Groups`] holds.
pub struct GroupsView {
    pub operator: Seq<char>,
    pub asn: Seq<char>,
    pub region: Seq<char>,
    pub cluster: Seq<char>,
}

impl View for Groups {
    type V = GroupsView;

    open spec fn view(&self) -> GroupsView {
        GroupsView {
            operator: self.operator@,
            asn: self.asn@,
            region: self.region@,
            cluster: self.cluster@,
        }
    }
}

impl Clone for Groups {
    fn clone(&self) -> (r: Groups)
        ensures
            r@ == self@,
    {
        Groups {
            operator: self.operator.clone(),
            asn: self.asn.clone(),
            region: self.region.clone(),
            cluster: self.cluster.clone(),
        }
    }
}

/// A chosen host in the plan.
#[derive(Debug, Clone, PartialEq)]
pub struct PlanTarget {
    pub node_id: NodeId,
    pub score: Binary64,
    pub rtt_ms: Binary64,
    pub bench_fit: Binary64,
    pub trust: Binary64,
    pub groups: Groups,
    pub replica: u32,
}

/// What a [`PlanTarget`] holds.
pub struct PlanTargetView {
    pub node_id: Seq<char>,
    pub score: Binary64,
    pub rtt_ms: Binary64,
    pub bench_fit: Binary64,
    pub trust: Binary64,
    pub groups: GroupsView,
    pub replica: u32,
}

impl View for PlanTarget {
    type V = PlanTargetView;

    open spec fn view(&self) -> PlanTargetView {
        PlanTargetView {
            node_id: self.node_id@,
            score: self.score,
            rtt_ms: self.rtt_ms,
            bench_fit: self.bench_fit,
            trust: self.trust,
            groups: self.groups@,
            replica: self.replica,
        }
    }
}

/// The public-randomness reference that a plan is seeded from.
#[derive(Debug, Default, PartialEq)]
pub struct BeaconRef {
    pub height: u64,
    pub hash: String,
}

/// What a [`BeaconRef`] holds.
pub struct BeaconRefView {
    pub height: u64,
    pub hash: Seq<char>,
}

impl View for BeaconRef {
    type V = BeaconRefView;

    open spec fn view(&self) -> BeaconRefView {
        BeaconRefView {
            height: self.height,
            hash: self.hash@,
        }
    }
}

impl Clone for BeaconRef {
    fn clone(&self) -> (r: BeaconRef)
        ensures
            r@ == self@,
    {
        BeaconRef {
            height: self.height,
            hash: self.hash.clone(),
        }
    }
}

/// A host that was feasible but not chosen, with the reason.
#[derive(Debug, Clone, PartialEq)]
pub struct RejectedHost {
    pub node_id: NodeId,
    pub reason: String,
}

/// What a [`RejectedHost`] holds.
pub struct RejectedHostView {
    pub node_id: Seq<char>,
    pub reason: Seq<char>,
}

impl View for RejectedHost {
    type V = RejectedHostView;

    open spec fn view(&self) -> RejectedHostView {
        RejectedHostView {
            node_id: self.node_id@,
            reason: self.reason@,
        }
    }
}

/// The placement decision: advice and provenance, not an action.
#[derive(Debug, Clone, PartialEq)]
pub struct PlacementPlan {
    pub targets: Vec<PlanTarget>,
    pub effective_k: u32,
    pub requested_k: u32,
    pub beacon: BeaconRef,
    pub weights: Weights,
    pub objective: String,
    /// Independence relaxations applied, if any.
    pub relaxed: Vec<String>,
    /// Missing replicas.
    pub shortfall: u32,
    pub rejected: Vec<RejectedHost>,
    pub assembled_at_ms: u64,
}

/// What a [`PlacementPlan`] holds.
pub struct PlacementPlanView {
    pub targets: Seq<PlanTargetView>,
    pub effective_k: u32,
    pub requested_k: u32,
    pub beacon: BeaconRefView,
    pub weights: Weights,
    pub objective: Seq<char>,
    pub relaxed: Seq<Seq<char>>,
    pub shortfall: u32,
    pub rejected: Seq<RejectedHostView>,
    pub assembled_at_ms: u64,
}

impl View for PlacementPlan {
    type V = PlacementPlanView;

    open spec fn view(&self) -> PlacementPlanView {
        PlacementPlanView {
            targets: self.targets@.map_values(|x: PlanTarget| x@),
            effective_k: self.effective_k,
            requested_k: self.requested_k,
            beacon: self.beacon@,
            weights: self.weights,
            objective: self.objective@,
            relaxed: text::texts(self.relaxed@),
            shortfall: self.shortfall,
            rejected: self.rejected@.map_values(|x: RejectedHost| x@),
            assembled_at_ms: self.assembled_at_ms,
        }
    }
}

/// The container to deploy on each chosen target.
#[derive(Debug, Clone, Default, PartialEq)]
pub struct DeploySpec {
    pub image: String,
    pub cmd: Vec<String>,
    pub cpu_cores: u32,
    pub mem_mb: u64,
    pub duration_secs: u64,
    /// Funding committed per host, in base units.
    pub bid: String,
    /// Capability grant that authorizes the deploy.
    pub grant: Option<String>,
}

/// What a [`DeploySpec`] holds.
pub struct DeploySpecView {
    pub image: Seq<char>,
    pub cmd: Seq<Seq<char>>,
    pub cpu_cores: u32,
    pub mem_mb: u64,
    pub duration_secs: u64,
    pub bid: Seq<char>,
    pub grant: Option<Seq<char>>,
}

impl View for DeploySpec {
    type V = DeploySpecView;

    open spec fn view(&self) -> DeploySpecView {
        DeploySpecView {
            image: self.image@,
            cmd: text::texts(self.cmd@),
            cpu_cores: self.cpu_cores,
            mem_mb: self.mem_mb,
            duration_secs: self.duration_secs,
            bid: self.bid@,
            grant: text::opt_text(self.grant),
        }
    }
}

/// A plan and what to deploy on its targets.
#[derive(Debug, Clone, PartialEq)]
pub struct PlaceRequest {
    pub plan: PlacementPlan,
    pub deploy: DeploySpec,
}

/// What a [`PlaceRequest`] holds.
pub struct PlaceRequestView {
    pub plan: PlacementPlanView,
    pub deploy: DeploySpecView,
}

impl View for PlaceRequest {
    type V = PlaceRequestView;

    open spec fn view(&self) -> PlaceRequestView {
        PlaceRequestView {
            plan: self.plan@,
            deploy: self.deploy@,
        }
    }
}

/// One host's dispatch outcome.
#[derive(Debug, Clone, PartialEq)]
pub struct Dispatched {
    pub node_id: NodeId,
    pub replica: u32,
    pub ok: bool,
    pub job_id: Option<String>,
    pub error: Option<String>,
}

/// What a [`Dispatched`] holds.
pub struct DispatchedView {
    pub node_id: Seq<char>,
    pub replica: u32,
    pub ok: bool,
    pub job_id: Option<Seq<char>>,
    pub error: Option<Seq<char>>,
}

impl View for Dispatched {
    type V = DispatchedView;

    open spec fn view(&self) -> DispatchedView {
        DispatchedView {
            node_id: self.node_id@,
            replica: self.replica,
            ok: self.ok,
            job_id: text::opt_text(self.job_id),
            error: text::opt_text(self.error),
        }
    }
}

/// Dispatch outcomes, one per target.
#[derive(Debug, Clone, PartialEq)]
pub struct DispatchResult {
    pub dispatched: Vec<Dispatched>,
    /// How many of `dispatched` succeeded.
    pub placed: u32,
    pub assembled_at_ms: u64,
}

/// What a [`DispatchResult`] holds.
pub struct DispatchResultView {
    pub dispatched: Seq<DispatchedView>,
    pub placed: u32,
    pub assembled_at_ms: u64,
}

impl View for DispatchResult {
    type V = DispatchResultView;

    open spec fn view(&self) -> DispatchResultView {
        DispatchResultView {
            dispatched: self.dispatched@.map_values(|x: Dispatched| x@),
            placed: self.placed,
            assembled_at_ms: self.assembled_at_ms,
        }
    }
}

/// CPU axis of a [`NodeProfile`].
#[derive(Debug, Clone, Copy, Default, PartialEq)]
pub struct CpuProfile {
    pub cores: u32,
    pub threads: u32,
    pub gflops_fp32: Binary64,
    pub mem_bw_gbps: Binary64,
}

/// One accelerator in a [`NodeProfile`].
#[derive(Debug, Default, PartialEq)]
pub struct GpuInfo {
    pub model: String,
    pub backend: String,
    pub vram_mb: Binary64,
    pub fp16_tflops: Binary64,
}

/// What a [`GpuInfo`] holds.
pub struct GpuInfoView {
    pub model: Seq<char>,
    pub backend: Seq<char>,
    pub vram_mb: Binary64,
    pub fp16_tflops: Binary64,
}

impl View for GpuInfo {
    type V = GpuInfoView;

    open spec fn view(&self) -> GpuInfoView {
        GpuInfoView {
            model: self.model@,
            backend: self.backend@,
            vram_mb: self.vram_mb,
            fp16_tflops: self.fp16_tflops,
        }
    }
}

impl Clone for GpuInfo {
    fn clone(&self) -> (r: GpuInfo)
        ensures
            r@ == self@,
    {
        GpuInfo {
            model: self.model.clone(),
            backend: self.backend.clone(),
            vram_mb: self.vram_mb,
            fp16_tflops: self.fp16_tflops,
        }
    }
}

fn clone_gpus(s: &Vec<GpuInfo>) -> (r: Vec<GpuInfo>)
    ensures
        r@.map_values(|x: GpuInfo| x@) == s@.map_values(|x: GpuInfo| x@),
{
    let mut r: Vec<GpuInfo> = Vec::new();
    for i in 0..s.len()
        invariant
            r.len() == i,
            forall|j: int| 0 <= j < i ==> #[trigger] r@[j]@ == s@[j]@,
    {
        r.push(s[i].clone());
    }
    proof {
        assert(r@.map_values(|x: GpuInfo| x@) =~= s@.map_values(|x: GpuInfo| x@));
    }
    r
}

/// Memory axis.
#[derive(Debug, Clone, Copy, Default, PartialEq)]
pub struct MemoryInfo {
    pub total_mb: Binary64,
    pub available_mb: Binary64,
}

/// Storage axis.
#[derive(Debug, Clone, Copy, Default, PartialEq)]
pub struct StorageInfo {
    pub total_gb: Binary64,
    pub free_gb: Binary64,
    pub read_mbps: Binary64,
    pub write_mbps: Binary64,
}

/// LLM throughput axis.
#[derive(Debug, Default, PartialEq)]
pub struct LlmInfo {
    pub ref_model: String,
    pub tokens_per_sec: Binary64,
}

/// What a [`LlmInfo`] holds.
pub struct LlmInfoView {
    pub ref_model: Seq<char>,
    pub tokens_per_sec: Binary64,
}

impl View for LlmInfo {
    type V = LlmInfoView;

    open spec fn view(&self) -> LlmInfoView {
        LlmInfoView {
            ref_model: self.ref_model@,
            tokens_per_sec: self.tokens_per_sec,
        }
    }
}

impl Clone for LlmInfo {
    fn clone(&self) -> (r: LlmInfo)
        ensures
            r@ == self@,
    {
        LlmInfo {
            ref_model: self.ref_model.clone(),
            tokens_per_sec: self.tokens_per_sec,
        }
    }
}

/// Runtime and capability descriptor.
#[derive(Debug, Default, PartialEq)]
pub struct RuntimeInfo {
    pub os: String,
    pub arch: String,
    pub docker: bool,
    pub gvisor: bool,
    pub wasm: bool,
    /// `Native`, `Container` or `Browser`.
    pub kind: Option<String>,
}

/// What a [`RuntimeInfo`] holds.
pub struct RuntimeInfoView {
    pub os: Seq<char>,
    pub arch: Seq<char>,
    pub docker: bool,
    pub gvisor: bool,
    pub wasm: bool,
    pub kind: Option<Seq<char>>,
}

impl View for RuntimeInfo {
    type V = RuntimeInfoView;

    open spec fn view(&self) -> RuntimeInfoView {
        RuntimeInfoView {
            os: self.os@,
            arch: self.arch@,
            docker: self.docker,
            gvisor: self.gvisor,
            wasm: self.wasm,
            kind: text::opt_text(self.kind),
        }
    }
}

impl Clone for RuntimeInfo {
    fn clone(&self) -> (r: RuntimeInfo)
        ensures
            r@ == self@,
    {
        RuntimeInfo {
            os: self.os.clone(),
            arch: self.arch.clone(),
            docker: self.docker,
            gvisor: self.gvisor,
            wasm: self.wasm,
            kind: clone_opt_text(&self.kind),
        }
    }
}

/// The measured capability vector of a node.
#[derive(Debug, Default, PartialEq)]
pub struct NodeProfile {
    pub node_id: NodeId,
    pub measured_at: u64,
    pub cpu: CpuProfile,
    pub gpus: Vec<GpuInfo>,
    pub memory: MemoryInfo,
    pub storage: StorageInfo,
    pub llm: LlmInfo,
    pub runtime: RuntimeInfo,
    pub sig: Option<String>,
}

/// What a [`NodeProfile`] holds.
pub struct NodeProfileView {
    pub node_id: Seq<char>,
    pub measured_at: u64,
    pub cpu: CpuProfile,
    pub gpus: Seq<GpuInfoView>,
    pub memory: MemoryInfo,
    pub storage: StorageInfo,
    pub llm: LlmInfoView,
    pub runtime: RuntimeInfoView,
    pub sig: Option<Seq<char>>,
}

impl View for NodeProfile {
    type V = NodeProfileView;

    open spec fn view(&self) -> NodeProfileView {
        NodeProfileView {
            node_id: self.node_id@,
            measured_at: self.measured_at,
            cpu: self.cpu,
            gpus: self.gpus@.map_values(|x: GpuInfo| x@),
            memory: self.memory,
            storage: self.storage,
            llm: self.llm@,
            runtime: self.runtime@,
            sig: text::opt_text(self.sig),
        }
    }
}

impl Clone for NodeProfile {
    fn clone(&self) -> (r: NodeProfile)
        ensures
            r@ == self@,
    {
        let gpus = clone_gpus(&self.gpus);
        NodeProfile {
            node_id: self.node_id.clone(),
            measured_at: self.measured_at,
            cpu: self.cpu,
            gpus,
            memory: self.memory,
            storage: self.storage,
            llm: self.llm.clone(),
            runtime: self.runtime.clone(),
            sig: clone_opt_text(&self.sig),
        }
    }
}

/// Live capacity of a node.
#[derive(Debug, Default, PartialEq)]
pub struct NodeCapacity {
    pub node_id: NodeId,
    pub cpu_cores: u32,
    pub mem_mb: u64,
    pub running_jobs: u32,
    pub last_seen_secs: u64,
    pub tags: Vec<String>,
    /// Advertised price in base units, if any.
    pub ask_base_units: Option<String>,
}

/// What a [`NodeCapacity`] holds.
pub struct NodeCapacityView {
    pub node_id: Seq<char>,
    pub cpu_cores: u32,
    pub mem_mb: u64,
    pub running_jobs: u32,
    pub last_seen_secs: u64,
    pub tags: Seq<Seq<char>>,
    pub ask_base_units: Option<Seq<char>>,
}

impl View for NodeCapacity {
    type V = NodeCapacityView;

    open spec fn view(&self) -> NodeCapacityView {
        NodeCapacityView {
            node_id: self.node_id@,
            cpu_cores: self.cpu_cores,
            mem_mb: self.mem_mb,
            running_jobs: self.running_jobs,
            last_seen_secs: self.last_seen_secs,
            tags: text::texts(self.tags@),
            ask_base_units: text::opt_text(self.ask_base_units),
        }
    }
}

impl Clone for NodeCapacity {
    fn clone(&self) -> (r: NodeCapacity)
        ensures
            r@ == self@,
    {
        let tags = clone_texts(&self.tags);
        NodeCapacity {
            node_id: self.node_id.clone(),
            cpu_cores: self.cpu_cores,
            mem_mb: self.mem_mb,
            running_jobs: self.running_jobs,
            last_seen_secs: self.last_seen_secs,
            tags,
            ask_base_units: clone_opt_text(&self.ask_base_units),
        }
    }
}

/// An undirected latency edge.
#[derive(Debug, Default, PartialEq)]
pub struct MeshEdge {
    pub a: NodeId,
    pub b: NodeId,
    pub rtt_ms: Binary64,
    pub samples: u64,
    pub last_seen_secs: u64,
}

/// What a [`MeshEdge`] holds.
pub struct MeshEdgeView {
    pub a: Seq<char>,
    pub b: Seq<char>,
    pub rtt_ms: Binary64,
    pub samples: u64,
    pub last_seen_secs: u64,
}

impl View for MeshEdge {
    type V = MeshEdgeView;

    open spec fn view(&self) -> MeshEdgeView {
        MeshEdgeView {
            a: self.a@,
            b: self.b@,
            rtt_ms: self.rtt_ms,
            samples: self.samples,
            last_seen_secs: self.last_seen_secs,
        }
    }
}

impl Clone for MeshEdge {
    fn clone(&self) -> (r: MeshEdge)
        ensures
            r@ == self@,
    {
        MeshEdge {
            a: self.a.clone(),
            b: self.b.clone(),
            rtt_ms: self.rtt_ms,
            samples: self.samples,
            last_seen_secs: self.last_seen_secs,
        }
    }
}

/// One node's interaction facts, which trust is derived from.
#[derive(Debug, Default, PartialEq)]
pub struct NodeHistory {
    pub node_id: NodeId,
    /// Jobs this node hosted and was paid for.
    pub jobs_hosted: u64,
    /// Heartbeats this node hosted and was paid for.
    pub heartbeats_hosted: u64,
    /// All-time earnings in base units.
    pub earned: String,
    /// Recent earnings in base units.
    pub recent_earned: String,
    /// Owner record, when known.
    pub owner: Option<String>,
    /// Alternate operator key.
    pub operator: Option<String>,
}

/// What a [`NodeHistory`] holds.
pub struct NodeHistoryView {
    pub node_id: Seq<char>,
    pub jobs_hosted: u64,
    pub heartbeats_hosted: u64,
    pub earned: Seq<char>,
    pub recent_earned: Seq<char>,
    pub owner: Option<Seq<char>>,
    pub operator: Option<Seq<char>>,
}

impl View for NodeHistory {
    type V = NodeHistoryView;

    open spec fn view(&self) -> NodeHistoryView {
        NodeHistoryView {
            node_id: self.node_id@,
            jobs_hosted: self.jobs_hosted,
            heartbeats_hosted: self.heartbeats_hosted,
            earned: self.earned@,
            recent_earned: self.recent_earned@,
            owner: text::opt_text(self.owner),
            operator: text::opt_text(self.operator),
        }
    }
}

impl Clone for NodeHistory {
    fn clone(&self) -> (r: NodeHistory)
        ensures
            r@ == self@,
    {
        NodeHistory {
            node_id: self.node_id.clone(),
            jobs_hosted: self.jobs_hosted,
            heartbeats_hosted: self.heartbeats_hosted,
            earned: self.earned.clone(),
            recent_earned: self.recent_earned.clone(),
            owner: clone_opt_text(&self.owner),
            operator: clone_opt_text(&self.operator),
        }
    }
}

/// One row of the [`FabricMap`].
#[derive(Debug, Default, PartialEq)]
pub struct FabricNode {
    pub node_id: NodeId,
    pub capacity: NodeCapacity,
    /// Measured profile, when there is one.
    pub profile: Option<NodeProfile>,
    /// Interaction facts, when fetched.
    pub history: Option<NodeHistory>,
}

/// What a [`FabricNode`] holds.
pub struct FabricNodeView {
    pub node_id: Seq<char>,
    pub capacity: NodeCapacityView,
    pub profile: Option<NodeProfileView>,
    pub history: Option<NodeHistoryView>,
}

impl View for FabricNode {
    type V = FabricNodeView;

    open spec fn view(&self) -> FabricNodeView {
        FabricNodeView {
            node_id: self.node_id@,
            capacity: self.capacity@,
            profile: match self.profile { Some(x) => Some(x@), None => None },
            history: match self.history { Some(x) => Some(x@), None => None },
        }
    }
}

impl Clone for FabricNode {
    fn clone(&self) -> (r: FabricNode)
        ensures
            r@ == self@,
    {
        FabricNode {
            node_id: self.node_id.clone(),
            capacity: self.capacity.clone(),
            profile: match &self.profile { Some(x) => Some(x.clone()), None => None },
            history: match &self.history { Some(x) => Some(x.clone()), None => None },
        }
    }
}

/// Mesh-quality summary inside [`FabricStats`].
#[derive(Debug, Clone, Copy, Default, PartialEq)]
pub struct MeshSummary {
    pub median_rtt_ms: Binary64,
    pub reachable_frac: Binary64,
    pub regions: u64,
}

/// Node-kind census inside [`FabricStats`].
#[derive(Debug, Clone, Copy, Default, PartialEq, Eq, Structural)]
pub struct ByKind {
    pub native: u64,
    pub container: u64,
    pub browser: u64,
}

/// Network-wide scoreboard.
#[derive(Debug, Clone, Copy, Default, PartialEq)]
pub struct FabricStats {
    pub nodes: u64,
    pub cpu_cores: u64,
    pub cpu_gflops: Binary64,
    pub gpus: u64,
    pub gpu_vram_mb: Binary64,
    pub gpu_tflops: Binary64,
    pub tokens_per_sec: Binary64,
    pub storage_free_gb: Binary64,
    pub perf_score: Binary64,
    pub mesh: MeshSummary,
    pub by_kind: ByKind,
    pub computed_at: u64,
}

/// The assembled map that the planner scores hosts against.
#[derive(Debug, Clone, Default, PartialEq)]
pub struct FabricMap {
    /// Every known node.
    pub nodes: Vec<FabricNode>,
    /// Latency edges.
    pub edges: Vec<MeshEdge>,
    /// The node that the map was assembled from.
    pub origin: Option<NodeId>,
    pub stats: FabricStats,
    /// Public randomness captured at assembly time.
    pub beacon: BeaconRef,
    pub assembled_at_ms: u64,
}

/// What a [`FabricMap`] holds.
pub struct FabricMapView {
    pub nodes: Seq<FabricNodeView>,
    pub edges: Seq<MeshEdgeView>,
    pub origin: Option<Seq<char>>,
    pub stats: FabricStats,
    pub beacon: BeaconRefView,
    pub assembled_at_ms: u64,
}

impl View for FabricMap {
    type V = FabricMapView;

    open spec fn view(&self) -> FabricMapView {
        FabricMapView {
            nodes: self.nodes@.map_values(|x: FabricNode| x@),
            edges: self.edges@.map_values(|x: MeshEdge| x@),
            origin: text::opt_text(self.origin),
            stats: self.stats,
            beacon: self.beacon@,
            assembled_at_ms: self.assembled_at_ms,
        }
    }
}

impl FabricMapView {
    /// The position of the first row with the given id.
    pub open spec fn row_of(self, id: Seq<char>) -> Option<int> {
        first_row(self.nodes, id, 0)
    }
}

/// The first position at or after `from` whose row has the given id.
pub open spec fn first_row(nodes: Seq<FabricNodeView>, id: Seq<char>, from: int) -> Option<int>
    decreases nodes.len() - from,
{
    if from < 0 || from >= nodes.len() {
        None
    } else if nodes[from].node_id == id {
        Some(from)
    } else {
        first_row(nodes, id, from + 1)
    }
}

impl FabricMap {
    /// Looks up a node's row by id: the first one that carries it.
    pub fn node(&self, node_id: &str) -> (r: Option<&FabricNode>)
        ensures
            match r {
                Some(n) => self@.row_of(node_id@) is Some && n@ == self@.nodes[self@.row_of(node_id@)->0],
                None => self@.row_of(node_id@) is None && forall|i: int|
                    0 <= i < self@.nodes.len() ==> #[trigger] self@.nodes[i].node_id != node_id@,
            },
    {
        let mut i: usize = 0;
        while i < self.nodes.len()
            invariant
                i <= self.nodes.len(),
                self@.row_of(node_id@) == first_row(self@.nodes, node_id@, i as int),
                forall|j: int| 0 <= j < i ==> #[trigger] self@.nodes[j].node_id != node_id@,
            decreases self.nodes.len() - i,
        {
            proof {
                assert(self@.nodes[i as int] == self.nodes@[i as int]@);
            }
            if text::same(self.nodes[i].node_id.as_str(), node_id) {
                return Some(&self.nodes[i]);
            }
            i = i + 1;
        }
        None
    }
}

} // verus!
