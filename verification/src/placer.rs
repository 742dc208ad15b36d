//! The planner: a job and a fabric map in, a placement plan out.
//!
//! The beacon travels inside the map and "now" is the map's assembly time, so the same job and map
//! give the same plan.

use crate::api::{
    FabricMap, FabricMapView, JobSpec, JobSpecView, Objective, PlacementPlan, PlacementPlanView,
};
use crate::binary64::Binary64;
use crate::candidate::{self, CandidateView};
use crate::elementary::{self, Elementary};
use crate::feasibility;
use crate::fusion;
use crate::graph::{self, GraphOptions};
use crate::guarantees;
use crate::latency::LatencyModel;
use crate::redundancy;
use crate::scorer;
use crate::seed;
use crate::selection;
use crate::vendor::{self, GroupKey};
use vstd::prelude::*;

verus! {

/// Why there is no plan. A job that cannot be satisfied is no error: its plan is short.
#[derive(Debug, Clone, PartialEq, Eq, Structural)]
pub enum PlanError {
    /// The job names no payer.
    MissingPayer,
}

impl PlanError {
    pub open spec fn text(self) -> Seq<char> {
        "plan: spec.payer (the latency origin node id) is required"@
    }

    /// The error in words.
    pub fn message(&self) -> (r: String)
        ensures
            r@ == self.text(),
    {
        match self {
            PlanError::MissingPayer => "plan: spec.payer (the latency origin node id) is required".to_owned(),
        }
    }
}

/// The latency model of a map.
pub open spec fn map_model(map: FabricMapView) -> LatencyModel {
    graph::graph_of_map(map, GraphOptions::standard()).model()
}

/// The seconds at which a map was assembled.
pub open spec fn map_now(map: FabricMapView) -> u64 {
    map.assembled_at_ms / 1000
}

/// The tagged candidates of a job.
pub open spec fn map_pool(spec: JobSpecView, map: FabricMapView) -> Seq<CandidateView> {
    vendor::tagged(
        feasibility::survivors(map.nodes, spec, map_model(map), map_now(map)),
        Some(map_model(map)),
    )
}

/// The plan for a job against a map.
pub open spec fn planned(
    spec: JobSpecView,
    map: FabricMapView,
    m: spec_fn(Elementary, Binary64) -> Binary64,
) -> Result<PlacementPlanView, PlanError> {
    if seed::or_empty(spec.payer).len() == 0 {
        Err(PlanError::MissingPayer)
    } else {
        let model = Some(map_model(map));
        let pool = map_pool(spec, map);
        let outcome = selection::selected(
            pool,
            spec,
            model,
            seed::seed_of(map.beacon, spec),
            selection::pool_scores(pool, spec, model, m),
            m,
        );
        Ok(
            PlacementPlanView {
                targets: outcome.targets,
                effective_k: outcome.effective_k,
                requested_k: redundancy::requested(spec),
                beacon: map.beacon,
                weights: scorer::normalized(scorer::raw_weights(spec)),
                objective: (match spec.objective {
                    Some(o) => o,
                    None => Objective::Balanced,
                }).name(),
                relaxed: outcome.relaxed,
                shortfall: outcome.shortfall,
                rejected: outcome.rejected,
                assembled_at_ms: map.assembled_at_ms,
            },
        )
    }
}

/// The counts in a map fit their counters: the number of rows and edges, the samples of fused edges,
/// and the delivered work of the hosts that can take the job.
pub open spec fn counts_fit(spec: JobSpecView, map: FabricMapView) -> bool {
    &&& map.nodes.len() <= u32::MAX
    &&& 2 * map.edges.len() + map.nodes.len() <= i64::MAX
    &&& fusion::countable(map.edges)
    &&& forall|i: int|
        0 <= i < map.nodes.len() && feasibility::passes(
            #[trigger] map.nodes[i],
            spec,
            map_model(map),
            map_now(map),
        ) ==> match map.nodes[i].history {
            Some(h) => h.delivered() <= u64::MAX,
            None => true,
        }
}

/// Whether the counts in a map fit their counters, so that the job can be planned.
pub fn fits(spec: &JobSpec, map: &FabricMap) -> (r: bool)
    ensures
        r == counts_fit(spec@, map@),
{
    if map.nodes.len() > 0xffff_ffff || map.edges.len() as u64 > (0x7fff_ffff_ffff_ffff - map.nodes.len() as u64) / 2 {
        return false;
    }
    if !fusion::are_countable(map.edges.as_slice()) {
        return false;
    }
    let graph = graph::build_graph(map, &GraphOptions::default());
    let now: u64 = map.assembled_at_ms / 1000;
    let found = feasibility::feasible(map, spec, &graph, now);
    let ghost model = map_model(map@);
    let ghost rows = map@.nodes;
    let ghost pool = feasibility::survivors(rows, spec@, model, now);
    for i in 0..found.len()
        invariant
            candidate::pool_view(found@) == pool,
            pool == feasibility::survivors(rows, spec@, model, now),
            rows == map@.nodes,
            model == map_model(map@),
            now == map_now(map@),
            forall|j: int| 0 <= j < i ==> (#[trigger] pool[j]).countable(),
    {
        proof {
            assert(pool[i as int] == found@[i as int]@);
        }
        match &found[i].history {
            Some(h) => {
                if h.heartbeats_hosted > 0xffff_ffff_ffff_ffff - h.jobs_hosted {
                    proof {
                        let row = feasibility::lemma_survivor_row(rows, spec@, model, now, i as int);
                        assert(feasibility::passes(rows[row], spec@, model, now));
                    }
                    return false;
                }
            },
            None => {},
        }
    }
    proof {
        assert forall|row: int| 0 <= row < rows.len() && feasibility::passes(
            #[trigger] rows[row],
            spec@,
            model,
            now,
        ) implies match rows[row].history {
            Some(h) => h.delivered() <= u64::MAX,
            None => true,
        } by {
            let i = feasibility::lemma_passing_row_survives(rows, spec@, model, now, row);
            assert(pool[i].countable());
        }
    }
    true
}

/// Produces a placement plan for a job against a map.
pub fn plan<M: Fn(Elementary, Binary64) -> Binary64>(spec: &JobSpec, map: &FabricMap, math: &M) -> (r: Result<
    PlacementPlan,
    PlanError,
>)
    requires
        elementary::steady(*math),
        counts_fit(spec@, map@),
    ensures
        match (r, planned(spec@, map@, elementary::answers(*math))) {
            (Ok(p), Ok(v)) => p@ == v,
            (Err(e), Err(f)) => e == f,
            _ => false,
        },
{
    match &spec.payer {
        Some(p) => {
            if p.as_str().is_empty() {
                return Err(PlanError::MissingPayer);
            }
        },
        None => {
            return Err(PlanError::MissingPayer);
        },
    }
    let graph = graph::build_graph(map, &GraphOptions::default());
    let now: u64 = map.assembled_at_ms / 1000;
    let found = feasibility::feasible(map, spec, &graph, now);
    let ghost model = map_model(map@);
    let ghost first = feasibility::survivors(map@.nodes, spec@, model, now);
    let pool = vendor::tag_candidates(found, Some(&graph));
    proof {
        feasibility::lemma_survivors_bounded(map@.nodes, spec@, model, now);
        assert(candidate::pool_view(pool@).len() == pool@.len());
        assert forall|i: int| 0 <= i < pool.len() implies (#[trigger] pool@[i])@.countable() by {
            assert(candidate::pool_view(pool@)[i] == pool@[i]@);
            let row = feasibility::lemma_survivor_row(map@.nodes, spec@, model, now, i);
            assert(feasibility::passes(map@.nodes[row], spec@, model, now));
            assert(pool@[i]@.history == first[i].history);
        }
    }
    let seed: u32 = seed::beacon_seed(&map.beacon, spec);
    let outcome = selection::select(pool, spec, Some(&graph), seed, math);
    let objective: Objective = match spec.objective {
        Some(o) => o,
        None => Objective::Balanced,
    };
    Ok(
        PlacementPlan {
            targets: outcome.targets,
            effective_k: outcome.effective_k,
            requested_k: redundancy::spec_k(spec),
            beacon: map.beacon.clone(),
            weights: scorer::resolve_weights(spec),
            objective: objective.as_str().to_owned(),
            relaxed: outcome.relaxed,
            shortfall: outcome.shortfall,
            rejected: outcome.rejected,
            assembled_at_ms: map.assembled_at_ms,
        },
    )
}

// ---- laws ----

/// Every candidate of a job stands for a row of the map that meets every hard constraint, and carries
/// its groups.
pub proof fn lemma_pool_row(spec: JobSpecView, map: FabricMapView, i: int) -> (row: int)
    requires
        0 <= i < map_pool(spec, map).len(),
    ensures
        map_pool(spec, map).len() <= map.nodes.len(),
        0 <= row < map.nodes.len(),
        feasibility::passes(map.nodes[row], spec, map_model(map), map_now(map)),
        map_pool(spec, map)[i].node_id == map.nodes[row].node_id,
        map_pool(spec, map)[i].groups is Some,
{
    let model = map_model(map);
    feasibility::lemma_survivors_bounded(map.nodes, spec, model, map_now(map));
    let row = feasibility::lemma_survivor_row(map.nodes, spec, model, map_now(map), i);
    row
}

proof fn lemma_pool(spec: JobSpecView, map: FabricMapView)
    ensures
        map_pool(spec, map).len() <= map.nodes.len(),
        forall|i: int| 0 <= i < map_pool(spec, map).len() ==> (#[trigger] map_pool(spec, map)[i]).groups is Some,
{
    feasibility::lemma_survivors_bounded(map.nodes, spec, map_model(map), map_now(map));
}

/// A plan refuses no job but one without a payer: a job that no host can take has an empty, short
/// plan. What is placed and what is missing add up to the replicas aimed for, at least what was asked
/// for, and the plan echoes the beacon and the assembly time of the map.
pub proof fn lemma_plan_accounts_for_every_replica(
    spec: JobSpecView,
    map: FabricMapView,
    m: spec_fn(Elementary, Binary64) -> Binary64,
)
    requires
        map.nodes.len() <= u32::MAX,
    ensures
        planned(spec, map, m) is Err <==> seed::or_empty(spec.payer).len() == 0,
        planned(spec, map, m) matches Ok(plan) ==> {
            &&& plan.targets.len() + plan.shortfall == plan.effective_k
            &&& plan.effective_k >= plan.requested_k >= 1
            &&& plan.beacon == map.beacon
            &&& plan.assembled_at_ms == map.assembled_at_ms
            &&& map_pool(spec, map).len() == 0 ==> plan.targets.len() == 0
            &&& forall|r: int| 0 <= r < plan.targets.len() ==> (#[trigger] plan.targets[r]).replica == r
        },
{
    let model = Some(map_model(map));
    let pool = map_pool(spec, map);
    let scores = selection::pool_scores(pool, spec, model, m);
    lemma_pool(spec, map);
    guarantees::lemma_placed_and_missing_add_up(pool, spec, model, seed::seed_of(map.beacon, spec), scores, m);
    guarantees::lemma_targets_are_distinct_candidates(pool, spec, model, seed::seed_of(map.beacon, spec), scores, m);
    if pool.len() == 0 && planned(spec, map, m) is Ok {
        let o = selection::selected(pool, spec, model, seed::seed_of(map.beacon, spec), scores, m);
        if o.targets.len() > 0 {
            assert(o.targets[0].node_id == o.targets[0].node_id);
        }
    }
}

/// The id is that of a row that meets every hard constraint.
pub open spec fn can_host(spec: JobSpecView, map: FabricMapView, id: Seq<char>) -> bool {
    exists|row: int|
        0 <= row < map.nodes.len() && (#[trigger] map.nodes[row]).node_id == id && feasibility::passes(
            map.nodes[row],
            spec,
            map_model(map),
            map_now(map),
        )
}

/// Hard constraints never trade off against score: every target is a row of the map that meets them
/// all, and no host is placed on twice.
pub proof fn lemma_every_target_meets_the_constraints(
    spec: JobSpecView,
    map: FabricMapView,
    m: spec_fn(Elementary, Binary64) -> Binary64,
)
    requires
        map.nodes.len() <= u32::MAX,
    ensures
        planned(spec, map, m) matches Ok(plan) ==> {
            &&& forall|r: int| 0 <= r < plan.targets.len() ==> can_host(spec, map, (#[trigger] plan.targets[r]).node_id)
            &&& forall|r: int, q: int|
                0 <= r < q < plan.targets.len() ==> (#[trigger] plan.targets[r]).node_id != (
                #[trigger] plan.targets[q]).node_id
        },
{
    let model = Some(map_model(map));
    let pool = map_pool(spec, map);
    let seed = seed::seed_of(map.beacon, spec);
    let scores = selection::pool_scores(pool, spec, model, m);
    lemma_pool(spec, map);
    guarantees::lemma_targets_are_distinct_candidates(pool, spec, model, seed, scores, m);
    let o = selection::selected(pool, spec, model, seed, scores, m);
    assert forall|r: int| 0 <= r < o.targets.len() implies can_host(spec, map, (#[trigger] o.targets[r]).node_id) by {
        let i = choose|i: int|
            0 <= i < pool.len() && o.targets[r].node_id == (#[trigger] pool[i]).node_id && o.targets[r].score
                == scores[i].score && o.targets[r].rtt_ms == pool[i].rtt_ms;
        let row = lemma_pool_row(spec, map, i);
        assert(map.nodes[row].node_id == o.targets[r].node_id);
    }
}

/// Replicas that are to be verified against each other are on distinct operators.
pub proof fn lemma_verified_plans_span_operators(
    spec: JobSpecView,
    map: FabricMapView,
    m: spec_fn(Elementary, Binary64) -> Binary64,
)
    requires
        map.nodes.len() <= u32::MAX,
        redundancy::verifies(spec),
    ensures
        planned(spec, map, m) matches Ok(plan) ==> forall|r: int, q: int|
            0 <= r < q < plan.targets.len() ==> (#[trigger] plan.targets[r]).groups.operator != (
            #[trigger] plan.targets[q]).groups.operator,
{
    let model = Some(map_model(map));
    let pool = map_pool(spec, map);
    let seed = seed::seed_of(map.beacon, spec);
    let scores = selection::pool_scores(pool, spec, model, m);
    lemma_pool(spec, map);
    guarantees::lemma_verified_replicas_have_distinct_operators(pool, spec, model, seed, scores, m);
}

/// Every host that can take the job is a candidate.
proof fn lemma_host_is_candidate(spec: JobSpecView, map: FabricMapView, id: Seq<char>) -> (i: int)
    requires
        can_host(spec, map, id),
    ensures
        0 <= i < map_pool(spec, map).len(),
        map_pool(spec, map)[i].node_id == id,
{
    let row = choose|row: int|
        0 <= row < map.nodes.len() && (#[trigger] map.nodes[row]).node_id == id && feasibility::passes(
            map.nodes[row],
            spec,
            map_model(map),
            map_now(map),
        );
    feasibility::lemma_passing_row_survives(map.nodes, spec, map_model(map), map_now(map), row)
}

/// Every host that can take the job is accounted for: it is a target, or it is rejected,
/// never both.
pub proof fn lemma_every_host_is_accounted_for(
    spec: JobSpecView,
    map: FabricMapView,
    m: spec_fn(Elementary, Binary64) -> Binary64,
    id: Seq<char>,
)
    requires
        map.nodes.len() <= u32::MAX,
        can_host(spec, map, id),
    ensures
        planned(spec, map, m) matches Ok(plan) ==> (guarantees::is_target(plan.targets, id)
            <==> !guarantees::is_rejected(plan.rejected, id)),
{
    let model = Some(map_model(map));
    let pool = map_pool(spec, map);
    let seed = seed::seed_of(map.beacon, spec);
    let scores = selection::pool_scores(pool, spec, model, m);
    lemma_pool(spec, map);
    let i = lemma_host_is_candidate(spec, map, id);
    guarantees::lemma_every_candidate_is_accounted_for(pool, spec, model, seed, scores, m, i);
}

/// Independence is never compromised in silence: unless the plan reports that the cap on a kind of
/// group was loosened, no group of that kind holds more targets than its share of the replicas,
/// rounded up.
pub proof fn lemma_plan_reports_what_it_relaxed(
    spec: JobSpecView,
    map: FabricMapView,
    m: spec_fn(Elementary, Binary64) -> Binary64,
    key: GroupKey,
    value: Seq<char>,
)
    requires
        map.nodes.len() <= u32::MAX,
        guarantees::is_signal(key, value),
        selection::colocates(spec) ==> key != GroupKey::Region,
    ensures
        planned(spec, map, m) matches Ok(plan) ==> plan.relaxed.contains(key.name()) || guarantees::holding(
            plan.targets,
            key,
            value,
        ) <= vendor::group_cap(
            plan.effective_k,
            match spec.max_share {
                Some(s) => s,
                None => Binary64::fraction(34, 100),
            },
        ),
{
    let model = Some(map_model(map));
    let pool = map_pool(spec, map);
    let seed = seed::seed_of(map.beacon, spec);
    let scores = selection::pool_scores(pool, spec, model, m);
    lemma_pool(spec, map);
    if !selection::selected(pool, spec, model, seed, scores, m).relaxed.contains(key.name()) {
        guarantees::lemma_no_group_exceeds_its_cap(pool, spec, model, seed, scores, m, key, value);
    }
}

/// A plan can be replayed: it depends on the map only through the rows, the edges and the assembly
/// time, and on the beacon, beyond echoing it, only through the seed.
pub proof fn lemma_plan_replays(
    spec: JobSpecView,
    map: FabricMapView,
    other: FabricMapView,
    m: spec_fn(Elementary, Binary64) -> Binary64,
)
    requires
        map.nodes == other.nodes,
        map.edges == other.edges,
        map.assembled_at_ms == other.assembled_at_ms,
        seed::seed_of(map.beacon, spec) == seed::seed_of(other.beacon, spec),
    ensures
        match (planned(spec, map, m), planned(spec, other, m)) {
            (Ok(a), Ok(b)) => a == (PlacementPlanView { beacon: map.beacon, ..b }),
            (Err(a), Err(b)) => a == b,
            _ => false,
        },
{
}

} // verus!
