//! What goes where when rows, scoreboards and plans are made.

use crate::api::{
    self, FabricMapView, FabricNodeView, JobSpecView, NodeCapacityView, NodeProfileView, Objective, PlanTargetView,
    Weights,
};
use crate::assembly::{self, AtlasRow, BenchMap, BenchNodeEntryView, PeerRow};
use crate::binary64::{self, Binary64};
use crate::blending;
use crate::bounds::unit;
use crate::counting;
use crate::dispatch;
use crate::elementary::Elementary;
use crate::feasibility;
use crate::graph;
use crate::guarantees;
use crate::order;
use crate::placer::{self, PlanError};
use crate::scorer;
use crate::seed;
use crate::selection;
use crate::vendor;
use vstd::prelude::*;

verus! {

// ---- rows and edges ----

/// An atlas row becomes a map row with its own figures, its history, no profile and no ask.
pub proof fn lemma_atlas_rows_keep_their_figures(e: AtlasRow)
    ensures
        ({
            let n = assembly::atlas_node(e);
            &&& n.node_id == e.node_id@
            &&& n.capacity.node_id == e.node_id@
            &&& n.capacity.cpu_cores == e.cpu_cores
            &&& n.capacity.mem_mb == e.mem_mb
            &&& n.capacity.running_jobs == e.running_jobs
            &&& n.capacity.last_seen_secs == e.last_seen_secs
            &&& n.capacity.tags.len() == e.tags@.len()
            &&& forall|i: int| 0 <= i < e.tags@.len() ==> #[trigger] n.capacity.tags[i] == e.tags@[i]@
            &&& n.capacity.ask_base_units is None
            &&& n.profile is None
            &&& e.history is None ==> n.history is None
            &&& e.history matches Some(h) ==> n.history == Some(h@)
        }),
{
}

/// A peer row becomes an edge from the origin to the peer, with its own figures.
pub proof fn lemma_peer_rows_keep_their_figures(origin: Seq<char>, p: PeerRow)
    ensures
        ({
            let e = assembly::peer_edge(origin, p);
            &&& e.a == origin && e.b == p.peer@
            &&& e.rtt_ms == p.rtt_ms
            &&& e.samples == p.samples
            &&& e.last_seen_secs == p.last_seen_secs
        }),
{
}

/// The scoreboard of a merged map has the figures of the benchmark map, each under its own name; rows keep
/// their order, and the rest of the map is as it was.
pub proof fn lemma_scoreboards_keep_their_figures(map: FabricMapView, bench: BenchMap)
    ensures
        ({
            let r = assembly::merged(map, bench);
            let s = r.stats;
            &&& s.nodes == bench.node_count
            &&& s.cpu_cores == bench.cpu_cores && s.cpu_gflops == bench.cpu_gflops
            &&& s.gpus == bench.gpus && s.gpu_vram_mb == bench.gpu_vram_mb && s.gpu_tflops == bench.gpu_tflops
            &&& s.tokens_per_sec == bench.tokens_per_sec
            &&& s.storage_free_gb == bench.storage_free_gb
            &&& s.perf_score == bench.perf_score
            &&& s.mesh.median_rtt_ms == bench.mesh.median_rtt_ms
            &&& s.mesh.reachable_frac == bench.mesh.reachable_frac
            &&& s.mesh.regions == bench.mesh.regions
            &&& s.by_kind.native == bench.by_kind.native
            &&& s.by_kind.container == bench.by_kind.container
            &&& s.by_kind.browser == bench.by_kind.browser
            &&& s.computed_at == bench.computed_at
            &&& r.edges == map.edges && r.origin == map.origin && r.beacon == map.beacon
            &&& r.assembled_at_ms == map.assembled_at_ms
        }),
{
}

/// The capacity that a profile implies: its cores, its whole megabytes, nothing running, live as of the
/// measurement, no ask; and as tags its system and architecture, where they are named, and `docker`,
/// `wasm` and `gpu` where it has them, and nothing else.
pub proof fn lemma_implied_capacity(id: Seq<char>, p: NodeProfileView)
    ensures
        ({
            let u = binary64::one_unit();
            let c = assembly::implied_capacity(id, p);
            let mb = p.memory.total_mb;
            &&& c.node_id == id
            &&& c.cpu_cores == p.cpu.cores
            &&& c.running_jobs == 0
            &&& c.last_seen_secs == p.measured_at
            &&& c.ask_base_units is None
            &&& mb.nan() || mb.value() <= 0 ==> c.mem_mb == 0
            &&& mb.finite() && 0 <= mb.value() < 0x1_0000_0000_0000_0000 * u ==> c.mem_mb * u <= mb.value() < (c.mem_mb
                + 1) * u
            &&& !mb.nan() && mb.value() >= 0x1_0000_0000_0000_0000 * u ==> c.mem_mb == u64::MAX
            &&& forall|t: Seq<char>| #[trigger] c.tags.contains(t) <==> {
                ||| t == p.runtime.os && t.len() > 0
                ||| t == p.runtime.arch && t.len() > 0
                ||| t == "docker"@ && p.runtime.docker
                ||| t == "wasm"@ && p.runtime.wasm
                ||| t == "gpu"@ && p.gpus.len() > 0
            }
        }),
{
    let u = binary64::one_unit();
    let mb = p.memory.total_mb;
    order::lemma_constants();
    let v = mb.value();
    let f = v / u;
    assert(f * u <= v < (f + 1) * u) by (nonlinear_arith)
        requires
            f == v / u,
            u > 0,
    ;
    assert(v >= 0 ==> f >= 0) by (nonlinear_arith)
        requires
            f == v / u,
            u > 0,
    ;
    assert(0int / u == 0) by (nonlinear_arith)
        requires
            u > 0,
    ;
    assert(v < 0x1_0000_0000_0000_0000 * u ==> f < 0x1_0000_0000_0000_0000) by (nonlinear_arith)
        requires
            f * u <= v,
            u > 0,
    ;
    assert(v >= 0x1_0000_0000_0000_0000 * u ==> f >= 0x1_0000_0000_0000_0000) by (nonlinear_arith)
        requires
            v < (f + 1) * u,
            u > 0,
    ;
    let a = assembly::only_if(p.runtime.os.len() > 0, p.runtime.os);
    let b = assembly::only_if(p.runtime.arch.len() > 0, p.runtime.arch);
    let c = assembly::only_if(p.runtime.docker, "docker"@);
    let d = assembly::only_if(p.runtime.wasm, "wasm"@);
    let e = assembly::only_if(p.gpus.len() > 0, "gpu"@);
    assert forall|t: Seq<char>| #[trigger] assembly::implied_capacity(id, p).tags.contains(t) <==> {
        ||| t == p.runtime.os && t.len() > 0
        ||| t == p.runtime.arch && t.len() > 0
        ||| t == "docker"@ && p.runtime.docker
        ||| t == "wasm"@ && p.runtime.wasm
        ||| t == "gpu"@ && p.gpus.len() > 0
    } by {
        lemma_joined(a, b, t);
        lemma_joined(a + b, c, t);
        lemma_joined(a + b + c, d, t);
        lemma_joined(a + b + c + d, e, t);
        lemma_only_if(p.runtime.os.len() > 0, p.runtime.os, t);
        lemma_only_if(p.runtime.arch.len() > 0, p.runtime.arch, t);
        lemma_only_if(p.runtime.docker, "docker"@, t);
        lemma_only_if(p.runtime.wasm, "wasm"@, t);
        lemma_only_if(p.gpus.len() > 0, "gpu"@, t);
    }
}

proof fn lemma_joined(a: Seq<Seq<char>>, b: Seq<Seq<char>>, t: Seq<char>)
    ensures
        (a + b).contains(t) <==> a.contains(t) || b.contains(t),
{
    let s = a + b;
    if s.contains(t) {
        let i = choose|i: int| 0 <= i < s.len() && s[i] == t;
        if i < a.len() {
            assert(a[i] == t);
        } else {
            assert(b[i - a.len()] == t);
        }
    }
    if a.contains(t) {
        let i = choose|i: int| 0 <= i < a.len() && a[i] == t;
        assert(s[i] == t);
    }
    if b.contains(t) {
        let i = choose|i: int| 0 <= i < b.len() && b[i] == t;
        assert(s[a.len() + i] == t);
    }
}

proof fn lemma_only_if(cond: bool, s: Seq<char>, t: Seq<char>)
    ensures
        assembly::only_if(cond, s).contains(t) <==> cond && s == t,
{
    if cond {
        assert(assembly::only_if(cond, s)[0] == s);
    }
}

/// A node that only gossip knows has the capacity that its profile implies, and none without one; it was
/// live at the later of the measurement and the last time it was heard.
pub proof fn lemma_gossip_capacity(e: BenchNodeEntryView)
    ensures
        ({
            let c = assembly::gossip_capacity(e);
            let measured = match e.profile {
                Some(p) => p.measured_at,
                None => 0,
            };
            let heard = match e.reliability {
                Some(r) => r.last_seen,
                None => 0,
            };
            &&& c.node_id == e.node_id
            &&& c.last_seen_secs == if heard > measured { heard } else { measured }
            &&& e.profile matches Some(p) ==> {
                let full = assembly::implied_capacity(e.node_id, p);
                c.cpu_cores == full.cpu_cores && c.mem_mb == full.mem_mb && c.tags == full.tags
            }
            &&& e.profile is None ==> c.cpu_cores == 0 && c.mem_mb == 0 && c.tags.len() == 0
            &&& c.running_jobs == 0 && c.ask_base_units is None
        }),
{
}

// ---- plans ----

/// There is a plan exactly where the job names a payer. It reports the job and the map that it was made
/// for: the count that was asked for, the objective, the weights in the proportions that the job names,
/// the beacon and the time of assembly.
pub proof fn lemma_plans_report_what_they_answer(
    spec: JobSpecView,
    map: FabricMapView,
    m: spec_fn(Elementary, Binary64) -> Binary64,
)
    ensures
        ({
            let named = spec.payer matches Some(p) && p.len() > 0;
            let r = placer::planned(spec, map, m);
            &&& !named ==> r == Err::<crate::api::PlacementPlanView, PlanError>(PlanError::MissingPayer)
            &&& named ==> r is Ok
            &&& r matches Ok(plan) ==> {
                &&& plan.requested_k == match spec.k {
                    Some(k) => if k > 0 { k } else { 1 },
                    None => 1,
                }
                &&& plan.beacon == map.beacon
                &&& plan.assembled_at_ms == map.assembled_at_ms
                &&& plan.objective == match spec.objective {
                    Some(Objective::Latency) => "latency"@,
                    Some(Objective::Throughput) => "throughput"@,
                    Some(Objective::Balanced) => "balanced"@,
                    Some(Objective::Cheap) => "cheap"@,
                    None => "balanced"@,
                }
            }
        }),
{
}

/// The weights of a plan are in the proportions that the job names, to within one part in 2^50, and its
/// penalty coefficient is the one that the job names.
pub proof fn lemma_plans_weigh_in_proportion(
    spec: JobSpecView,
    map: FabricMapView,
    m: spec_fn(Elementary, Binary64) -> Binary64,
    o: Weights,
)
    requires
        placer::planned(spec, map, m) is Ok,
        spec.weights == Some(o),
        o.w_l.finite() && o.w_b.finite() && o.w_t.finite() && o.w_p.finite() && o.w_d.finite(),
        0 <= o.w_l.value() && 0 <= o.w_b.value() && 0 <= o.w_t.value() && 0 <= o.w_p.value() && 0 <= o.w_d.value(),
        0 < o.w_l.value() + o.w_b.value() + o.w_t.value() + o.w_p.value() <= unit(968),
    ensures
        ({
            let v = placer::planned(spec, map, m)->Ok_0.weights;
            let u = binary64::one_unit();
            let sum = o.w_l.value() + o.w_b.value() + o.w_t.value() + o.w_p.value();
            let slack = u * sum;
            &&& -slack <= (v.w_l.value() * sum - o.w_l.value() * u) * 0x4_0000_0000_0000 <= slack
            &&& -slack <= (v.w_b.value() * sum - o.w_b.value() * u) * 0x4_0000_0000_0000 <= slack
            &&& -slack <= (v.w_t.value() * sum - o.w_t.value() * u) * 0x4_0000_0000_0000 <= slack
            &&& -slack <= (v.w_p.value() * sum - o.w_p.value() * u) * 0x4_0000_0000_0000 <= slack
            &&& v.w_d == o.w_d
        }),
{
    blending::lemma_weights_in_proportion(spec, o);
}

/// Every target of a plan is a candidate of the job, scored for this job against the graph of this map.
pub proof fn lemma_targets_carry_their_scores(
    spec: JobSpecView,
    map: FabricMapView,
    m: spec_fn(Elementary, Binary64) -> Binary64,
    r: int,
)
    requires
        map.nodes.len() <= u32::MAX,
        placer::planned(spec, map, m) is Ok,
        0 <= r < placer::planned(spec, map, m)->Ok_0.targets.len(),
    ensures
        ({
            let t = placer::planned(spec, map, m)->Ok_0.targets[r];
            let model = graph::graph_of_map(map, graph::GraphOptions::standard()).model();
            let all = feasibility::survivors(map.nodes, spec, model, map.assembled_at_ms / 1000);
            let pool = vendor::tagged(all, Some(model));
            exists|i: int|
                0 <= i < pool.len() && t.node_id == (#[trigger] pool[i]).node_id && t.rtt_ms == pool[i].rtt_ms && t.score
                    == scorer::scored(pool[i], spec, Some(model), m).score
        }),
{
    let model = Some(placer::map_model(map));
    let pool = placer::map_pool(spec, map);
    let s = seed::seed_of(map.beacon, spec);
    let scores = selection::pool_scores(pool, spec, model, m);
    feasibility::lemma_survivors_bounded(map.nodes, spec, placer::map_model(map), placer::map_now(map));
    guarantees::lemma_targets_are_distinct_candidates(pool, spec, model, s, scores, m);
    let o = selection::selected(pool, spec, model, s, scores, m);
    let t = o.targets[r];
    let i = choose|i: int|
        0 <= i < pool.len() && t.node_id == (#[trigger] pool[i]).node_id && t.score == scores[i].score && t.rtt_ms
            == pool[i].rtt_ms;
    assert(scores[i] == scorer::scored(pool[i], spec, model, m));
}

// ---- rows by id ----

/// A row is looked up by the first one that carries the id.
pub proof fn lemma_first_row_is_first(rows: Seq<FabricNodeView>, id: Seq<char>, from: int)
    requires
        0 <= from,
    ensures
        match api::first_row(rows, id, from) {
            Some(i) => from <= i < rows.len() && rows[i].node_id == id && forall|j: int|
                from <= j < i ==> (#[trigger] rows[j]).node_id != id,
            None => forall|j: int| from <= j < rows.len() ==> (#[trigger] rows[j]).node_id != id,
        },
    decreases rows.len() - from,
{
    if from < rows.len() && rows[from].node_id != id {
        lemma_first_row_is_first(rows, id, from + 1);
    }
}

/// A capacity is looked up by the last row that carries the id.
pub proof fn lemma_last_row_is_last(rows: Seq<NodeCapacityView>, id: Seq<char>, n: nat)
    requires
        n <= rows.len(),
    ensures
        match graph::last_row(rows, id, n) {
            Some(i) => 0 <= i < n && rows[i].node_id == id && forall|j: int|
                i < j < n ==> (#[trigger] rows[j]).node_id != id,
            None => forall|j: int| 0 <= j < n ==> (#[trigger] rows[j]).node_id != id,
        },
    decreases n,
{
    if n > 0 && rows[n - 1].node_id != id {
        lemma_last_row_is_last(rows, id, (n - 1) as nat);
    }
}

// ---- merging ----

/// The row that stands for an id.
spec fn stands(rows: Seq<FabricNodeView>, id: Seq<char>, i: int) -> bool {
    0 <= i < rows.len() && rows[i].node_id == id && forall|j: int| 0 <= j < i ==> (#[trigger] rows[j]).node_id != id
}

proof fn lemma_folding_keeps_rows(rows: Seq<FabricNodeView>, all: Seq<BenchNodeEntryView>, m: nat, n: nat, i: int)
    requires
        m <= n <= all.len(),
        0 <= i < assembly::folded(rows, all, m).len(),
    ensures
        ({
            let (a, b) = (assembly::folded(rows, all, m), assembly::folded(rows, all, n));
            &&& a.len() <= b.len()
            &&& b[i].node_id == a[i].node_id && b[i].capacity == a[i].capacity && b[i].history == a[i].history
            &&& (forall|k: int| m <= k < n ==> (#[trigger] all[k]).node_id != a[i].node_id || all[k].profile is None)
                ==> b[i] == a[i]
        }),
    decreases n - m,
{
    if m < n {
        let l = (n - 1) as nat;
        lemma_folding_keeps_rows(rows, all, m, l, i);
        let before = assembly::folded(rows, all, l);
        lemma_first_row_is_first(before, all[n - 1].node_id, 0);
        if forall|k: int|
            m <= k < n ==> (#[trigger] all[k]).node_id != assembly::folded(rows, all, m)[i].node_id || all[k].profile is None {
            assert(all[n - 1].node_id != before[i].node_id || all[n - 1].profile is None);
        }
    }
}

proof fn lemma_standing_row_stays(
    rows: Seq<FabricNodeView>,
    all: Seq<BenchNodeEntryView>,
    m: nat,
    n: nat,
    id: Seq<char>,
    i: int,
)
    requires
        m <= n <= all.len(),
        stands(assembly::folded(rows, all, m), id, i),
    ensures
        stands(assembly::folded(rows, all, n), id, i),
{
    let (a, b) = (assembly::folded(rows, all, m), assembly::folded(rows, all, n));
    lemma_folding_keeps_rows(rows, all, m, n, i);
    assert forall|j: int| 0 <= j < i implies (#[trigger] b[j]).node_id != id by {
        lemma_folding_keeps_rows(rows, all, m, n, j);
        assert(a[j].node_id != id);
    }
}

/// The last profile wins: after a merge the row that stands for a node has the profile of the last entry
/// of the benchmark map that brings one for it.
pub proof fn lemma_the_last_profile_wins(map: FabricMapView, bench: BenchMap, k: int) -> (i: int)
    requires
        0 <= k < assembly::entries(bench).len(),
        assembly::entries(bench)[k].node_id.len() > 0,
        assembly::entries(bench)[k].profile is Some,
        forall|l: int|
            k < l < assembly::entries(bench).len() ==> (#[trigger] assembly::entries(bench)[l]).node_id
                != assembly::entries(bench)[k].node_id || assembly::entries(bench)[l].profile is None,
    ensures
        ({
            let rows = assembly::merged(map, bench).nodes;
            let id = assembly::entries(bench)[k].node_id;
            &&& 0 <= i < rows.len()
            &&& rows[i].node_id == id
            &&& forall|j: int| 0 <= j < i ==> (#[trigger] rows[j]).node_id != id
            &&& rows[i].profile == assembly::entries(bench)[k].profile
        }),
{
    let all = assembly::entries(bench);
    let id = all[k].node_id;
    let before = assembly::folded(map.nodes, all, k as nat);
    let after = assembly::folded(map.nodes, all, (k + 1) as nat);
    lemma_first_row_is_first(before, id, 0);
    let i = match api::first_row(before, id, 0) {
        Some(i) => i,
        None => before.len() as int,
    };
    assert(stands(after, id, i)) by {
        assert forall|j: int| 0 <= j < i implies (#[trigger] after[j]).node_id != id by {
            assert(before[j].node_id != id);
        }
    }
    assert(after[i].profile == all[k].profile);
    lemma_standing_row_stays(map.nodes, all, (k + 1) as nat, all.len(), id, i);
    lemma_folding_keeps_rows(map.nodes, all, (k + 1) as nat, all.len(), i);
    i
}

/// A row that no entry of the benchmark map brings a profile for is as it was.
pub proof fn lemma_other_rows_stay(map: FabricMapView, bench: BenchMap, i: int)
    requires
        0 <= i < map.nodes.len(),
        forall|k: int|
            0 <= k < assembly::entries(bench).len() ==> (#[trigger] assembly::entries(bench)[k]).node_id
                != map.nodes[i].node_id || assembly::entries(bench)[k].profile is None,
    ensures
        i < assembly::merged(map, bench).nodes.len(),
        assembly::merged(map, bench).nodes[i] == map.nodes[i],
{
    lemma_folding_keeps_rows(map.nodes, assembly::entries(bench), 0, assembly::entries(bench).len(), i);
}

proof fn lemma_new_row(rows: Seq<FabricNodeView>, all: Seq<BenchNodeEntryView>, n: nat, i: int) -> (k: int)
    requires
        n <= all.len(),
        rows.len() <= i < assembly::folded(rows, all, n).len(),
    ensures
        ({
            let f = assembly::folded(rows, all, n);
            &&& 0 <= k < n
            &&& f[i].node_id == all[k].node_id && f[i].node_id.len() > 0
            &&& f[i].capacity == assembly::gossip_capacity(all[k])
            &&& f[i].history is None
            &&& forall|j: int| 0 <= j < rows.len() ==> (#[trigger] rows[j]).node_id != f[i].node_id
        }),
    decreases n,
{
    let l = (n - 1) as nat;
    let before = assembly::folded(rows, all, l);
    let f = assembly::folded(rows, all, n);
    lemma_first_row_is_first(before, all[n - 1].node_id, 0);
    if i < before.len() {
        let k = lemma_new_row(rows, all, l, i);
        lemma_folding_keeps_rows(rows, all, l, n, i);
        k
    } else {
        assert forall|j: int| 0 <= j < rows.len() implies (#[trigger] rows[j]).node_id != f[i].node_id by {
            lemma_folding_keeps_rows(rows, all, 0, l, j);
            assert(before[j].node_id != all[n - 1].node_id);
        }
        n - 1
    }
}

/// A row that a merge adds stands for a node that only gossip knows: it has the capacity that an entry of
/// the node implies, and no history.
pub proof fn lemma_new_rows_come_from_gossip(map: FabricMapView, bench: BenchMap, i: int) -> (k: int)
    requires
        map.nodes.len() <= i < assembly::merged(map, bench).nodes.len(),
    ensures
        ({
            let row = assembly::merged(map, bench).nodes[i];
            &&& 0 <= k < assembly::entries(bench).len()
            &&& row.node_id == assembly::entries(bench)[k].node_id && row.node_id.len() > 0
            &&& row.capacity == assembly::gossip_capacity(assembly::entries(bench)[k])
            &&& row.history is None
            &&& forall|j: int| 0 <= j < map.nodes.len() ==> (#[trigger] map.nodes[j]).node_id != row.node_id
        }),
{
    lemma_new_row(map.nodes, assembly::entries(bench), assembly::entries(bench).len(), i)
}

// ---- reports ----

/// A report has the node and the replica of each target with the job that was started or the error, and
/// counts the jobs.
pub proof fn lemma_reports_in_full(t: PlanTargetView, outcome: Result<String, String>)
    ensures
        ({
            let r = dispatch::reported(t, outcome);
            &&& r.node_id == t.node_id && r.replica == t.replica
            &&& outcome matches Ok(id) ==> r.ok && r.job_id == Some(id@) && r.error is None
            &&& outcome matches Err(e) ==> !r.ok && r.job_id is None && r.error == Some(e@)
        }),
{
}

/// The jobs of a report are the outcomes that are jobs.
pub proof fn lemma_successes_are_counted(outcomes: Seq<Result<String, String>>)
    ensures
        dispatch::successes(outcomes) == outcomes.filter(|o: Result<String, String>| o is Ok).len(),
    decreases outcomes.len(),
{
    let p = |o: Result<String, String>| o is Ok;
    if outcomes.len() == 0 {
        counting::lemma_count_bounded(outcomes, p);
    } else {
        lemma_successes_are_counted(outcomes.drop_last());
        counting::lemma_count_last(outcomes, p);
    }
}

} // verus!
