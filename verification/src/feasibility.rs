//! The hard filter: which map rows can host a job at all.

use crate::api::{
    self, FabricMap, FabricNode, FabricNodeView, JobSpec, JobSpecView, NodeCapacity,
    NodeCapacityView, NodeProfile, NodeProfileView,
};
use crate::binary64::Binary64;
use crate::candidate::{self, Candidate, CandidateView};
use crate::latency::{LatencyModel, LatencyView};
use crate::order;
use crate::scorer;
use crate::seed;
use crate::text;
use vstd::prelude::*;

verus! {

/// The memory (MB) that a host has available: what its profile measured, where that is positive,
/// else what it advertises less 512 MB for each running job, at least zero.
pub open spec fn available_memory(cap: NodeCapacityView, profile: Option<NodeProfileView>) -> Binary64 {
    let assumed = Binary64::fraction(cap.mem_mb as int, 1).minus(
        Binary64::fraction(cap.running_jobs as int, 1).times(Binary64::fraction(512, 1)),
    ).greater_of(Binary64::zero());
    match profile {
        Some(p) => if p.memory.available_mb.positive() { p.memory.available_mb } else { assumed },
        None => assumed,
    }
}

/// The axes that a capability floor can be set on.
#[derive(Debug, Clone, Copy, PartialEq, Eq, Structural)]
pub enum FloorAxis {
    Gflops,
    Vram,
    Tokens,
}

/// What a profile measured on a floor axis; nothing for VRAM without accelerators.
pub open spec fn floor_value(p: NodeProfileView, axis: FloorAxis) -> Option<Binary64> {
    match axis {
        FloorAxis::Gflops => Some(p.cpu.gflops_fp32),
        FloorAxis::Tokens => Some(p.llm.tokens_per_sec),
        FloorAxis::Vram => if p.gpus.len() == 0 { None } else { Some(scorer::most_vram(p.gpus)) },
    }
}

/// A floor counts where it is finite.
pub open spec fn floor(min: Option<Binary64>) -> Option<Binary64> {
    match min {
        Some(m) => if m.finite() { Some(m) } else { None },
        None => None,
    }
}

/// A profile falls short of a floor.
pub open spec fn below(p: NodeProfileView, axis: FloorAxis, min: Option<Binary64>) -> bool {
    match floor(min) {
        Some(m) => match floor_value(p, axis) {
            Some(v) => v.less(m),
            None => true,
        },
        None => false,
    }
}

/// 1. The host was seen within the liveness window.
pub open spec fn is_live(cap: NodeCapacityView, spec: JobSpecView, now: u64) -> bool {
    now - cap.last_seen_secs <= match spec.max_stale_secs {
        Some(s) => s,
        None => 180,
    }
}

/// 2. Free cores and available memory suffice; each running job takes one core.
pub open spec fn has_headroom(node: FabricNodeView, spec: JobSpecView) -> bool {
    &&& node.capacity.cpu_cores - node.capacity.running_jobs >= spec.cpu_cores
    &&& !available_memory(node.capacity, node.profile).less(Binary64::fraction(spec.mem_mb as int, 1))
}

/// 3. Every required tag is there.
pub open spec fn has_tags(cap: NodeCapacityView, spec: JobSpecView) -> bool {
    forall|i: int| 0 <= i < spec.require_tags.len() ==> cap.tags.contains(#[trigger] spec.require_tags[i])
}

/// 4. The measured profile meets every floor; without a profile a floor excludes the host only
/// where a profile is required.
pub open spec fn meets_floors(node: FabricNodeView, spec: JobSpecView) -> bool {
    match node.profile {
        Some(p) => !below(p, FloorAxis::Gflops, spec.min_gflops) && !below(p, FloorAxis::Vram, spec.min_vram_mb)
            && !below(p, FloorAxis::Tokens, spec.min_tokens_per_sec),
        None => spec.require_profile ==> floor(spec.min_gflops) is None && floor(spec.min_vram_mb) is None && floor(
            spec.min_tokens_per_sec,
        ) is None,
    }
}

/// The RTT from the payer: a measured sample, else the prediction.
pub open spec fn payer_rtt(id: Seq<char>, spec: JobSpecView, graph: LatencyModel) -> Binary64 {
    let payer = seed::or_empty(spec.payer);
    match (graph.measured)(payer, id) {
        Some(m) => m,
        None => (graph.predicted)(payer, id),
    }
}

/// 6. The host has an id, is not excluded, and is not the payer unless that is allowed.
pub open spec fn is_eligible(id: Seq<char>, spec: JobSpecView) -> bool {
    &&& id.len() > 0
    &&& !spec.exclude.contains(id)
    &&& spec.allow_self || id != seed::or_empty(spec.payer)
}

/// A row that passes every hard constraint; the fifth is that its RTT from the payer is finite.
pub open spec fn passes(node: FabricNodeView, spec: JobSpecView, graph: LatencyModel, now: u64) -> bool {
    &&& is_eligible(node.node_id, spec)
    &&& is_live(node.capacity, spec, now)
    &&& has_headroom(node, spec)
    &&& has_tags(node.capacity, spec)
    &&& meets_floors(node, spec)
    &&& payer_rtt(node.node_id, spec, graph).finite()
}

/// The candidate that a row makes.
pub open spec fn candidate_of(node: FabricNodeView, spec: JobSpecView, graph: LatencyModel) -> CandidateView {
    CandidateView {
        node_id: node.node_id,
        capacity: node.capacity,
        profile: node.profile,
        history: node.history,
        rtt_ms: payer_rtt(node.node_id, spec, graph),
        rtt_measured: (graph.measured)(seed::or_empty(spec.payer), node.node_id) is Some,
        ask_base_units: node.capacity.ask_base_units,
        groups: None,
    }
}

/// The candidates among the rows, in order.
pub open spec fn survivors(
    nodes: Seq<FabricNodeView>,
    spec: JobSpecView,
    graph: LatencyModel,
    now: u64,
) -> Seq<CandidateView>
    decreases nodes.len(),
{
    if nodes.len() == 0 {
        Seq::empty()
    } else {
        let rest = survivors(nodes.drop_last(), spec, graph, now);
        if passes(nodes.last(), spec, graph, now) {
            rest.push(candidate_of(nodes.last(), spec, graph))
        } else {
            rest
        }
    }
}

/// The cores that a host has committed: one for each running job.
pub fn estimated_used_cores(cap: &NodeCapacity) -> (r: u32)
    ensures
        r == cap.running_jobs,
{
    cap.running_jobs
}

fn available_mem_mb(cap: &NodeCapacity, profile: &Option<NodeProfile>) -> (r: Binary64)
    ensures
        r == available_memory(
            cap@,
            match *profile {
                Some(p) => Some(p@),
                None => None,
            },
        ),
{
    match profile {
        Some(p) => {
            if scorer::is_positive(p.memory.available_mb) {
                return p.memory.available_mb;
            }
        },
        None => {},
    }
    Binary64::from_u64(cap.mem_mb).sub(
        Binary64::from_u64(cap.running_jobs as u64).mul(Binary64::from_u64(512)),
    ).max(Binary64 { bits: 0 })
}

fn floor_axis(p: &NodeProfile, axis: FloorAxis) -> (r: Option<Binary64>)
    ensures
        r == floor_value(p@, axis),
{
    match axis {
        FloorAxis::Gflops => Some(p.cpu.gflops_fp32),
        FloorAxis::Tokens => Some(p.llm.tokens_per_sec),
        FloorAxis::Vram => {
            if p.gpus.len() == 0 {
                None
            } else {
                Some(scorer::max_vram(&p.gpus))
            }
        },
    }
}

fn finite_floor(min: Option<Binary64>) -> (r: Option<Binary64>)
    ensures
        r == floor(min),
{
    match min {
        Some(m) => if m.is_finite() { Some(m) } else { None },
        None => None,
    }
}

fn is_below(p: &NodeProfile, axis: FloorAxis, min: Option<Binary64>) -> (r: bool)
    ensures
        r == below(p@, axis, min),
{
    match finite_floor(min) {
        Some(m) => match floor_axis(p, axis) {
            Some(v) => v.lt(m),
            None => true,
        },
        None => false,
    }
}

fn contains_text(list: &Vec<String>, s: &String) -> (r: bool)
    ensures
        r == text::texts(list@).contains(s@),
{
    let ghost all = text::texts(list@);
    let mut i: usize = 0;
    while i < list.len()
        invariant
            i <= list.len(),
            all == text::texts(list@),
            forall|j: int| 0 <= j < i ==> #[trigger] all[j] != s@,
        decreases list.len() - i,
    {
        if list[i] == *s {
            proof {
                assert(all[i as int] == s@);
            }
            return true;
        }
        i = i + 1;
    }
    false
}

fn carries_tags(cap: &NodeCapacity, spec: &JobSpec) -> (r: bool)
    ensures
        r == has_tags(cap@, spec@),
{
    let mut i: usize = 0;
    while i < spec.require_tags.len()
        invariant
            i <= spec.require_tags.len(),
            forall|j: int| 0 <= j < i ==> cap@.tags.contains(#[trigger] spec@.require_tags[j]),
        decreases spec.require_tags.len() - i,
    {
        if !contains_text(&cap.tags, &spec.require_tags[i]) {
            proof {
                assert(!cap@.tags.contains(spec@.require_tags[i as int]));
            }
            return false;
        }
        i = i + 1;
    }
    true
}

fn clears_floors(node: &FabricNode, spec: &JobSpec) -> (r: bool)
    ensures
        r == meets_floors(node@, spec@),
{
    match &node.profile {
        Some(p) => !is_below(p, FloorAxis::Gflops, spec.min_gflops) && !is_below(p, FloorAxis::Vram, spec.min_vram_mb)
            && !is_below(p, FloorAxis::Tokens, spec.min_tokens_per_sec),
        None => !spec.require_profile || (finite_floor(spec.min_gflops).is_none() && finite_floor(
            spec.min_vram_mb,
        ).is_none() && finite_floor(spec.min_tokens_per_sec).is_none()),
    }
}

/// Applies every hard constraint but reachability.
fn fits_job(node: &FabricNode, spec: &JobSpec, payer: &str, now: u64) -> (r: bool)
    requires
        payer@ == seed::or_empty(spec@.payer),
    ensures
        r == (is_eligible(node@.node_id, spec@) && is_live(node@.capacity, spec@, now) && has_headroom(node@, spec@)
            && has_tags(node@.capacity, spec@) && meets_floors(node@, spec@)),
{
    if node.node_id.as_str().is_empty() || contains_text(&spec.exclude, &node.node_id) {
        return false;
    }
    if !spec.allow_self && text::same(node.node_id.as_str(), payer) {
        return false;
    }
    let cap = &node.capacity;
    let max_stale: u64 = match spec.max_stale_secs {
        Some(s) => s,
        None => 180,
    };
    if now > cap.last_seen_secs && now - cap.last_seen_secs > max_stale {
        return false;
    }
    let free_cores: i64 = cap.cpu_cores as i64 - estimated_used_cores(cap) as i64;
    if free_cores < spec.cpu_cores as i64 {
        return false;
    }
    if available_mem_mb(cap, &node.profile).lt(Binary64::from_u64(spec.mem_mb)) {
        return false;
    }
    carries_tags(cap, spec) && clears_floors(node, spec)
}

/// The hard filter: the candidates among the rows of a map, in order. A row survives iff it is
/// eligible, live, has headroom, carries the required tags, meets the capability floors and is
/// reachable from the payer. No constraint trades off against a score.
pub fn feasible<G: LatencyView>(map: &FabricMap, spec: &JobSpec, graph: &G, now: u64) -> (r: Vec<Candidate>)
    ensures
        candidate::pool_view(r@) == survivors(map@.nodes, spec@, graph.model(), now),
{
    let payer: &str = match &spec.payer {
        Some(p) => p.as_str(),
        None => "",
    };
    proof {
        reveal_strlit("");
        assert(""@ =~= Seq::<char>::empty());
    }
    let ghost model = graph.model();
    let mut out: Vec<Candidate> = Vec::new();
    proof {
        assert(candidate::pool_view(out@) =~= survivors(map@.nodes.take(0), spec@, model, now));
    }
    for i in 0..map.nodes.len()
        invariant
            model == graph.model(),
            payer@ == seed::or_empty(spec@.payer),
            candidate::pool_view(out@) == survivors(map@.nodes.take(i as int), spec@, model, now),
    {
        let node = &map.nodes[i];
        proof {
            assert(map@.nodes.take(i + 1).drop_last() =~= map@.nodes.take(i as int));
            assert(map@.nodes.take(i + 1).last() == node@);
        }
        if fits_job(node, spec, payer, now) {
            let measured = graph.measured_rtt(payer, node.node_id.as_str());
            let rtt_ms = match measured {
                Some(m) => m,
                None => graph.predicted_rtt(payer, node.node_id.as_str()),
            };
            if rtt_ms.is_finite() {
                let c = Candidate {
                    node_id: node.node_id.clone(),
                    capacity: node.capacity.clone(),
                    profile: match &node.profile { Some(x) => Some(x.clone()), None => None },
                    history: match &node.history { Some(x) => Some(x.clone()), None => None },
                    rtt_ms,
                    rtt_measured: measured.is_some(),
                    ask_base_units: api::clone_opt_text(&node.capacity.ask_base_units),
                    groups: None,
                };
                let ghost before = candidate::pool_view(out@);
                proof {
                    assert(c@ == candidate_of(node@, spec@, model));
                }
                out.push(c);
                proof {
                    assert(candidate::pool_view(out@) =~= before.push(c@));
                }
            }
        }
    }
    proof {
        assert(map@.nodes.take(map.nodes.len() as int) =~= map@.nodes);
    }
    out
}

// ---- laws ----

/// Every survivor stands for a row that passes.
pub proof fn lemma_survivor_row(
    nodes: Seq<FabricNodeView>,
    spec: JobSpecView,
    graph: LatencyModel,
    now: u64,
    i: int,
) -> (row: int)
    requires
        0 <= i < survivors(nodes, spec, graph, now).len(),
    ensures
        0 <= row < nodes.len(),
        passes(nodes[row], spec, graph, now),
        survivors(nodes, spec, graph, now)[i] == candidate_of(nodes[row], spec, graph),
    decreases nodes.len(),
{
    let rest = survivors(nodes.drop_last(), spec, graph, now);
    if i < rest.len() {
        let row = lemma_survivor_row(nodes.drop_last(), spec, graph, now, i);
        assert(nodes.drop_last()[row] == nodes[row]);
        row
    } else {
        nodes.len() - 1
    }
}

/// Every row that passes survives.
pub proof fn lemma_passing_row_survives(
    nodes: Seq<FabricNodeView>,
    spec: JobSpecView,
    graph: LatencyModel,
    now: u64,
    row: int,
) -> (i: int)
    requires
        0 <= row < nodes.len(),
        passes(nodes[row], spec, graph, now),
    ensures
        0 <= i < survivors(nodes, spec, graph, now).len(),
        survivors(nodes, spec, graph, now)[i] == candidate_of(nodes[row], spec, graph),
    decreases nodes.len(),
{
    if row < nodes.len() - 1 {
        assert(nodes.drop_last()[row] == nodes[row]);
        lemma_passing_row_survives(nodes.drop_last(), spec, graph, now, row)
    } else {
        survivors(nodes, spec, graph, now).len() - 1
    }
}

/// There are no more survivors than rows.
pub proof fn lemma_survivors_bounded(nodes: Seq<FabricNodeView>, spec: JobSpecView, graph: LatencyModel, now: u64)
    ensures
        survivors(nodes, spec, graph, now).len() <= nodes.len(),
    decreases nodes.len(),
{
    if nodes.len() > 0 {
        lemma_survivors_bounded(nodes.drop_last(), spec, graph, now);
    }
}

/// Hard constraints never trade off: asking for more only ever takes rows away.
pub proof fn lemma_stricter_jobs_keep_fewer_rows(
    node: FabricNodeView,
    spec: JobSpecView,
    stricter: JobSpecView,
    graph: LatencyModel,
    now: u64,
)
    requires
        passes(node, stricter, graph, now),
        spec.payer == stricter.payer,
        spec.cpu_cores <= stricter.cpu_cores,
        spec.mem_mb <= stricter.mem_mb,
        forall|i: int|
            0 <= i < spec.require_tags.len() ==> stricter.require_tags.contains(#[trigger] spec.require_tags[i]),
        forall|i: int| 0 <= i < spec.exclude.len() ==> stricter.exclude.contains(#[trigger] spec.exclude[i]),
        stricter.allow_self ==> spec.allow_self,
        spec.max_stale_secs == stricter.max_stale_secs,
        spec.require_profile ==> stricter.require_profile,
        spec.min_gflops == stricter.min_gflops,
        spec.min_vram_mb == stricter.min_vram_mb,
        spec.min_tokens_per_sec == stricter.min_tokens_per_sec,
    ensures
        passes(node, spec, graph, now),
{
    assert forall|i: int| 0 <= i < spec.require_tags.len() implies node.capacity.tags.contains(
        #[trigger] spec.require_tags[i],
    ) by {
        let t = spec.require_tags[i];
        let j = choose|j: int| 0 <= j < stricter.require_tags.len() && stricter.require_tags[j] == t;
        assert(node.capacity.tags.contains(stricter.require_tags[j]));
    }
    order::lemma_fraction_grows(spec.mem_mb as int, stricter.mem_mb as int, 1);
    assert(!available_memory(node.capacity, node.profile).less(Binary64::fraction(spec.mem_mb as int, 1)));
}

} // verus!
