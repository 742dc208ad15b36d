//! The hard constraints in the numbers of a row and a job.

use crate::api::{FabricMapView, FabricNodeView, JobSpecView};
use crate::binary64::{self, Binary64};
use crate::elementary::Elementary;
use crate::feasibility;
use crate::guarantees;
use crate::latency::LatencyModel;
use crate::order;
use crate::placer;
use crate::scorer;
use crate::seed;
use crate::selection;
use vstd::prelude::*;

verus! {

/// The largest VRAM is not negative, no accelerator has a larger finite one, and where it is positive
/// some accelerator has it.
pub proof fn lemma_most_vram(gpus: Seq<crate::api::GpuInfoView>)
    ensures
        scorer::most_vram(gpus).finite(),
        scorer::most_vram(gpus).value() >= 0,
        forall|k: int|
            0 <= k < gpus.len() && (#[trigger] gpus[k]).vram_mb.finite() ==> gpus[k].vram_mb.value() <= scorer::most_vram(
                gpus,
            ).value(),
        scorer::most_vram(gpus).value() > 0 ==> exists|k: int|
            0 <= k < gpus.len() && (#[trigger] gpus[k]).vram_mb == scorer::most_vram(gpus),
    decreases gpus.len(),
{
    order::lemma_constants();
    if gpus.len() > 0 {
        let rest = gpus.drop_last();
        lemma_most_vram(rest);
        let old = scorer::most_vram(rest);
        let new = scorer::most_vram(gpus);
        assert forall|k: int| 0 <= k < gpus.len() && (#[trigger] gpus[k]).vram_mb.finite() implies gpus[k].vram_mb.value()
            <= new.value() by {
            if k < rest.len() {
                assert(rest[k] == gpus[k]);
            }
        }
        if new.value() > 0 {
            if new == old {
                let k = choose|k: int| 0 <= k < rest.len() && (#[trigger] rest[k]).vram_mb == old;
                assert(gpus[k] == rest[k]);
            } else {
                assert(gpus[gpus.len() - 1].vram_mb == new);
            }
        }
    }
}

proof fn lemma_assumed_memory(mem_mb: u64, running_jobs: u32, wanted: u64)
    requires
        mem_mb < 0x20_0000_0000_0000,
    ensures
        ({
            let assumed = Binary64::fraction(mem_mb as int, 1).minus(
                Binary64::fraction(running_jobs as int, 1).times(Binary64::fraction(512, 1)),
            ).greater_of(Binary64::zero());
            !assumed.less(Binary64::fraction(wanted as int, 1)) <==> wanted == 0 || wanted + 512 * running_jobs <= mem_mb
        }),
{
    let u = binary64::one_unit();
    let r = running_jobs as int;
    let a = Binary64::fraction(mem_mb as int, 1);
    let b = Binary64::fraction(r, 1).times(Binary64::fraction(512, 1));
    let w = Binary64::fraction(wanted as int, 1);
    let k = mem_mb - 512 * r;
    order::lemma_constants();
    order::lemma_whole_number(mem_mb as int);
    order::lemma_whole_number(r);
    order::lemma_whole_number(512);
    order::lemma_whole_number(512 * r);
    order::lemma_wide_number(wanted as int);
    order::lemma_whole_number(0);
    // the product is exact
    let c = Binary64::fraction(512 * r, 1);
    assert(0 <= r * u && 0 <= 512 * u) by (nonlinear_arith)
        requires
            r >= 0,
            u > 0,
    ;
    order::lemma_times(Binary64::fraction(r, 1), Binary64::fraction(512, 1));
    assert((r * u) * (512 * u) == ((512 * r) * u) * u) by (nonlinear_arith);
    order::lemma_rounded_exact(c, u);
    assert(b.value() == (512 * r) * u);
    order::lemma_finite_bounds(b);
    order::lemma_finite_bounds(c);
    // so is the difference
    let size = if k < 0 { -k } else { k };
    let d = Binary64::fraction(size, 1);
    order::lemma_whole_number(size);
    order::lemma_negated(b);
    order::lemma_plus(a, b.negated());
    assert(a.value() - b.value() == k * u) by (nonlinear_arith)
        requires
            a.value() == mem_mb * u,
            b.value() == (512 * r) * u,
            k == mem_mb - 512 * r,
    ;
    order::lemma_negated(d);
    if k < 0 {
        order::lemma_rounded_exact(d.negated(), 1);
        assert(-((-k) * u) == k * u) by (nonlinear_arith);
    } else {
        order::lemma_rounded_exact(d, 1);
    }
    assert(a.minus(b).value() == k * u);
    assert(k >= 0 ==> k * u >= 0) by (nonlinear_arith)
        requires
            u > 0,
    ;
    assert(k < 0 ==> k * u < 0) by (nonlinear_arith)
        requires
            u > 0,
    ;
    // the number wanted compares as its double does
    let most = a.minus(b).greater_of(Binary64::zero());
    assert(most.value() == if k < 0 { 0 } else { k * u });
    if wanted == 0 {
        assert(w.value() == 0);
    } else if wanted <= k {
        order::lemma_fraction_grows(wanted as int, k, 1);
        order::lemma_whole_number(k);
    } else if k < 0 {
        order::lemma_fraction_grows(1, wanted as int, 1);
        order::lemma_whole_number(1);
    } else {
        order::lemma_fraction_grows(k + 1, wanted as int, 1);
        if k + 1 < 0x20_0000_0000_0000 {
            order::lemma_whole_number(k + 1);
        } else {
            vstd::arithmetic::power2::lemma2_to64_rest();
            order::lemma_power(53);
        }
        assert((k + 1) * u > k * u) by (nonlinear_arith)
            requires
                u > 0,
        ;
    }
}

/// What a row and a job say of each other, in numbers.
spec fn suits(node: FabricNodeView, spec: JobSpecView, graph: LatencyModel, now: u64, payer: Seq<char>) -> bool {
    &&& node.node_id.len() > 0
    &&& !spec.exclude.contains(node.node_id)
    &&& node.node_id == payer ==> spec.allow_self
    &&& now <= node.capacity.last_seen_secs + match spec.max_stale_secs {
        Some(s) => s as int,
        None => 180,
    }
    &&& node.capacity.running_jobs + spec.cpu_cores <= node.capacity.cpu_cores
    &&& match node.profile {
        Some(p) => if p.memory.available_mb.finite() && p.memory.available_mb.value() > 0 {
            !p.memory.available_mb.less(Binary64::fraction(spec.mem_mb as int, 1))
        } else {
            spec.mem_mb == 0 || spec.mem_mb + 512 * node.capacity.running_jobs <= node.capacity.mem_mb
        },
        None => spec.mem_mb == 0 || spec.mem_mb + 512 * node.capacity.running_jobs <= node.capacity.mem_mb,
    }
    &&& forall|t: Seq<char>| #[trigger] spec.require_tags.contains(t) ==> node.capacity.tags.contains(t)
    &&& match node.profile {
        Some(p) => {
            &&& spec.min_gflops matches Some(m) ==> m.finite() ==> !p.cpu.gflops_fp32.less(m)
            &&& spec.min_tokens_per_sec matches Some(m) ==> m.finite() ==> !p.llm.tokens_per_sec.less(m)
            &&& spec.min_vram_mb matches Some(m) ==> m.finite() ==> p.gpus.len() > 0 && (m.value() <= 0 || exists|k: int|
                0 <= k < p.gpus.len() && (#[trigger] p.gpus[k]).vram_mb.finite() && m.value() <= p.gpus[k].vram_mb.value())
        },
        None => spec.require_profile ==> {
            &&& spec.min_gflops matches Some(m) ==> !m.finite()
            &&& spec.min_tokens_per_sec matches Some(m) ==> !m.finite()
            &&& spec.min_vram_mb matches Some(m) ==> !m.finite()
        },
    }
    &&& match (graph.measured)(payer, node.node_id) {
        Some(m) => m.finite(),
        None => (graph.predicted)(payer, node.node_id).finite(),
    }
}

proof fn lemma_suits(node: FabricNodeView, spec: JobSpecView, graph: LatencyModel, now: u64, payer: Seq<char>)
    requires
        spec.payer == Some(payer),
        node.capacity.mem_mb < 0x20_0000_0000_0000,
    ensures
        feasibility::passes(node, spec, graph, now) <==> suits(node, spec, graph, now, payer),
{
    order::lemma_constants();
    lemma_assumed_memory(node.capacity.mem_mb, node.capacity.running_jobs, spec.mem_mb);
    let tags = forall|t: Seq<char>| #[trigger] spec.require_tags.contains(t) ==> node.capacity.tags.contains(t);
    assert(feasibility::has_tags(node.capacity, spec) <==> tags) by {
        if feasibility::has_tags(node.capacity, spec) {
            assert forall|t: Seq<char>| #[trigger] spec.require_tags.contains(t) implies node.capacity.tags.contains(t) by {
                let i = choose|i: int| 0 <= i < spec.require_tags.len() && spec.require_tags[i] == t;
                assert(node.capacity.tags.contains(spec.require_tags[i]));
            }
        }
        if tags {
            assert forall|i: int| 0 <= i < spec.require_tags.len() implies node.capacity.tags.contains(
                #[trigger] spec.require_tags[i],
            ) by {
                assert(spec.require_tags.contains(spec.require_tags[i]));
            }
        }
    }
    match node.profile {
        Some(p) => {
            lemma_most_vram(p.gpus);
            let most = scorer::most_vram(p.gpus);
            match spec.min_vram_mb {
                Some(m) => {
                    if most.value() > 0 {
                        let k = choose|k: int| 0 <= k < p.gpus.len() && (#[trigger] p.gpus[k]).vram_mb == most;
                        assert(p.gpus[k].vram_mb.finite());
                    }
                },
                None => {},
            }
        },
        None => {},
    }
}

/// Every candidate meets every hard constraint, in its own numbers and those of the job: it is named,
/// not excluded and not the payer unless that is allowed; it was seen within the window, 180 seconds
/// unless the job says otherwise; each running job takes a core and, without a measurement, 512 MB;
/// it has every required tag; a profile meets every finite floor, and is there where it is required;
/// and the RTT it carries, measured where there is a sample and else predicted, is finite.
pub proof fn lemma_candidates_meet_the_numbers(
    nodes: Seq<FabricNodeView>,
    spec: JobSpecView,
    graph: LatencyModel,
    now: u64,
    payer: Seq<char>,
    i: int,
)
    requires
        spec.payer == Some(payer),
        forall|r: int| 0 <= r < nodes.len() ==> (#[trigger] nodes[r]).capacity.mem_mb < 0x20_0000_0000_0000,
        0 <= i < feasibility::survivors(nodes, spec, graph, now).len(),
    ensures
        ({
            let c = feasibility::survivors(nodes, spec, graph, now)[i];
            &&& c.node_id.len() > 0 && !spec.exclude.contains(c.node_id)
            &&& c.node_id == payer ==> spec.allow_self
            &&& now <= c.capacity.last_seen_secs + match spec.max_stale_secs {
                Some(s) => s as int,
                None => 180,
            }
            &&& c.capacity.running_jobs + spec.cpu_cores <= c.capacity.cpu_cores
            &&& match c.profile {
                Some(p) => if p.memory.available_mb.finite() && p.memory.available_mb.value() > 0 {
                    !p.memory.available_mb.less(Binary64::fraction(spec.mem_mb as int, 1))
                } else {
                    spec.mem_mb == 0 || spec.mem_mb + 512 * c.capacity.running_jobs <= c.capacity.mem_mb
                },
                None => spec.mem_mb == 0 || spec.mem_mb + 512 * c.capacity.running_jobs <= c.capacity.mem_mb,
            }
            &&& forall|t: Seq<char>| #[trigger] spec.require_tags.contains(t) ==> c.capacity.tags.contains(t)
            &&& c.profile matches Some(p) ==> {
                &&& spec.min_gflops matches Some(m) ==> m.finite() ==> !p.cpu.gflops_fp32.less(m)
                &&& spec.min_tokens_per_sec matches Some(m) ==> m.finite() ==> !p.llm.tokens_per_sec.less(m)
                &&& spec.min_vram_mb matches Some(m) ==> m.finite() ==> p.gpus.len() > 0 && (m.value() <= 0
                    || exists|k: int|
                    0 <= k < p.gpus.len() && (#[trigger] p.gpus[k]).vram_mb.finite() && m.value()
                        <= p.gpus[k].vram_mb.value())
            }
            &&& c.profile is None && spec.require_profile ==> {
                &&& spec.min_gflops matches Some(m) ==> !m.finite()
                &&& spec.min_tokens_per_sec matches Some(m) ==> !m.finite()
                &&& spec.min_vram_mb matches Some(m) ==> !m.finite()
            }
            &&& c.rtt_ms.finite()
            &&& match (graph.measured)(payer, c.node_id) {
                Some(m) => c.rtt_measured && c.rtt_ms == m,
                None => !c.rtt_measured && c.rtt_ms == (graph.predicted)(payer, c.node_id),
            }
            &&& c.ask_base_units == c.capacity.ask_base_units
        }),
{
    let row = feasibility::lemma_survivor_row(nodes, spec, graph, now, i);
    lemma_suits(nodes[row], spec, graph, now, payer);
}

/// A row that meets every hard constraint, in its own numbers and those of the job, is a candidate, as
/// it stands.
pub proof fn lemma_rows_that_meet_the_numbers_are_candidates(
    nodes: Seq<FabricNodeView>,
    spec: JobSpecView,
    graph: LatencyModel,
    now: u64,
    payer: Seq<char>,
    row: int,
) -> (i: int)
    requires
        spec.payer == Some(payer),
        0 <= row < nodes.len(),
        nodes[row].capacity.mem_mb < 0x20_0000_0000_0000,
        nodes[row].node_id.len() > 0,
        !spec.exclude.contains(nodes[row].node_id),
        nodes[row].node_id == payer ==> spec.allow_self,
        now <= nodes[row].capacity.last_seen_secs + match spec.max_stale_secs {
            Some(s) => s as int,
            None => 180,
        },
        nodes[row].capacity.running_jobs + spec.cpu_cores <= nodes[row].capacity.cpu_cores,
        match nodes[row].profile {
            Some(p) => if p.memory.available_mb.finite() && p.memory.available_mb.value() > 0 {
                !p.memory.available_mb.less(Binary64::fraction(spec.mem_mb as int, 1))
            } else {
                spec.mem_mb + 512 * nodes[row].capacity.running_jobs <= nodes[row].capacity.mem_mb || spec.mem_mb == 0
            },
            None => spec.mem_mb + 512 * nodes[row].capacity.running_jobs <= nodes[row].capacity.mem_mb || spec.mem_mb
                == 0,
        },
        forall|t: Seq<char>| #[trigger] spec.require_tags.contains(t) ==> nodes[row].capacity.tags.contains(t),
        nodes[row].profile matches Some(p) ==> {
            &&& spec.min_gflops matches Some(m) ==> m.finite() ==> !p.cpu.gflops_fp32.less(m)
            &&& spec.min_tokens_per_sec matches Some(m) ==> m.finite() ==> !p.llm.tokens_per_sec.less(m)
            &&& spec.min_vram_mb matches Some(m) ==> m.finite() ==> p.gpus.len() > 0 && (m.value() <= 0 || exists|k: int|
                0 <= k < p.gpus.len() && (#[trigger] p.gpus[k]).vram_mb.finite() && m.value() <= p.gpus[k].vram_mb.value())
        },
        nodes[row].profile is None && spec.require_profile ==> {
            &&& spec.min_gflops matches Some(m) ==> !m.finite()
            &&& spec.min_tokens_per_sec matches Some(m) ==> !m.finite()
            &&& spec.min_vram_mb matches Some(m) ==> !m.finite()
        },
        match (graph.measured)(payer, nodes[row].node_id) {
            Some(m) => m.finite(),
            None => (graph.predicted)(payer, nodes[row].node_id).finite(),
        },
    ensures
        ({
            let c = feasibility::survivors(nodes, spec, graph, now)[i];
            &&& 0 <= i < feasibility::survivors(nodes, spec, graph, now).len()
            &&& c.node_id == nodes[row].node_id
            &&& c.capacity == nodes[row].capacity
            &&& c.profile == nodes[row].profile
            &&& c.history == nodes[row].history
        }),
{
    lemma_suits(nodes[row], spec, graph, now, payer);
    feasibility::lemma_passing_row_survives(nodes, spec, graph, now, row)
}

/// Running jobs take cores: adding some to a host never makes it a candidate, and once they leave fewer
/// cores than the job asks for it is none.
pub proof fn lemma_running_jobs_take_cores(
    node: FabricNodeView,
    busier: FabricNodeView,
    spec: JobSpecView,
    graph: LatencyModel,
    now: u64,
)
    requires
        node.capacity.mem_mb < 0x20_0000_0000_0000,
        node.capacity.running_jobs <= busier.capacity.running_jobs,
        busier == (FabricNodeView {
            capacity: crate::api::NodeCapacityView { running_jobs: busier.capacity.running_jobs, ..node.capacity },
            ..node
        }),
    ensures
        feasibility::survivors(seq![busier], spec, graph, now).len() <= feasibility::survivors(
            seq![node],
            spec,
            graph,
            now,
        ).len(),
        busier.capacity.running_jobs + spec.cpu_cores > busier.capacity.cpu_cores ==> feasibility::survivors(
            seq![busier],
            spec,
            graph,
            now,
        ).len() == 0,
{
    reveal_with_fuel(feasibility::survivors, 2);
    assert(seq![busier].drop_last() =~= Seq::empty());
    assert(seq![node].drop_last() =~= Seq::empty());
    lemma_assumed_memory(node.capacity.mem_mb, node.capacity.running_jobs, spec.mem_mb);
    lemma_assumed_memory(busier.capacity.mem_mb, busier.capacity.running_jobs, spec.mem_mb);
}

/// Every target of a plan is a row of the map with cores to spare for the job, memory for it, seen
/// within the window before the map was assembled, with every required tag, not excluded, and not the
/// payer unless that is allowed.
pub proof fn lemma_targets_meet_the_numbers(
    spec: JobSpecView,
    map: FabricMapView,
    m: spec_fn(Elementary, Binary64) -> Binary64,
    payer: Seq<char>,
    r: int,
)
    requires
        map.nodes.len() <= u32::MAX,
        spec.payer == Some(payer),
        forall|n: int| 0 <= n < map.nodes.len() ==> (#[trigger] map.nodes[n]).capacity.mem_mb < 0x20_0000_0000_0000,
        placer::planned(spec, map, m) is Ok,
        0 <= r < placer::planned(spec, map, m)->Ok_0.targets.len(),
    ensures
        ({
            let t = placer::planned(spec, map, m)->Ok_0.targets[r];
            exists|n: int|
                0 <= n < map.nodes.len() && {
                    let node = #[trigger] map.nodes[n];
                    &&& node.node_id == t.node_id
                    &&& node.capacity.running_jobs + spec.cpu_cores <= node.capacity.cpu_cores
                    &&& (node.profile is None ==> spec.mem_mb == 0 || spec.mem_mb + 512 * node.capacity.running_jobs
                        <= node.capacity.mem_mb)
                    &&& map.assembled_at_ms / 1000 <= node.capacity.last_seen_secs + match spec.max_stale_secs {
                        Some(s) => s as int,
                        None => 180,
                    }
                    &&& (forall|x: Seq<char>|
                        #[trigger] spec.require_tags.contains(x) ==> node.capacity.tags.contains(x))
                    &&& !spec.exclude.contains(t.node_id)
                    &&& (t.node_id == payer ==> spec.allow_self)
                    &&& t.rtt_ms.finite()
                }
        }),
{
    let model = Some(placer::map_model(map));
    let pool = placer::map_pool(spec, map);
    let s = seed::seed_of(map.beacon, spec);
    let scores = selection::pool_scores(pool, spec, model, m);
    let all = feasibility::survivors(map.nodes, spec, placer::map_model(map), placer::map_now(map));
    feasibility::lemma_survivors_bounded(map.nodes, spec, placer::map_model(map), placer::map_now(map));
    guarantees::lemma_targets_are_distinct_candidates(pool, spec, model, s, scores, m);
    let o = selection::selected(pool, spec, model, s, scores, m);
    let t = o.targets[r];
    let i = choose|i: int|
        0 <= i < pool.len() && t.node_id == (#[trigger] pool[i]).node_id && t.score == scores[i].score && t.rtt_ms
            == pool[i].rtt_ms;
    let n = feasibility::lemma_survivor_row(map.nodes, spec, placer::map_model(map), placer::map_now(map), i);
    lemma_suits(map.nodes[n], spec, placer::map_model(map), placer::map_now(map), payer);
    assert(map.nodes[n].node_id == t.node_id);
}

/// Candidates come in the order of their rows, and one row does not weigh on another: the candidates of
/// two lists of rows, one after the other, are those of the first and then those of the second.
pub proof fn lemma_rows_pass_one_by_one(
    a: Seq<FabricNodeView>,
    b: Seq<FabricNodeView>,
    spec: JobSpecView,
    graph: LatencyModel,
    now: u64,
)
    ensures
        feasibility::survivors(a + b, spec, graph, now) == feasibility::survivors(a, spec, graph, now)
            + feasibility::survivors(b, spec, graph, now),
        a.len() == 1 ==> feasibility::survivors(a, spec, graph, now).len() <= 1,
    decreases b.len(),
{
    if b.len() == 0 {
        assert(a + b =~= a);
        assert(feasibility::survivors(a, spec, graph, now) + feasibility::survivors(b, spec, graph, now)
            =~= feasibility::survivors(a, spec, graph, now));
    } else {
        assert((a + b).drop_last() =~= a + b.drop_last());
        lemma_rows_pass_one_by_one(a, b.drop_last(), spec, graph, now);
        assert(feasibility::survivors(a + b, spec, graph, now) =~= feasibility::survivors(a, spec, graph, now)
            + feasibility::survivors(b, spec, graph, now));
    }
    feasibility::lemma_survivors_bounded(a, spec, graph, now);
}

} // verus!
