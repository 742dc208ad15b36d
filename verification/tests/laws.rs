use ce_sched::api::{
    BeaconRef, Cohort, CpuProfile, Demand, DemandAxis, FabricMap, FabricNode, GpuInfo, JobSpec, MeshEdge, NodeCapacity,
    NodeHistory, NodeProfile, Objective, Redundancy, RedundancyPolicy, RuntimeInfo, Selection, Weights,
};
use ce_sched::binary64::Binary64;
use ce_sched::candidate::Candidate;
use ce_sched::elementary::Elementary;
use ce_sched::embedding::{embed, vec_distance, EmbeddingOptions};
use ce_sched::feasibility::{estimated_used_cores, feasible};
use ce_sched::fusion::are_countable;
use ce_sched::graph::{build_graph, Graph, GraphOptions};
use ce_sched::placer::{fits, plan};
use ce_sched::prng::Mulberry32;
use ce_sched::redundancy::{redundancy_for, redundancy_given_trust};
use ce_sched::scorer::{
    bench_fit_score, latency_score, price_score, resolve_weights, runtime_kind_factor, score_given_trust, static_score,
    trust_from_logs, StaticScore, Trust,
};
use ce_sched::seed::{beacon_seed, hash32};
use ce_sched::selection::{cap_gate, sample_index, select, select_scored, Loosened, SelectOutcome};
use ce_sched::vendor::{
    diversity_penalty, group_keys, per_group_cap, tag_candidates, violates_cap, Caps, GroupKey,
};
use std::collections::{HashMap, HashSet};

fn f(x: f64) -> Binary64 {
    Binary64::from_bits(x.to_bits())
}

fn v(x: Binary64) -> f64 {
    f64::from_bits(x.to_bits())
}

fn math(op: Elementary, x: Binary64) -> Binary64 {
    match op {
        Elementary::LnOnePlus => f(v(x).ln_1p()),
        Elementary::Exp => f(v(x).exp()),
        Elementary::Power(n) => f(v(x).powi(n as i32)),
    }
}

const NO_GRAPH: Option<&Graph> = None;
const NOW: u64 = 10_000;

fn edge(a: &str, b: &str, rtt: f64) -> MeshEdge {
    MeshEdge { a: a.into(), b: b.into(), rtt_ms: f(rtt), samples: 3, last_seen_secs: NOW }
}

/// Twelve hosts of five operators on four networks in three latency regions, and the payer.
fn fleet() -> FabricMap {
    let mut nodes = Vec::new();
    let mut edges = Vec::new();
    for i in 0..12u32 {
        let id = format!("n{i:02}");
        nodes.push(FabricNode {
            node_id: id.clone(),
            capacity: NodeCapacity {
                node_id: id.clone(),
                cpu_cores: 4 + i,
                mem_mb: 8000,
                running_jobs: i % 3,
                last_seen_secs: NOW - 5,
                tags: vec!["docker".into(), format!("asn:{}", i % 4)],
                ask_base_units: Some(format!("{}", 100 * (i + 1))),
            },
            profile: None,
            history: Some(NodeHistory {
                jobs_hosted: (i * i) as u64,
                owner: Some(format!("op{}", i % 5)),
                ..Default::default()
            }),
        });
        edges.push(edge("me", &id, 20.0 + 15.0 * i as f64));
        if i >= 3 {
            edges.push(edge(&format!("n{:02}", i - 3), &id, 10.0));
        }
    }
    FabricMap {
        nodes,
        edges,
        assembled_at_ms: NOW * 1000,
        beacon: BeaconRef { height: 77, hash: "abc".into() },
        ..Default::default()
    }
}

fn jobs() -> Vec<JobSpec> {
    let mut out = Vec::new();
    for k in [1u32, 2, 3, 5, 9, 20] {
        for redundancy in [
            None,
            Some(Redundancy::Policy(RedundancyPolicy::Verify)),
            Some(Redundancy::Confidence(f(0.999))),
        ] {
            for share in [None, Some(f(0.01)), Some(f(0.5)), Some(f(1.0))] {
                for (cohort, selection) in [
                    (None, None),
                    (Some(Cohort::Colocate), None),
                    (Some(Cohort::Spread), Some(Selection::Weighted)),
                ] {
                    out.push(JobSpec {
                        payer: Some("me".into()),
                        k: Some(k),
                        cpu_cores: 2,
                        mem_mb: 512,
                        redundancy,
                        max_share: share,
                        cohort,
                        selection,
                        nonce: Some(format!("{k}")),
                        ..Default::default()
                    });
                }
            }
        }
    }
    out
}

fn pool_of(map: &FabricMap, spec: &JobSpec, graph: &Graph) -> Vec<Candidate> {
    tag_candidates(feasible(map, spec, graph, NOW), Some(graph))
}

fn selections() -> Vec<(JobSpec, Vec<Candidate>, SelectOutcome)> {
    let map = fleet();
    let graph = build_graph(&map, &GraphOptions::default());
    jobs()
        .into_iter()
        .map(|spec| {
            let pool = pool_of(&map, &spec, &graph);
            let seed = beacon_seed(&map.beacon, &spec);
            let o = select(pool.clone(), &spec, Some(&graph), seed, &math);
            (spec, pool, o)
        })
        .collect()
}

#[test]
fn placed_and_missing_add_up() {
    for (spec, pool, o) in selections() {
        assert_eq!(o.targets.len() as u32 + o.shortfall, o.effective_k);
        assert_eq!(o.effective_k, redundancy_for(&pool, &spec, &math));
        assert!(o.effective_k >= spec.k.unwrap());
        for (i, t) in o.targets.iter().enumerate() {
            assert_eq!(t.replica, i as u32);
        }
    }
}

#[test]
fn every_candidate_is_a_target_or_rejected_for_a_reason() {
    for (_, pool, o) in selections() {
        let chosen: HashSet<&str> = o.targets.iter().map(|t| t.node_id.as_str()).collect();
        assert_eq!(chosen.len(), o.targets.len(), "no host twice");
        let left: HashSet<&str> = o.rejected.iter().map(|r| r.node_id.as_str()).collect();
        for c in &pool {
            assert!(chosen.contains(c.node_id.as_str()) != left.contains(c.node_id.as_str()));
        }
        for r in &o.rejected {
            assert!(["operator_dup", "group_cap", "benchmark_suspect", "low_score"].contains(&r.reason.as_str()));
        }
    }
}

#[test]
fn caps_hold_unless_reported() {
    for (spec, _, o) in selections() {
        let cap = per_group_cap(o.effective_k, spec.max_share.unwrap_or(f(0.34)));
        let relaxed: Vec<&str> = o.relaxed.iter().map(|r| r.as_str()).collect();
        assert!(["region", "asn", "operator"].starts_with(&relaxed), "the ladder: {relaxed:?}");
        let mut held: HashMap<(&str, String), u32> = HashMap::new();
        for t in &o.targets {
            *held.entry(("operator", t.groups.operator.clone())).or_default() += 1;
            *held.entry(("asn", t.groups.asn.clone())).or_default() += 1;
            *held.entry(("region", t.groups.region.clone())).or_default() += 1;
            *held.entry(("cluster", t.groups.cluster.clone())).or_default() += 1;
        }
        let colocate = spec.cohort == Some(Cohort::Colocate);
        for ((kind, _), n) in &held {
            if !relaxed.contains(kind) && !(colocate && *kind == "region") {
                assert!(*n <= cap, "{kind} holds {n} of {cap}");
            }
        }
        let verify = spec.redundancy == Some(Redundancy::Policy(RedundancyPolicy::Verify));
        let operators: HashSet<&str> = o.targets.iter().map(|t| t.groups.operator.as_str()).collect();
        if verify {
            assert_eq!(operators.len(), o.targets.len());
            assert!(!relaxed.contains(&"operator"));
        }
        if !relaxed.contains(&"operator") {
            assert!(o.targets.len() <= cap as usize * operators.len());
        }
    }
}

#[test]
fn plans_are_made_of_hosts_that_pass() {
    let map = fleet();
    let graph = build_graph(&map, &GraphOptions::default());
    for spec in jobs() {
        assert!(fits(&spec, &map));
        let p = plan(&spec, &map, &math).unwrap();
        let passing: HashSet<String> = feasible(&map, &spec, &graph, NOW).into_iter().map(|c| c.node_id).collect();
        assert!(p.targets.iter().all(|t| passing.contains(&t.node_id)));
        assert_eq!(p.targets.len() as u32 + p.shortfall, p.effective_k);
        assert_eq!(p.beacon, map.beacon);
        for id in passing {
            let target = p.targets.iter().any(|t| t.node_id == id);
            assert!(target != p.rejected.iter().any(|r| r.node_id == id));
        }
    }
}

#[test]
fn a_plan_replays_from_rows_edges_time_and_seed() {
    let map = fleet();
    let spec = &jobs()[7];
    let mut other = fleet();
    other.beacon.height += 1 << 32;
    other.stats.nodes = 5;
    let (a, b) = (plan(spec, &map, &math).unwrap(), plan(spec, &other, &math).unwrap());
    assert_eq!(a.targets, b.targets);
    assert_eq!(a.rejected, b.rejected);
    assert_eq!(b.beacon.height, 77 + (1 << 32));
    assert_eq!(hash32(""), 0x811c_9dc5);
    assert_eq!(hash32("a"), 0xe40c_292c);
}

#[test]
fn jobs_whose_counts_overflow_do_not_fit() {
    let spec = JobSpec { payer: Some("me".into()), cpu_cores: 1, mem_mb: 1, ..Default::default() };
    let mut map = fleet();
    map.nodes[3].history = Some(NodeHistory { jobs_hosted: u64::MAX, heartbeats_hosted: 1, ..Default::default() });
    assert!(!fits(&spec, &map));
    map.nodes[3].capacity.last_seen_secs = 0;
    assert!(fits(&spec, &map), "a stale row is never counted");
    let mut map = fleet();
    map.edges.push(MeshEdge { samples: u64::MAX, ..edge("n00", "me", 4.0) });
    assert!(!fits(&spec, &map));
    assert!(are_countable(&[MeshEdge { samples: u64::MAX, ..edge("a", "b", 1.0) }, edge("a", "c", 1.0)]));
    assert!(!are_countable(&[MeshEdge { samples: u64::MAX, ..edge("a", "b", 1.0) }, edge("b", "a", 1.0)]));
}

#[test]
fn stricter_jobs_keep_fewer_rows() {
    let map = fleet();
    let graph = build_graph(&map, &GraphOptions::default());
    let loose = JobSpec { payer: Some("me".into()), cpu_cores: 2, mem_mb: 512, ..Default::default() };
    let strict = JobSpec {
        cpu_cores: 9,
        mem_mb: 7500,
        require_tags: vec!["asn:1".into()],
        exclude: vec!["n05".into()],
        ..loose.clone()
    };
    let ids = |s: &JobSpec| -> Vec<String> { feasible(&map, s, &graph, NOW).into_iter().map(|c| c.node_id).collect() };
    assert_eq!(ids(&loose).len(), 12);
    assert_eq!(ids(&strict), vec!["n09"]);
    assert_eq!(estimated_used_cores(&map.nodes[5].capacity), 2);
}

#[test]
fn graph_answers_are_symmetric() {
    let map = fleet();
    let g = build_graph(&map, &GraphOptions::default());
    for a in g.nodes() {
        assert_eq!(g.measured_rtt(a, a), Some(f(0.0)));
        for b in g.nodes() {
            assert_eq!(g.measured_rtt(a, b), g.measured_rtt(b, a));
            assert_eq!(g.predicted_rtt(a, b), g.predicted_rtt(b, a));
            if let Some(m) = g.measured_rtt(a, b) {
                assert_eq!(g.predicted_rtt(a, b), m);
            }
            let path = g.shortest_path(a, b);
            assert_eq!((path.first(), path.last()), (Some(a), Some(b)));
            let cost: f64 = path.windows(2).map(|w| v(g.measured_rtt(&w[0], &w[1]).unwrap())).sum();
            if let Some(m) = g.measured_rtt(a, b) {
                assert!(cost <= v(m), "no direct edge beats the path");
            }
        }
    }
}

#[test]
fn regions_partition_the_nodes() {
    let map = fleet();
    let g = build_graph(&map, &GraphOptions::default());
    for n in g.nodes() {
        let homes: Vec<usize> =
            g.regions().iter().enumerate().filter(|(_, r)| r.contains(n)).map(|(i, _)| i).collect();
        assert_eq!(homes, vec![g.region_of(n) as usize]);
    }
    for w in g.regions().windows(2) {
        assert!(w[0].len() >= w[1].len());
    }
    // n00, n03, n06, n09 are chained by edges of 10 ms.
    assert_eq!(g.region_of("n00"), g.region_of("n09"));
    assert_ne!(g.region_of("n01"), g.region_of("n02"));
    let known = tag_candidates(feasible(&map, &jobs()[0], &g, NOW), Some(&g));
    for c in &known {
        assert_eq!(group_keys(c, Some(&g)).region, format!("r{}", g.region_of(&c.node_id)));
        assert_eq!(group_keys(c, NO_GRAPH).region, format!("r?:{}", c.node_id));
    }
}

#[test]
fn nearest_nodes_come_in_order() {
    let g = build_graph(&fleet(), &GraphOptions::default());
    for k in [1, 4, 100] {
        let near = g.k_nearest("me", k);
        assert_eq!(near.len(), k.min(12));
        for w in near.windows(2) {
            assert!(v(g.predicted_rtt("me", &w[0])) <= v(g.predicted_rtt("me", &w[1])));
        }
        let last = v(g.predicted_rtt("me", near.last().unwrap()));
        for n in g.nodes() {
            if n != "me" && !near.contains(n) {
                assert!(v(g.predicted_rtt("me", n)) >= last);
            }
        }
    }
}

#[test]
fn layouts_cover_every_node_once() {
    let ids: Vec<String> = ["a", "b", "a", "c"].iter().map(|s| s.to_string()).collect();
    let pos = embed(&ids, &[edge("a", "b", 9.0)], &EmbeddingOptions::default());
    assert_eq!(pos.iter().map(|p| p.0.as_str()).collect::<Vec<_>>(), vec!["a", "b", "c"]);
    let d = v(vec_distance(&pos[0].1, &pos[1].1));
    assert!((d - 9.0).abs() < 0.5, "the spring comes to rest near its RTT, at {d}");
    assert_eq!(vec_distance(&vec![f(0.0), f(3.0)], &vec![f(4.0), f(0.0)]), f(5.0));
}

fn host(id: &str) -> Candidate {
    Candidate {
        node_id: id.into(),
        capacity: NodeCapacity { node_id: id.into(), cpu_cores: 8, mem_mb: 8000, ..Default::default() },
        profile: None,
        history: None,
        rtt_ms: f(40.0),
        rtt_measured: true,
        ask_base_units: None,
        groups: None,
    }
}

fn measured(id: &str, gflops: f64, kind: &str) -> Candidate {
    let mut c = host(id);
    c.profile = Some(NodeProfile {
        node_id: id.into(),
        cpu: CpuProfile { cores: 8, gflops_fp32: f(gflops), ..Default::default() },
        gpus: vec![GpuInfo { vram_mb: f(8000.0), ..Default::default() }],
        runtime: RuntimeInfo { kind: Some(kind.into()), ..Default::default() },
        ..Default::default()
    });
    c
}

#[test]
fn weights_are_convex_for_every_objective() {
    for o in [Objective::Latency, Objective::Throughput, Objective::Balanced, Objective::Cheap] {
        let w = resolve_weights(&JobSpec { objective: Some(o), ..Default::default() });
        let sum = v(w.w_l) + v(w.w_b) + v(w.w_t) + v(w.w_p);
        assert!((sum - 1.0).abs() <= 2f64.powi(-50));
        assert_eq!(w.w_d, Weights::for_objective(o).w_d);
    }
}

#[test]
fn better_on_one_axis_is_never_worse() {
    let spec = JobSpec {
        price_cap_base_units: Some("1000".into()),
        demand: Some(Demand { gflops: Some(DemandAxis { weight: f(2.0), target: f(300.0) }), ..Default::default() }),
        ..Default::default()
    };
    let mut last = f64::INFINITY;
    for rtt in [-5.0, 0.0, 1.0, 80.0, 249.0, 250.0, 1e9] {
        let s = v(latency_score(&Candidate { rtt_ms: f(rtt), ..host("a") }, &spec, NO_GRAPH));
        assert!(s <= last && (0.0..=1.0).contains(&s));
        last = s;
    }
    assert_eq!(last, 0.0);
    let mut last = f64::INFINITY;
    for ask in ["-1", "0", "1", "333", "999", "1000", "5000"] {
        let s = v(price_score(&Candidate { ask_base_units: Some(ask.into()), ..host("a") }, &spec));
        assert!(s <= last && (0.0..=1.0).contains(&s));
        last = s;
    }
    let mut last = -1.0;
    for gflops in [0.0, 10.0, 299.0, 300.0, 9000.0] {
        let s = v(bench_fit_score(&measured("a", gflops, "Native"), &spec).score);
        assert!(s >= last && (0.0..=1.0).contains(&s));
        last = s;
    }
    assert_eq!(last, 1.0, "surplus saturates");
    let mut last = -1.0;
    for t in [0.0, 0.2, 0.7, 1.0] {
        let s = v(score_given_trust(&host("a"), &spec, NO_GRAPH, Trust { score: f(t), benchmark_suspect: false }).score);
        assert!(s >= last && (0.0..=1.0).contains(&s));
        last = s;
    }
}

#[test]
fn huge_amounts_still_compare() {
    let cap = "170141183460469231731687303715884105727";
    let spec = JobSpec { price_cap_base_units: Some(cap.into()), ..Default::default() };
    let mut last = f64::INFINITY;
    for ask in ["1", "170141183460469231731687303715884", "170141183460469231731687303715885", "100000000000000000000000000000000000000", cap] {
        let s = v(price_score(&Candidate { ask_base_units: Some(ask.into()), ..host("a") }, &spec));
        assert!(s <= last, "{ask}");
        last = s;
    }
}

#[test]
fn trust_follows_delivered_work() {
    let with = |jobs: u64, earned: &str, recent: &str| {
        let mut c = host("a");
        c.history = Some(NodeHistory {
            jobs_hosted: jobs,
            earned: earned.into(),
            recent_earned: recent.into(),
            ..Default::default()
        });
        c
    };
    let ln = |n: u64| f((n as f64).ln_1p());
    let t = |c: &Candidate, n: u64| v(trust_from_logs(c, ln(n), ln(50)).score);
    assert!(t(&with(3, "0", "0"), 3) <= t(&with(30, "0", "0"), 30));
    assert!(t(&with(30, "9", "0"), 30) < t(&with(30, "9", "9"), 30), "dormant");
    let mut claim = measured("a", 2500.0, "Native");
    claim.history = Some(NodeHistory { jobs_hosted: 4, ..Default::default() });
    let s = trust_from_logs(&claim, ln(4), ln(50));
    assert!(s.benchmark_suspect && v(s.score) <= 0.1);
    claim.history = Some(NodeHistory { jobs_hosted: 20, ..Default::default() });
    assert!(!trust_from_logs(&claim, ln(20), ln(50)).benchmark_suspect);
}

#[test]
fn runtime_factors() {
    let w = |b: f64| Weights { w_l: f(0.0), w_b: f(b), w_t: f(0.0), w_p: f(0.0), w_d: f(0.0) };
    let browser = measured("b", 10.0, "Browser");
    assert_eq!(runtime_kind_factor(&browser, None, &w(0.0)), f(0.6));
    assert_eq!(runtime_kind_factor(&browser, None, &w(1.0)), f(0.6 * (1.0 - 0.3)));
    assert_eq!(runtime_kind_factor(&browser, None, &w(f64::NAN)), f(0.6));
    assert_eq!(runtime_kind_factor(&browser, Some("b"), &w(0.0)), f(0.6 * 1.15));
    assert_eq!(runtime_kind_factor(&host("n"), Some(""), &w(0.5)), f(1.0));
}

#[test]
fn less_trusted_pools_need_no_fewer_replicas() {
    for redundancy in [Redundancy::Policy(RedundancyPolicy::Verify), Redundancy::Confidence(f(0.9999))] {
        let spec = JobSpec { redundancy: Some(redundancy), ..Default::default() };
        let mut last = u32::MAX;
        for t in [0.0, 0.3, 0.6, 0.9, 1.0] {
            let n = redundancy_given_trust(f(t), 100, &spec, &math);
            assert!(n <= last && n >= 1);
            last = n;
        }
    }
    let spec = JobSpec { redundancy: Some(Redundancy::Confidence(f(0.9999999))), ..Default::default() };
    assert_eq!(redundancy_given_trust(f(0.0), 100, &spec, &math), 16, "never more than sixteen");
    assert_eq!(redundancy_given_trust(f(0.0), 3, &spec, &math), 3, "nor than the pool");
    let odd = JobSpec { redundancy: Some(Redundancy::Confidence(f(1.5))), k: Some(2), ..Default::default() };
    assert_eq!(redundancy_given_trust(f(0.0), 100, &odd, &math), 2, "an improper confidence asks for nothing");
}

#[test]
fn sharing_more_is_penalised_no_less() {
    let pool = tag_candidates(
        vec![
            Candidate { capacity: NodeCapacity { tags: vec!["asn:1".into()], ..Default::default() }, ..host("a") },
            Candidate { capacity: NodeCapacity { tags: vec!["asn:1".into()], ..Default::default() }, ..host("b") },
            host("c"),
            host("d"),
        ],
        NO_GRAPH,
    );
    let spec = JobSpec::default();
    let chosen = [&pool[0], &pool[2]];
    assert_eq!(diversity_penalty(&pool[3], &chosen, &spec), f(0.0));
    assert_eq!(diversity_penalty(&pool[1], &chosen, &spec), f(0.5));
    assert_eq!(diversity_penalty(&pool[0], &chosen, &spec), f(0.5));
    assert_eq!(diversity_penalty(&pool[1], &[], &spec), f(0.0));
}

#[test]
fn sampling_uses_up_the_weights() {
    let weights = vec![f(0.0), f(1.0), f(3.0)];
    let mut hits = [0u32; 3];
    let mut rand = Mulberry32::new(1);
    for _ in 0..4000 {
        hits[sample_index(&weights, &mut rand)] += 1;
    }
    assert!(hits[2] > 2 * hits[1] && hits[1] > 700, "{hits:?}");
    let mut a = Mulberry32::new(1);
    assert_eq!(sample_index(&vec![f(0.0), f(0.0)], &mut a), 0, "nothing to draw from");
    assert_eq!(a.next(), Mulberry32::new(1).next(), "and nothing drawn");
}

#[test]
fn only_near_ties_are_left_to_chance() {
    let map = fleet();
    let graph = build_graph(&map, &GraphOptions::default());
    let spec = JobSpec { k: Some(1), tie_eps: Some(f(0.05)), ..jobs()[0].clone() };
    let pool = pool_of(&map, &spec, &graph);
    let scores: Vec<StaticScore> = pool.iter().map(|c| static_score(c, &spec, Some(&graph), &math)).collect();
    let best = scores.iter().map(|s| v(s.score)).fold(0.0, f64::max);
    let mut winners = HashSet::new();
    for seed in 1..60 {
        let o = select_scored(&pool, &spec, Some(&graph), seed, &scores, &math);
        assert!(best - v(o.targets[0].score) <= 0.05);
        winners.insert(o.targets[0].node_id.clone());
    }
    assert!(winners.len() > 1, "near ties vary with the seed");
    let sharp = JobSpec { tie_eps: Some(f(0.0)), ..spec };
    let o = select_scored(&pool, &sharp, Some(&graph), 5, &scores, &math);
    assert_eq!(v(o.targets[0].score), best);
}

#[test]
fn cohorts_lean_the_way_they_are_asked() {
    let map = FabricMap {
        edges: vec![
            edge("a", "b", 5.0),
            edge("a", "c", 200.0),
            edge("b", "c", 200.0),
            edge("me", "a", 100.0),
            edge("me", "b", 100.0),
            edge("me", "c", 100.0),
        ],
        ..Default::default()
    };
    let graph = build_graph(&map, &GraphOptions::default());
    let pool = tag_candidates(vec![host("a"), host("b"), host("c")], Some(&graph));
    assert_eq!(pool[0].groups.as_ref().unwrap().region, pool[1].groups.as_ref().unwrap().region);
    assert_ne!(pool[0].groups.as_ref().unwrap().region, pool[2].groups.as_ref().unwrap().region);
    let spread = JobSpec {
        k: Some(2),
        max_share: Some(f(1.0)),
        tie_eps: Some(f(0.0)),
        weights: Some(Weights { w_l: f(1.0), w_b: f(1.0), w_t: f(1.0), w_p: f(1.0), w_d: f(0.0) }),
        ..Default::default()
    };
    let mut scores: Vec<StaticScore> = pool.iter().map(|c| static_score(c, &spread, Some(&graph), &math)).collect();
    scores[0].score = f(0.9);
    scores[1].score = f(0.5);
    scores[2].score = f(0.5);
    let second_of = |pool: &Vec<Candidate>, spec: &JobSpec| {
        let o = select_scored(pool, spec, Some(&graph), 7, &scores, &math);
        assert!(o.relaxed.is_empty());
        assert_eq!(o.targets[0].node_id, "a");
        o.targets[1].node_id.clone()
    };
    let second = |spec: &JobSpec| second_of(&pool, spec);
    assert_eq!(second(&spread), "c", "a fresh region");
    let colocate = JobSpec { cohort: Some(Cohort::Colocate), ..spread.clone() };
    assert_eq!(second(&colocate), "b", "near the cohort");
    let narrow = JobSpec { max_share: Some(f(0.01)), ..colocate.clone() };
    assert_eq!(second(&narrow), "c", "hosts of one region are one cluster, and the cluster cap stands");
    let mut apart = pool.clone();
    apart[1].groups.as_mut().unwrap().cluster = "elsewhere".into();
    assert_eq!(second_of(&apart, &narrow), "b", "no region cap on a co-located cohort");
    assert_eq!(second_of(&apart, &JobSpec { cohort: None, ..narrow.clone() }), "c");
    let wary = JobSpec {
        weights: Some(Weights { w_l: f(1.0), w_b: f(1.0), w_t: f(1.0), w_p: f(1.0), w_d: f(1.0) }),
        ..colocate
    };
    assert_eq!(second(&wary), "c", "sharing a region costs more than being near gains");
}

#[test]
fn the_order_of_the_pool_does_not_matter() {
    let map = fleet();
    let graph = build_graph(&map, &GraphOptions::default());
    for spec in jobs() {
        let pool = pool_of(&map, &spec, &graph);
        let scores: Vec<StaticScore> = pool.iter().map(|c| static_score(c, &spec, Some(&graph), &math)).collect();
        let a = select_scored(&pool, &spec, Some(&graph), 11, &scores, &math);
        for shift in [1usize, 5, 7] {
            let n = pool.len();
            let turned: Vec<Candidate> = (0..n).map(|i| pool[(i * 5 + shift) % n].clone()).collect();
            let with: Vec<StaticScore> = (0..n).map(|i| scores[(i * 5 + shift) % n]).collect();
            let b = select_scored(&turned, &spec, Some(&graph), 11, &with, &math);
            assert_eq!(a.targets, b.targets);
            assert_eq!(a.relaxed, b.relaxed);
            assert_eq!((a.shortfall, a.effective_k), (b.shortfall, b.effective_k));
            let reasons = |o: &SelectOutcome| {
                let mut r: Vec<(String, String)> =
                    o.rejected.iter().map(|x| (x.node_id.clone(), x.reason.clone())).collect();
                r.sort();
                r
            };
            assert_eq!(reasons(&a), reasons(&b));
        }
    }
}

#[test]
fn infinite_scores_rank_at_the_ends() {
    let pool = tag_candidates(vec![host("a"), host("b"), host("c")], NO_GRAPH);
    let spec = JobSpec { k: Some(3), max_share: Some(f(1.0)), tie_eps: Some(f(0.0)), ..Default::default() };
    let mut scores: Vec<StaticScore> = pool.iter().map(|c| static_score(c, &spec, NO_GRAPH, &math)).collect();
    scores[0].score = f(f64::NEG_INFINITY);
    scores[1].score = f(0.5);
    scores[2].score = f(f64::INFINITY);
    let o = select_scored(&pool, &spec, NO_GRAPH, 3, &scores, &math);
    let order: Vec<&str> = o.targets.iter().map(|t| t.node_id.as_str()).collect();
    assert_eq!(order, ["c", "b", "a"]);
}

#[test]
fn each_axis_saturates_at_its_target() {
    let spec = JobSpec {
        demand: Some(Demand {
            gflops: Some(DemandAxis { weight: f(1.0), target: f(100.0) }),
            tokens_per_sec: Some(DemandAxis { weight: f(1.0), target: f(50.0) }),
            ..Default::default()
        }),
        ..Default::default()
    };
    let enough = bench_fit_score(&measured("a", 100.0, "Native"), &spec);
    let plenty = bench_fit_score(&measured("a", 900.0, "Native"), &spec);
    let short = bench_fit_score(&measured("a", 50.0, "Native"), &spec);
    assert_eq!(enough.score, plenty.score);
    assert_eq!((v(short.score), v(enough.score)), (0.25, 0.5), "the other axis stays unmet");
}

#[test]
fn nearer_cheaper_and_more_proven_scores_no_lower() {
    let spec = JobSpec { payer: Some("me".into()), price_cap_base_units: Some("1000".into()), ..Default::default() };
    let at = |rtt: f64, ask: u32, jobs: u64| {
        let c = Candidate {
            rtt_ms: f(rtt),
            ask_base_units: Some(format!("{ask}")),
            history: Some(NodeHistory { jobs_hosted: jobs, ..Default::default() }),
            ..host("a")
        };
        v(static_score(&c, &spec, NO_GRAPH, &math).score)
    };
    let base = at(100.0, 500, 5);
    assert!(at(60.0, 500, 5) > base && at(100.0, 300, 5) > base && at(100.0, 500, 9) > base);
    assert!(at(60.0, 300, 9) > at(60.0, 300, 5));
    assert!((0.0..=1.0).contains(&base));
}

#[test]
fn predictions_are_finite_where_a_path_leads() {
    let map = FabricMap {
        edges: vec![
            edge("a", "b", 1e80),
            edge("b", "c", 1e80),
            edge("c", "d", 3.0),
            edge("x", "y", 5.0),
            edge("far", "farther", 1e150),
            edge("farther", "an id with spaces", 1e150),
        ],
        ..Default::default()
    };
    let g = build_graph(&map, &GraphOptions::default());
    let names = ["a", "b", "c", "d", "x", "y", "far", "farther", "an id with spaces", "nobody"];
    for p in names {
        assert_eq!(g.predicted_rtt(p, p), f(0.0));
        for q in names {
            let finite = g.predicted_rtt(p, q).is_finite();
            assert_eq!(finite, p == q || !g.shortest_path(p, q).is_empty(), "{p} {q}");
            if !finite {
                assert_eq!(g.predicted_rtt(p, q), f(f64::INFINITY));
            }
        }
    }
}

#[test]
fn with_nothing_loosened_every_cap_is_in_force() {
    let pool = tag_candidates(
        vec![
            Candidate { capacity: NodeCapacity { tags: vec!["asn:1".into()], ..Default::default() }, ..host("a") },
            Candidate { capacity: NodeCapacity { tags: vec!["asn:1".into()], ..Default::default() }, ..host("b") },
            host("c"),
        ],
        NO_GRAPH,
    );
    let caps = Caps { per_group: 1, require_distinct_operator: false };
    assert_eq!(violates_cap(&pool[1], &[&pool[0]], &caps), Some(GroupKey::Asn));
    assert_eq!(violates_cap(&pool[2], &[&pool[0]], &caps), None);
    for bits in 0..16u32 {
        let loose =
            Loosened { operator: bits & 1 > 0, asn: bits & 2 > 0, region: bits & 4 > 0, cluster: bits & 8 > 0 };
        let verified = Caps { per_group: 1, require_distinct_operator: true };
        for (i, c) in pool.iter().enumerate() {
            for d in &pool {
                if bits == 0 {
                    assert_eq!(cap_gate(c, &[d], &caps, &loose), violates_cap(c, &[d], &caps));
                }
                if bits == 15 {
                    assert_eq!(cap_gate(c, &[d], &caps, &loose), None);
                }
            }
            assert_eq!(cap_gate(c, &[&pool[i]], &verified, &loose), Some(GroupKey::Operator));
        }
        let untagged = host("x");
        assert_eq!(cap_gate(&untagged, &[&pool[0]], &verified, &loose), None);
    }
    let spec = JobSpec { k: Some(2), max_share: Some(f(0.01)), tie_eps: Some(f(0.0)), ..Default::default() };
    let mut scores: Vec<StaticScore> = pool.iter().map(|c| static_score(c, &spec, NO_GRAPH, &math)).collect();
    scores[0].score = f(0.9);
    scores[1].score = f(0.8);
    scores[2].score = f(0.1);
    let o = select_scored(&pool, &spec, NO_GRAPH, 3, &scores, &math);
    assert_eq!(o.targets[1].node_id, "c", "the host that breaks no cap, though it scores less");
    assert_eq!((o.rejected[0].node_id.as_str(), o.rejected[0].reason.as_str()), ("b", "group_cap"));
    assert!(o.relaxed.is_empty());
}
