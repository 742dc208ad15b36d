use ce_sched::api::{
    BeaconRef, Cohort, FabricMap, FabricNode, GpuInfo, JobSpec, MeshEdge, NodeCapacity, NodeHistory, NodeProfile,
    Objective, PlanTarget, Redundancy, RedundancyPolicy, Selection, Weights,
};
use ce_sched::binary64::Binary64;
use ce_sched::candidate::Candidate;
use ce_sched::elementary::Elementary;
use ce_sched::feasibility::feasible;
use ce_sched::latency::{LatencyModel, LatencyView};
use ce_sched::placer::{plan, PlanError};
use ce_sched::redundancy::redundancy_for;
use ce_sched::scorer::{clamp01, BenchFit, FitSource, ScoreParts, StaticScore};
use ce_sched::seed::beacon_seed;
use ce_sched::selection::select_with;
use ce_sched::vendor::tag_candidates;
use std::collections::HashSet;

fn f(x: f64) -> Binary64 {
    Binary64::from_bits(x.to_bits())
}

fn v(x: Binary64) -> f64 {
    f64::from_bits(x.to_bits())
}

fn math(op: Elementary, x: Binary64) -> Binary64 {
    match op {
        Elementary::LnOnePlus => f(v(x).ln_1p()),
        Elementary::Exp => f(v(x).exp()),
        Elementary::Power(n) => f(v(x).powi(n as i32)),
    }
}

const NOW: u64 = 10_000;

/// Payer "me" measures us-a@5 / us-b@7 / eu-a@90; lone is reachable only via prediction (40);
/// us-a/us-b co-region, eu-a its own region, lone region-less.
struct StubGraph;
impl LatencyView for StubGraph {
    // Ghost: never called.
    fn model(&self) -> LatencyModel {
        unreachable!()
    }
    fn measured_rtt(&self, a: &str, b: &str) -> Option<Binary64> {
        if a == b {
            return Some(f(0.0));
        }
        match (a, b) {
            ("me", "us-a") | ("us-a", "me") => Some(f(5.0)),
            ("me", "us-b") | ("us-b", "me") => Some(f(7.0)),
            ("me", "eu-a") | ("eu-a", "me") => Some(f(90.0)),
            _ => None,
        }
    }
    fn predicted_rtt(&self, a: &str, b: &str) -> Binary64 {
        if a == b {
            return f(0.0);
        }
        if let Some(m) = self.measured_rtt(a, b) {
            return m;
        }
        match (a, b) {
            ("me", "lone") | ("lone", "me") => f(40.0),
            _ => f(f64::INFINITY),
        }
    }
    fn region_of(&self, node: &str) -> i64 {
        match node {
            "us-a" | "us-b" => 0,
            "eu-a" => 1,
            _ => -1,
        }
    }
}

fn node(id: &str, cpu: u32, mem: u64, jobs: u32, last_seen: u64, tags: &[&str]) -> FabricNode {
    FabricNode {
        node_id: id.into(),
        capacity: NodeCapacity {
            node_id: id.into(),
            cpu_cores: cpu,
            mem_mb: mem,
            running_jobs: jobs,
            last_seen_secs: last_seen,
            tags: tags.iter().map(|t| t.to_string()).collect(),
            ask_base_units: None,
        },
        profile: None,
        history: None,
    }
}

fn history(jobs: u64, heartbeats: u64) -> NodeHistory {
    NodeHistory { jobs_hosted: jobs, heartbeats_hosted: heartbeats, ..Default::default() }
}

/// Four good hosts + a stale, an undersized, an untagged, and the payer.
/// us-a is a trusted veteran; us-b modest; eu-a fresh; lone unknown.
fn fixture_map() -> FabricMap {
    let mut m = FabricMap {
        nodes: vec![
            node("us-a", 8, 16000, 0, NOW - 10, &["docker", "asn:64500"]),
            node("us-b", 8, 16000, 0, NOW - 10, &["docker", "asn:64500"]),
            node("eu-a", 8, 16000, 0, NOW - 10, &["docker", "asn:64600"]),
            node("lone", 8, 16000, 0, NOW - 10, &["docker"]),
            node("stale", 32, 64000, 0, NOW - 9999, &["docker"]), // liveness fail
            node("small", 1, 256, 0, NOW - 10, &["docker"]),      // headroom fail (needs 2c/512m)
            node("notag", 8, 16000, 0, NOW - 10, &["highmem"]),   // tag fail (needs docker)
            node("me", 8, 16000, 0, NOW - 10, &["docker"]),       // self => excluded
        ],
        assembled_at_ms: NOW * 1000,
        beacon: BeaconRef { height: 12345, hash: "deadbeefcafe".into() },
        ..Default::default()
    };
    m.nodes[0].history = Some(history(200, 5000));
    m.nodes[1].history = Some(history(2, 10));
    m.nodes[2].history = Some(history(0, 0));
    m
}

fn spec(k: u32) -> JobSpec {
    JobSpec {
        payer: Some("me".into()),
        k: Some(k),
        cpu_cores: 2,
        mem_mb: 512,
        require_tags: vec!["docker".into()],
        ..Default::default()
    }
}

/// A latency-dominated score plus a small trust term.
fn synthetic(c: &Candidate, _spec: &JobSpec, _g: Option<&StubGraph>) -> StaticScore {
    let clamp = |x: f64| v(clamp01(f(x)));
    let latency = clamp(1.0 - v(c.rtt_ms) / 250.0);
    let delivered = c.history.as_ref().map(|h| (h.jobs_hosted + h.heartbeats_hosted) as f64).unwrap_or(0.0);
    let trust = clamp(delivered.ln_1p() / 50f64.ln_1p());
    let (bench_fit, price) = (0.5, 0.5);
    StaticScore {
        score: f(0.7 * latency + 0.1 * bench_fit + 0.15 * trust + 0.05 * price),
        parts: ScoreParts {
            latency: f(latency),
            bench_fit: f(bench_fit),
            trust: f(trust),
            price: f(price),
            runtime_factor: f(1.0),
        },
        bench_fit: BenchFit { score: f(bench_fit), source: FitSource::Atlas, confidence: f(0.5) },
        benchmark_suspect: false,
    }
}

fn tagged_pool(spec_: &JobSpec) -> Vec<Candidate> {
    let cand = feasible(&fixture_map(), spec_, &StubGraph, NOW);
    tag_candidates(cand, Some(&StubGraph))
}

fn ids(targets: &[PlanTarget]) -> Vec<&str> {
    targets.iter().map(|t| t.node_id.as_str()).collect()
}

// ---- 1) feasible() hard filter -----------------------------------------

#[test]
fn feasible_honors_every_hard_constraint() {
    let spec1 = spec(1);
    let feas = feasible(&fixture_map(), &spec1, &StubGraph, NOW);
    let feas_ids: HashSet<&str> = feas.iter().map(|c| c.node_id.as_str()).collect();
    for good in ["us-a", "us-b", "eu-a", "lone"] {
        assert!(feas_ids.contains(good), "the four good hosts are feasible ({good})");
    }
    assert!(!feas_ids.contains("stale"), "stale host excluded by liveness");
    assert!(!feas_ids.contains("small"), "undersized host excluded by headroom");
    assert!(!feas_ids.contains("notag"), "host missing required 'docker' tag excluded");
    assert!(!feas_ids.contains("me"), "payer self excluded by default");

    // Candidate shape: capacity carried, rtt_measured ground-truth where a direct sample exists.
    let us_a = feas.iter().find(|c| c.node_id == "us-a").unwrap();
    assert_eq!(us_a.capacity.cpu_cores, 8);
    assert_eq!(us_a.capacity.mem_mb, 16000);
    assert!(us_a.rtt_measured && us_a.rtt_ms == f(5.0), "us-a uses the measured RTT (ground truth)");
    let lone = feas.iter().find(|c| c.node_id == "lone").unwrap();
    assert!(!lone.rtt_measured && lone.rtt_ms == f(40.0), "lone uses the predicted RTT (no direct sample)");
    assert_eq!(us_a.history.as_ref().unwrap().jobs_hosted, 200, "history rides the map onto the candidate");

    // allow_self admits the payer; exclude removes a host.
    let spec_self = JobSpec { allow_self: true, exclude: vec!["eu-a".into()], ..spec(1) };
    let feas2 = feasible(&fixture_map(), &spec_self, &StubGraph, NOW);
    let ids2: HashSet<&str> = feas2.iter().map(|c| c.node_id.as_str()).collect();
    assert!(ids2.contains("me"), "allow_self admits the payer");
    assert!(!ids2.contains("eu-a"), "exclude removes a host");
}

#[test]
fn feasible_capability_floor() {
    let mut map = fixture_map();
    // Give us-a a measured profile with a big GPU; eu-a stays profile-less.
    map.nodes[0].profile = Some(NodeProfile {
        node_id: "us-a".into(),
        gpus: vec![GpuInfo { vram_mb: f(24000.0), ..Default::default() }],
        ..Default::default()
    });
    let floor = JobSpec { min_vram_mb: Some(f(16000.0)), ..spec(1) };
    let feas = feasible(&map, &floor, &StubGraph, NOW);
    let feas_ids: HashSet<&str> = feas.iter().map(|c| c.node_id.as_str()).collect();
    assert!(feas_ids.contains("us-a"), "profiled host clearing the floor stays");
    assert!(feas_ids.contains("eu-a"), "profile-less host admitted while require_profile=false");

    let strict = JobSpec { require_profile: true, ..floor };
    let feas2 = feasible(&map, &strict, &StubGraph, NOW);
    assert_eq!(feas2.len(), 1, "require_profile excludes every unmeasured host");
    assert_eq!(feas2[0].node_id, "us-a");

    // A measured profile BELOW the floor is excluded outright.
    map.nodes[0].profile.as_mut().unwrap().gpus[0].vram_mb = f(8000.0);
    let feas3 = feasible(&map, &strict, &StubGraph, NOW);
    assert!(feas3.is_empty(), "below-floor profile excluded");
}

// ---- 2) beacon_seed -----------------------------

#[test]
fn beacon_seed_matches_js_bit_for_bit() {
    let beacon = BeaconRef { height: 12345, hash: "deadbeefcafe".into() };
    let req = |nonce: &str| JobSpec { payer: Some("me".into()), nonce: Some(nonce.into()), ..Default::default() };
    // Reference values.
    assert_eq!(beacon_seed(&beacon, &req("job-1")), 1922596420);
    assert_eq!(beacon_seed(&beacon, &req("job-2")), 904435639);
    assert_eq!(beacon_seed(&beacon, &req("job-1")), beacon_seed(&beacon, &req("job-1")), "deterministic");
    // Zero-everything still yields a seed (empty-string FNV offsets mix in).
    assert_eq!(beacon_seed(&BeaconRef::default(), &JobSpec::default()), 2147011751);
    // Heights past 2^32 truncate.
    let big = BeaconRef { height: 4_294_967_297, hash: "ff".into() };
    assert_eq!(beacon_seed(&big, &JobSpec { payer: Some("p".into()), ..Default::default() }), 2156362244);
}

// ---- 3) redundancy_for --------------------------------------------------

#[test]
fn redundancy_for_policies() {
    let feas = tagged_pool(&spec(1));
    let with = |k: u32, red: Redundancy| JobSpec { redundancy: Some(red), ..spec(k) };

    assert_eq!(redundancy_for(&feas, &with(1, Redundancy::Policy(RedundancyPolicy::Single)), &math), 1, "none keeps effectiveK=k");
    // Best feasible trust = us-a (5200 delivered => ~saturated >= 0.6) so verify needs 2 replicas.
    assert_eq!(redundancy_for(&feas, &with(1, Redundancy::Policy(RedundancyPolicy::Verify)), &math), 2, "verify with a high-trust pool => 2");
    // Pool of only low-trust hosts (eu-a fresh, lone unknown) => verify wants 3 replicas, but the
    // pool has only 2 hosts, so effectiveK is bounded by the pool size.
    let low: Vec<Candidate> = feas.iter().filter(|c| c.node_id != "us-a" && c.node_id != "us-b").cloned().collect();
    assert_eq!(low.len(), 2);
    assert_eq!(redundancy_for(&low, &with(1, Redundancy::Policy(RedundancyPolicy::Verify)), &math), 2, "verify bounded by the 2-host pool");
    // k dominates when larger than the policy minimum.
    assert_eq!(redundancy_for(&feas, &with(4, Redundancy::Policy(RedundancyPolicy::Verify)), &math), 4, "explicit k>policy wins");
    // Target confidence: an untrusted pool needs more replicas than a trusted one.
    let n_low = redundancy_for(&low, &with(1, Redundancy::Confidence(f(0.99))), &math);
    let n_high = redundancy_for(&feas, &with(1, Redundancy::Confidence(f(0.99))), &math);
    assert!(n_low >= n_high, "lower best-trust never needs fewer replicas ({n_low} vs {n_high})");
    assert!(n_high >= 1);
}

// ---- 4) select(): spread, low-RTT first, caps ----

fn spec4() -> JobSpec {
    JobSpec {
        redundancy: Some(Redundancy::Policy(RedundancyPolicy::Verify)),
        max_share: Some(f(0.34)),
        objective: Some(Objective::Latency),
        nonce: Some("n4".into()),
        ..spec(3)
    }
}

fn seed4() -> u32 {
    beacon_seed(&BeaconRef { height: 12345, hash: "deadbeefcafe".into() }, &spec4())
}

#[test]
fn select_matches_the_js_reference_run() {
    assert_eq!(seed4(), 1489896003, "seed4 matches the reference run");
    let res = select_with(tagged_pool(&spec4()), &spec4(), Some(&StubGraph), seed4(), &synthetic, &math);
    // Reference: us-a, us-b, lone - verify k=3 across distinct operators, lowest-RTT first.
    assert_eq!(ids(&res.targets), vec!["us-a", "us-b", "lone"]);
    let expect_scores = [0.91100000000000003, 0.85325337386710254, 0.66300000000000003];
    for (t, e) in res.targets.iter().zip(expect_scores) {
        assert!((v(t.score) - e).abs() < 1e-12, "target static scores match the reference run ({} vs {e})", v(t.score));
    }
    assert!(res.relaxed.is_empty());
    assert_eq!(res.shortfall, 0);
    assert_eq!(res.rejected.len(), 1);
    assert_eq!(res.rejected[0].node_id, "eu-a");
    assert_eq!(res.rejected[0].reason, "low_score");
    // Replica indices + distinct operators (verify).
    let ops: HashSet<&str> = res.targets.iter().map(|t| t.groups.operator.as_str()).collect();
    assert_eq!(ops.len(), res.targets.len(), "all replicas on DISTINCT operators (verify)");
    for (i, t) in res.targets.iter().enumerate() {
        assert_eq!(t.replica, i as u32);
    }
}

#[test]
fn select_strong_diversity_beats_raw_proximity() {
    // With a STRONG wD, the correlated us-b (shares us-a's asn+region+cluster) is pushed below
    // the independent lone@40 for the second slot, even though us-b is far closer (7ms vs 40ms).
    let spec_div = JobSpec {
        weights: Some(Weights { w_l: f(0.5), w_b: f(0.15), w_t: f(0.2), w_p: f(0.05), w_d: f(1.5) }),
        ..spec4()
    };
    let res = select_with(tagged_pool(&spec_div), &spec_div, Some(&StubGraph), seed4(), &synthetic, &math);
    // Reference: us-a, lone, eu-a.
    assert_eq!(ids(&res.targets), vec!["us-a", "lone", "eu-a"]);
}

#[test]
fn select_short_plan_reports_shortfall() {
    // k=6 under verify from 4 hosts => 4 placed, shortfall the rest.
    let spec5 = JobSpec {
        redundancy: Some(Redundancy::Policy(RedundancyPolicy::Verify)),
        nonce: Some("n5".into()),
        ..spec(6)
    };
    let seed5 = beacon_seed(&BeaconRef { height: 12345, hash: "deadbeefcafe".into() }, &spec5);
    let pool = tagged_pool(&spec5);
    let effective = redundancy_for(&pool, &spec5, &math);
    let res = select_with(pool, &spec5, Some(&StubGraph), seed5, &synthetic, &math);
    assert_eq!(res.targets.len(), 4, "verify across 4 distinct operators places 4");
    assert!(res.shortfall > 0, "an unsatisfiable replica count is reported as a shortfall");
    assert_eq!(res.shortfall, effective - res.targets.len() as u32, "shortfall = effectiveK - placed");
}

#[test]
fn select_strict_cap_hard_rejects_correlated_hosts() {
    // k=4, maxShare tiny so cap=1 on every group: us-a and us-b cannot both be chosen.
    let spec6 = JobSpec {
        redundancy: Some(Redundancy::Policy(RedundancyPolicy::Verify)),
        max_share: Some(f(0.01)),
        nonce: Some("n6".into()),
        ..spec(4)
    };
    let seed6 = beacon_seed(&BeaconRef { height: 12345, hash: "deadbeefcafe".into() }, &spec6);
    assert_eq!(seed6, 3534731105, "seed6 matches the reference run");
    let res = select_with(tagged_pool(&spec6), &spec6, Some(&StubGraph), seed6, &synthetic, &math);
    // Reference: us-a, lone, eu-a - never the correlated pair together; shortfall 1.
    assert_eq!(ids(&res.targets), vec!["us-a", "lone", "eu-a"]);
    assert_eq!(res.shortfall, 1);
    // Every rejected host carries a reason.
    for r in &res.rejected {
        assert!(!r.reason.is_empty(), "rejected host {} has a reason", r.node_id);
    }
}

// ---- 5) determinism + weighted selection --------------------------------

#[test]
fn select_is_deterministic_given_a_seed() {
    let a = select_with(tagged_pool(&spec4()), &spec4(), Some(&StubGraph), seed4(), &synthetic, &math);
    let b = select_with(tagged_pool(&spec4()), &spec4(), Some(&StubGraph), seed4(), &synthetic, &math);
    assert_eq!(ids(&a.targets), ids(&b.targets), "select is deterministic given a fixed seed");
}

#[test]
fn select_weighted_matches_the_js_softmax_stream() {
    let spec_w = JobSpec { selection: Some(Selection::Weighted), temperature: Some(f(0.1)), ..spec4() };
    let res = select_with(tagged_pool(&spec_w), &spec_w, Some(&StubGraph), seed4(), &synthetic, &math);
    // Reference (same seed, same stream): us-b, us-a, lone.
    assert_eq!(ids(&res.targets), vec!["us-b", "us-a", "lone"]);
    let ops: HashSet<&str> = res.targets.iter().map(|t| t.groups.operator.as_str()).collect();
    assert_eq!(ops.len(), 3, "weighted selection still honors distinct operators");
}

// ---- 6) cohort ----------------------------------------------------------

#[test]
fn cohort_colocate_prefers_the_same_region_neighbour() {
    // colocate, k=2, no verify (so operators may repeat) => after us-a, the same-region us-b is
    // preferred over the far eu-a despite the diversity penalty.
    let spec_c = JobSpec {
        redundancy: Some(Redundancy::Policy(RedundancyPolicy::Single)),
        cohort: Some(Cohort::Colocate),
        objective: Some(Objective::Latency),
        max_share: Some(f(1.0)),
        nonce: Some("nc".into()),
        ..spec(2)
    };
    let seed_c = beacon_seed(&BeaconRef { height: 12345, hash: "deadbeefcafe".into() }, &spec_c);
    assert_eq!(seed_c, 4288246340, "seedC matches the reference run");
    let res = select_with(tagged_pool(&spec_c), &spec_c, Some(&StubGraph), seed_c, &synthetic, &math);
    // Reference: us-a, us-b.
    assert_eq!(ids(&res.targets), vec!["us-a", "us-b"]);
}

// ---- 7) plan(): the pure end-to-end -------------------------------------

#[test]
fn plan_requires_payer() {
    let err = plan(&JobSpec { cpu_cores: 1, mem_mb: 256, ..Default::default() }, &FabricMap::default(), &math).unwrap_err();
    assert_eq!(err, PlanError::MissingPayer);
    assert!(err.message().contains("payer"));
}

/// A real-map fixture (edges anchored at the payer, like the daemon's neighbour fold) so plan()
/// exercises the actual graph build.
fn plan_map() -> FabricMap {
    let mut map = fixture_map();
    let edge = |b: &str, rtt_ms: f64| MeshEdge {
        a: "me".into(),
        b: b.into(),
        rtt_ms: f(rtt_ms),
        samples: 10,
        last_seen_secs: NOW,
    };
    map.nodes.retain(|n| !matches!(n.node_id.as_str(), "stale" | "small" | "notag"));
    map.edges = vec![edge("us-a", 5.0), edge("us-b", 7.0), edge("eu-a", 90.0), edge("lone", 40.0)];
    map
}

#[test]
fn plan_is_deterministic_and_auditable() {
    let map = plan_map();
    let spec_p = JobSpec {
        redundancy: Some(Redundancy::Policy(RedundancyPolicy::Verify)),
        objective: Some(Objective::Latency),
        nonce: Some("job-42".into()),
        ..spec(2)
    };
    let a = plan(&spec_p, &map, &math).unwrap();
    let b = plan(&spec_p, &map, &math).unwrap();
    assert_eq!(
        format!("{a:?}"),
        format!("{b:?}"),
        "(spec, map) -> identical plan, bit for bit"
    );
    assert!(!a.targets.is_empty(), "the fixture pool satisfies the request");
    assert_eq!(a.requested_k, 2);
    assert!(a.effective_k >= a.requested_k);
    assert_eq!(a.beacon, map.beacon, "the plan echoes the beacon it was seeded from");
    assert_eq!(a.objective, "latency");
    assert_eq!(a.assembled_at_ms, map.assembled_at_ms);
    // Verify forces distinct operators.
    let ops: HashSet<&str> = a.targets.iter().map(|t| t.groups.operator.as_str()).collect();
    assert_eq!(ops.len(), a.targets.len());
    // A different nonce may reorder ties but stays a valid, fully-placed plan.
    let spec_q = JobSpec { nonce: Some("job-43".into()), ..spec_p.clone() };
    let c = plan(&spec_q, &map, &math).unwrap();
    assert_eq!(c.targets.len(), a.targets.len());
}

#[test]
fn plan_infeasible_spec_yields_empty_short_plan() {
    let map = plan_map();
    // Nothing has 999 cores: valid request, empty plan, full shortfall - not an error.
    let impossible = JobSpec { cpu_cores: 999, ..spec(2) };
    let p = plan(&impossible, &map, &math).unwrap();
    assert!(p.targets.is_empty(), "no feasible host => empty plan");
    assert_eq!(p.shortfall, p.effective_k, "everything requested is missing");
    assert!(p.shortfall >= 2);
    // An empty map behaves the same.
    let empty = plan(&spec(1), &FabricMap::default(), &math).map_err(|_| ()).ok();
    assert!(empty.is_none() || empty.as_ref().unwrap().targets.is_empty());
}
