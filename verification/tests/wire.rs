//! The library's types against their JSON: read and written key by key.

use ce_sched::api::{
    BeaconRef, ByKind, CpuProfile, Demand, DemandAxis, DispatchResult, Dispatched, FabricMap, FabricNode, FabricStats,
    GpuInfo, Groups, JobSpec, LlmInfo, MemoryInfo, MeshEdge, MeshSummary, NodeCapacity, NodeProfile, Objective,
    PlacementPlan, PlanTarget, RecentPlacements, Redundancy, RedundancyPolicy, RejectedHost, RuntimeInfo, StorageInfo,
    Weights,
};
use ce_sched::assembly::{BenchMap, BenchMesh, BenchNodeEntry, BenchReliability};
use ce_sched::binary64::Binary64;
use serde_json::Value;

fn f(x: f64) -> Binary64 {
    Binary64::from_bits(x.to_bits())
}

fn v(x: Binary64) -> f64 {
    f64::from_bits(x.to_bits())
}

// ---- reading ----

fn text(j: &Value) -> String {
    j.as_str().unwrap_or_default().to_string()
}

fn opt_text(j: &Value) -> Option<String> {
    j.as_str().map(str::to_string)
}

fn texts(j: &Value) -> Vec<String> {
    j.as_array().map(|a| a.iter().map(text).collect()).unwrap_or_default()
}

fn whole(j: &Value) -> u64 {
    j.as_u64().unwrap_or(0)
}

fn number(j: &Value) -> Binary64 {
    f(j.as_f64().unwrap_or(0.0))
}

fn list<T>(j: &Value, read: fn(&Value) -> T) -> Vec<T> {
    j.as_array().map(|a| a.iter().map(read).collect()).unwrap_or_default()
}

fn read_redundancy(j: &Value) -> Option<Redundancy> {
    match (j.as_str(), j.as_f64()) {
        (Some("none"), _) => Some(Redundancy::Policy(RedundancyPolicy::Single)),
        (Some("verify"), _) => Some(Redundancy::Policy(RedundancyPolicy::Verify)),
        (_, Some(c)) => Some(Redundancy::Confidence(f(c))),
        _ => None,
    }
}

fn read_axis(j: &Value) -> Option<DemandAxis> {
    j.as_object().map(|_| DemandAxis { weight: number(&j["weight"]), target: number(&j["target"]) })
}

fn read_objective(j: &Value) -> Option<Objective> {
    [Objective::Latency, Objective::Throughput, Objective::Balanced, Objective::Cheap]
        .into_iter()
        .find(|o| j.as_str() == Some(o.as_str()))
}

fn read_job(j: &Value) -> JobSpec {
    JobSpec {
        payer: opt_text(&j["payer"]),
        k: j["k"].as_u64().map(|k| k as u32),
        cpu_cores: whole(&j["cpuCores"]) as u32,
        mem_mb: whole(&j["memMb"]),
        require_tags: texts(&j["requireTags"]),
        allow_self: j["allowSelf"].as_bool().unwrap_or(false),
        objective: read_objective(&j["objective"]),
        rtt_soft_cap_ms: j["rttSoftCapMs"].as_f64().map(f),
        price_cap_base_units: opt_text(&j["priceCapBaseUnits"]),
        redundancy: read_redundancy(&j["redundancy"]),
        max_share: j["maxShare"].as_f64().map(f),
        demand: j["demand"].as_object().map(|_| Demand {
            vram_mb: read_axis(&j["demand"]["vramMb"]),
            ..Default::default()
        }),
        recent_placements: j["recentPlacements"].as_object().map(|m| {
            let mut recent = RecentPlacements::new();
            for (operator, count) in m {
                recent.insert(operator.clone(), number(count));
            }
            recent
        }),
        ..Default::default()
    }
}

fn read_gpu(j: &Value) -> GpuInfo {
    GpuInfo {
        model: text(&j["model"]),
        backend: text(&j["backend"]),
        vram_mb: number(&j["vram_mb"]),
        fp16_tflops: number(&j["fp16_tflops"]),
    }
}

fn read_profile(j: &Value) -> Option<NodeProfile> {
    j.as_object().map(|_| NodeProfile {
        node_id: text(&j["node_id"]),
        measured_at: whole(&j["measured_at"]),
        cpu: CpuProfile {
            cores: whole(&j["cpu"]["cores"]) as u32,
            threads: whole(&j["cpu"]["threads"]) as u32,
            gflops_fp32: number(&j["cpu"]["gflops_fp32"]),
            mem_bw_gbps: number(&j["cpu"]["mem_bw_gbps"]),
        },
        gpus: list(&j["gpus"], read_gpu),
        memory: MemoryInfo {
            total_mb: number(&j["memory"]["total_mb"]),
            available_mb: number(&j["memory"]["available_mb"]),
        },
        storage: StorageInfo {
            total_gb: number(&j["storage"]["total_gb"]),
            free_gb: number(&j["storage"]["free_gb"]),
            read_mbps: number(&j["storage"]["read_mbps"]),
            write_mbps: number(&j["storage"]["write_mbps"]),
        },
        llm: LlmInfo {
            ref_model: text(&j["llm"]["ref_model"]),
            tokens_per_sec: number(&j["llm"]["tokens_per_sec"]),
        },
        runtime: RuntimeInfo {
            os: text(&j["runtime"]["os"]),
            kind: opt_text(&j["runtime"]["kind"]),
            docker: j["runtime"]["docker"].as_bool().unwrap_or(false),
            ..Default::default()
        },
        sig: opt_text(&j["sig"]),
    })
}

fn read_node(j: &Value) -> FabricNode {
    let c = &j["capacity"];
    FabricNode {
        node_id: text(&j["node_id"]),
        capacity: NodeCapacity {
            node_id: text(&c["node_id"]),
            cpu_cores: whole(&c["cpu_cores"]) as u32,
            mem_mb: whole(&c["mem_mb"]),
            running_jobs: whole(&c["running_jobs"]) as u32,
            last_seen_secs: whole(&c["last_seen_secs"]),
            tags: texts(&c["tags"]),
            ask_base_units: opt_text(&c["ask_base_units"]),
        },
        profile: read_profile(&j["profile"]),
        history: None,
    }
}

fn read_edge(j: &Value) -> MeshEdge {
    MeshEdge {
        a: text(&j["a"]),
        b: text(&j["b"]),
        rtt_ms: number(&j["rtt_ms"]),
        samples: whole(&j["samples"]),
        last_seen_secs: whole(&j["last_seen_secs"]),
    }
}

fn read_map(j: &Value) -> FabricMap {
    let s = &j["stats"];
    FabricMap {
        nodes: list(&j["nodes"], read_node),
        edges: list(&j["edges"], read_edge),
        origin: opt_text(&j["origin"]),
        stats: FabricStats {
            nodes: whole(&s["nodes"]),
            cpu_cores: whole(&s["cpu_cores"]),
            mesh: MeshSummary {
                median_rtt_ms: number(&s["mesh"]["median_rtt_ms"]),
                reachable_frac: number(&s["mesh"]["reachable_frac"]),
                regions: whole(&s["mesh"]["regions"]),
            },
            by_kind: ByKind {
                native: whole(&s["by_kind"]["native"]),
                container: whole(&s["by_kind"]["container"]),
                browser: whole(&s["by_kind"]["browser"]),
            },
            ..Default::default()
        },
        beacon: BeaconRef::default(),
        assembled_at_ms: whole(&j["assembled_at_ms"]),
    }
}

fn read_bench_entry(j: &Value) -> BenchNodeEntry {
    BenchNodeEntry {
        node_id: text(&j["node_id"]),
        profile: read_profile(&j["profile"]),
        reliability: j["reliability"].as_object().map(|_| BenchReliability {
            last_seen: whole(&j["reliability"]["last_seen"]),
        }),
    }
}

fn read_bench(j: &Value) -> BenchMap {
    BenchMap {
        nodes: list(&j["nodes"], read_bench_entry),
        node_count: whole(&j["node_count"]),
        mesh: BenchMesh { regions: whole(&j["mesh"]["regions"]), ..Default::default() },
        ..Default::default()
    }
}

fn read_plan(j: &Value) -> PlacementPlan {
    let read_target = |t: &Value| PlanTarget {
        node_id: text(&t["nodeId"]),
        score: number(&t["score"]),
        rtt_ms: number(&t["rttMs"]),
        bench_fit: number(&t["benchFit"]),
        trust: number(&t["trust"]),
        groups: Groups {
            operator: text(&t["groups"]["operator"]),
            asn: text(&t["groups"]["asn"]),
            region: text(&t["groups"]["region"]),
            cluster: text(&t["groups"]["cluster"]),
        },
        replica: whole(&t["replica"]) as u32,
    };
    let read_rejected = |r: &Value| RejectedHost { node_id: text(&r["nodeId"]), reason: text(&r["reason"]) };
    let w = &j["weights"];
    PlacementPlan {
        targets: j["targets"].as_array().unwrap().iter().map(read_target).collect(),
        effective_k: whole(&j["effectiveK"]) as u32,
        requested_k: whole(&j["requestedK"]) as u32,
        beacon: BeaconRef { height: whole(&j["beacon"]["height"]), hash: text(&j["beacon"]["hash"]) },
        weights: Weights {
            w_l: number(&w["wL"]),
            w_b: number(&w["wB"]),
            w_t: number(&w["wT"]),
            w_p: number(&w["wP"]),
            w_d: number(&w["wD"]),
        },
        objective: text(&j["objective"]),
        relaxed: texts(&j["relaxed"]),
        shortfall: whole(&j["shortfall"]) as u32,
        rejected: j["rejected"].as_array().unwrap().iter().map(read_rejected).collect(),
        assembled_at_ms: whole(&j["assembledAtMs"]),
    }
}

// ---- writing ----

fn object(entries: Vec<(&str, Value)>) -> Value {
    Value::Object(entries.into_iter().map(|(k, v)| (k.to_string(), v)).collect())
}

fn weights_value(w: &Weights) -> Value {
    object(vec![
        ("wL", Value::from(v(w.w_l))),
        ("wB", Value::from(v(w.w_b))),
        ("wT", Value::from(v(w.w_t))),
        ("wP", Value::from(v(w.w_p))),
        ("wD", Value::from(v(w.w_d))),
    ])
}

/// Absent options and empty lists are left out.
fn job_value(s: &JobSpec) -> Value {
    let mut m = vec![
        ("cpuCores", Value::from(s.cpu_cores)),
        ("memMb", Value::from(s.mem_mb)),
        ("allowSelf", Value::from(s.allow_self)),
    ];
    if let Some(p) = &s.payer {
        m.push(("payer", Value::from(p.as_str())));
    }
    object(m)
}

fn redundancy_value(r: &Redundancy) -> Value {
    match r {
        Redundancy::Policy(RedundancyPolicy::Single) => Value::from("none"),
        Redundancy::Policy(RedundancyPolicy::Verify) => Value::from("verify"),
        Redundancy::Confidence(c) => Value::from(v(*c)),
    }
}

fn plan_value(p: &PlacementPlan) -> Value {
    let targets = p
        .targets
        .iter()
        .map(|t| {
            object(vec![
                ("nodeId", Value::from(t.node_id.as_str())),
                ("score", Value::from(v(t.score))),
                ("rttMs", Value::from(v(t.rtt_ms))),
                ("benchFit", Value::from(v(t.bench_fit))),
                ("trust", Value::from(v(t.trust))),
                (
                    "groups",
                    object(vec![
                        ("operator", Value::from(t.groups.operator.as_str())),
                        ("asn", Value::from(t.groups.asn.as_str())),
                        ("region", Value::from(t.groups.region.as_str())),
                        ("cluster", Value::from(t.groups.cluster.as_str())),
                    ]),
                ),
                ("replica", Value::from(t.replica)),
            ])
        })
        .collect();
    let rejected = p
        .rejected
        .iter()
        .map(|r| {
            object(vec![("nodeId", Value::from(r.node_id.as_str())), ("reason", Value::from(r.reason.as_str()))])
        })
        .collect();
    object(vec![
        ("targets", Value::Array(targets)),
        ("effectiveK", Value::from(p.effective_k)),
        ("requestedK", Value::from(p.requested_k)),
        (
            "beacon",
            object(vec![("height", Value::from(p.beacon.height)), ("hash", Value::from(p.beacon.hash.as_str()))]),
        ),
        ("weights", weights_value(&p.weights)),
        ("objective", Value::from(p.objective.as_str())),
        ("relaxed", Value::Array(p.relaxed.iter().map(|r| Value::from(r.as_str())).collect())),
        ("shortfall", Value::from(p.shortfall)),
        ("rejected", Value::Array(rejected)),
        ("assembledAtMs", Value::from(p.assembled_at_ms)),
    ])
}

fn placement_value(d: &Dispatched) -> Value {
    let mut m = vec![
        ("nodeId", Value::from(d.node_id.as_str())),
        ("replica", Value::from(d.replica)),
        ("ok", Value::from(d.ok)),
    ];
    if let Some(id) = &d.job_id {
        m.push(("jobId", Value::from(id.as_str())));
    }
    if let Some(e) = &d.error {
        m.push(("error", Value::from(e.as_str())));
    }
    object(m)
}

fn dispatch_value(r: &DispatchResult) -> Value {
    object(vec![
        ("dispatched", Value::Array(r.dispatched.iter().map(placement_value).collect())),
        ("placed", Value::from(r.placed)),
        ("assembledAtMs", Value::from(r.assembled_at_ms)),
    ])
}

// ---- tests ----

fn parse(json: &str) -> Value {
    serde_json::from_str(json).unwrap()
}

#[test]
fn jobspec_minimal_roundtrips() {
    let json = r#"{"cpuCores":1,"memMb":256}"#;
    let spec = read_job(&parse(json));
    assert_eq!(spec.cpu_cores, 1);
    assert_eq!(spec.mem_mb, 256);
    assert!(spec.payer.is_none());
    assert!(spec.require_tags.is_empty());
    assert!(!spec.allow_self);
    // Round-trips back to camelCase, omitting None/empty fields.
    let back = job_value(&spec).to_string();
    assert!(back.contains("\"cpuCores\":1"));
    assert!(back.contains("\"memMb\":256"));
    assert!(!back.contains("payer"));
}

#[test]
fn jobspec_full_camelcase_fields() {
    let json = r#"{
        "payer":"me","k":3,"cpuCores":2,"memMb":512,
        "requireTags":["docker","gpu"],"allowSelf":true,
        "objective":"latency","rttSoftCapMs":250,
        "priceCapBaseUnits":"1000000000000000000000",
        "redundancy":"verify","maxShare":0.34,
        "demand":{"vramMb":{"weight":1,"target":8000}},
        "recentPlacements":{"eu-a":8,"us-a":2}
    }"#;
    let spec = read_job(&parse(json));
    assert_eq!(spec.payer.as_deref(), Some("me"));
    assert_eq!(spec.k, Some(3));
    assert_eq!(spec.objective, Some(Objective::Latency));
    assert_eq!(spec.redundancy, Some(Redundancy::Policy(RedundancyPolicy::Verify)));
    assert_eq!(spec.price_cap_base_units.as_deref(), Some("1000000000000000000000"));
    let vram = spec.demand.as_ref().unwrap().vram_mb.unwrap();
    assert_eq!(vram.target, f(8000.0));
    assert_eq!(spec.recent_placements.as_ref().unwrap().get("eu-a"), Some(f(8.0)));
}

#[test]
fn redundancy_union_string_or_number() {
    // string arms
    let none = read_redundancy(&parse("\"none\"")).unwrap();
    assert_eq!(none, Redundancy::Policy(RedundancyPolicy::Single));
    let verify = read_redundancy(&parse("\"verify\"")).unwrap();
    assert_eq!(verify, Redundancy::Policy(RedundancyPolicy::Verify));
    // number arm => target confidence
    let conf = read_redundancy(&parse("0.99")).unwrap();
    assert_eq!(conf, Redundancy::Confidence(f(0.99)));
    // serialize round-trips
    assert_eq!(redundancy_value(&verify).to_string(), "\"verify\"");
    assert_eq!(redundancy_value(&conf).to_string(), "0.99");
}

#[test]
fn weights_serialize_camelcase() {
    let w = Weights::for_objective(Objective::Balanced);
    let j = weights_value(&w);
    assert_eq!(j["wL"], 0.25);
    assert_eq!(j["wD"], 0.15);
    // The raw table does not sum to one; resolving the weights normalizes the convex axes.
    let raw_sum = v(w.w_l) + v(w.w_b) + v(w.w_t) + v(w.w_p);
    assert!((raw_sum - 0.85).abs() < 1e-9, "raw balanced convex axes sum to 0.85 pre-normalization, got {raw_sum}");
}

#[test]
fn placement_plan_roundtrips() {
    let plan = PlacementPlan {
        targets: vec![PlanTarget {
            node_id: "us-a".into(),
            score: f(0.87),
            rtt_ms: f(5.0),
            bench_fit: f(0.9),
            trust: f(0.4),
            groups: Groups {
                operator: "us-a".into(),
                asn: "64500".into(),
                region: "r0".into(),
                cluster: "us-a|64500|r0".into(),
            },
            replica: 0,
        }],
        effective_k: 1,
        requested_k: 1,
        beacon: BeaconRef { height: 999, hash: "deadbeef".into() },
        weights: Weights::for_objective(Objective::Latency),
        objective: "latency".into(),
        relaxed: vec![],
        shortfall: 0,
        rejected: vec![RejectedHost { node_id: "eu-a".into(), reason: "low_score".into() }],
        assembled_at_ms: 1,
    };
    let json = plan_value(&plan).to_string();
    assert!(json.contains("\"effectiveK\":1"));
    assert!(json.contains("\"benchFit\":0.9"));
    let back = read_plan(&parse(&json));
    assert_eq!(back.targets[0].node_id, "us-a");
    assert_eq!(back.rejected[0].reason, "low_score");
    assert_eq!(back, plan);
}

#[test]
fn fabric_map_mirrors_bench_snake_case() {
    let json = r#"{
        "nodes":[{"node_id":"us-a","capacity":{"node_id":"us-a","cpu_cores":8,"mem_mb":16000,"running_jobs":0,"last_seen_secs":10,"tags":["docker","gpu"]},
                  "profile":{"node_id":"us-a","cpu":{"cores":8,"gflops_fp32":400},"gpus":[{"backend":"Cuda","vram_mb":24000,"fp16_tflops":80}],"llm":{"tokens_per_sec":120},"runtime":{"os":"linux","kind":"Native"}}}],
        "edges":[{"a":"us-a","b":"us-b","rtt_ms":5.3,"samples":12}],
        "stats":{"nodes":1,"cpu_cores":8,"cpu_gflops":400,"gpus":1,"gpu_vram_mb":24000,"gpu_tflops":80,"tokens_per_sec":120,"storage_free_gb":0,"perf_score":1,
                 "mesh":{"median_rtt_ms":5.3,"reachable_frac":1,"regions":1},"by_kind":{"native":1,"container":0,"browser":0},"computed_at":100},
        "assembled_at_ms":123
    }"#;
    let map = read_map(&parse(json));
    assert_eq!(map.nodes.len(), 1);
    let n = map.node("us-a").unwrap();
    assert_eq!(n.capacity.cpu_cores, 8);
    assert_eq!(n.profile.as_ref().unwrap().gpus[0].vram_mb, f(24000.0));
    assert_eq!(map.edges[0].rtt_ms, f(5.3));
    assert_eq!(map.stats.by_kind.native, 1);
    assert_eq!(map.stats.mesh.regions, 1);
}

#[test]
fn dispatch_result_roundtrips() {
    let dr = DispatchResult {
        dispatched: vec![Dispatched {
            node_id: "us-a".into(),
            replica: 0,
            ok: true,
            job_id: Some("job-1".into()),
            error: None,
        }],
        placed: 1,
        assembled_at_ms: 5,
    };
    let j = dispatch_value(&dr);
    assert_eq!(j["dispatched"][0]["nodeId"], "us-a");
    assert_eq!(j["dispatched"][0]["jobId"], "job-1");
    assert!(j["dispatched"][0].get("error").is_none());
}

#[test]
fn bench_map_wire_parses() {
    let empty = r#"{"nodes":[],"node_count":0,"cpu_cores":0,"cpu_gflops":0.0,"gpus":0,"gpu_vram_mb":0,"gpu_tflops":0.0,"tokens_per_sec":0.0,"storage_free_gb":0,"perf_score":0.0,"mesh":{"median_rtt_ms":0.0,"reachable_frac":0.0,"regions":0},"by_kind":{"native":0,"container":0,"browser":0},"computed_at":0}"#;
    let m = read_bench(&parse(empty));
    assert!(m.nodes.is_empty());

    // A populated entry: fields beyond the shared axes are ignored.
    let rich = r#"{"nodes":[{"node_id":"n1","profile":{"node_id":"n1","schema":1,"measured_at":9,"beacon_height":5,"beacon_hash":"ab","bench_app":"ce-bench-rs@0.0.1","cpu":{"cores":8,"threads":16,"gflops_fp32":400.0,"mem_bw_gbps":50.0},"gpus":[{"model":"X","backend":"Cuda","vram_mb":24000.0,"fp16_tflops":80.0}],"memory":{"total_mb":16000.0,"available_mb":12000.0},"storage":{"total_gb":1.0,"free_gb":1.0,"read_mbps":1.0,"write_mbps":1.0},"llm":{"ref_model":"m","tokens_per_sec":120.0,"ctx_tokens":4096},"runtime":{"os":"linux","arch":"x86_64","docker":true,"gvisor":false,"wasm":true,"webgpu":false,"kind":"Native"},"samples":[]},"reliability":{"first_seen":1,"last_seen":2,"samples":3,"uptime_frac":0.9,"score":0.8},"region":0}],"node_count":1,"mesh":{"median_rtt_ms":5.0,"reachable_frac":1.0,"regions":1},"by_kind":{"native":1,"container":0,"browser":0},"computed_at":7}"#;
    let m = read_bench(&parse(rich));
    let p = m.nodes[0].profile.as_ref().unwrap();
    assert_eq!(p.cpu.cores, 8);
    assert_eq!(p.gpus[0].vram_mb, f(24000.0));
    assert_eq!(p.runtime.kind.as_deref(), Some("Native"));
}
