use ce_sched::api::{
    CpuProfile, Demand, DemandAxis, GpuInfo, JobSpec, LlmInfo, MemoryInfo, NodeCapacity, NodeHistory, NodeProfile,
    Objective, RuntimeInfo, StorageInfo, Weights,
};
use ce_sched::binary64::Binary64;
use ce_sched::candidate::Candidate;
use ce_sched::elementary::Elementary;
use ce_sched::graph::Graph;
use ce_sched::latency::{LatencyModel, LatencyView};
use ce_sched::scorer::{
    bench_fit_score, browser_runtime_penalty, browser_throughput_discount, clamp01, latency_score, prefer_local_boost,
    price_score, resolve_weights, runtime_kind_factor, score_given_trust, static_score, to_big, trust_from_logs,
    trust_score, FitSource, Trust,
};

fn f(x: f64) -> Binary64 {
    Binary64::from_bits(x.to_bits())
}

fn v(x: Binary64) -> f64 {
    f64::from_bits(x.to_bits())
}

fn math(op: Elementary, x: Binary64) -> Binary64 {
    match op {
        Elementary::LnOnePlus => f(v(x).ln_1p()),
        Elementary::Exp => f(v(x).exp()),
        Elementary::Power(n) => f(v(x).powi(n as i32)),
    }
}

const NO_GRAPH: Option<&Graph> = None;

/// Resolved weights as hardware numbers.
struct Axes {
    w_l: f64,
    w_b: f64,
    w_t: f64,
    w_p: f64,
    w_d: f64,
}

fn weights(spec: &JobSpec) -> Axes {
    let w = resolve_weights(spec);
    Axes { w_l: v(w.w_l), w_b: v(w.w_b), w_t: v(w.w_t), w_p: v(w.w_p), w_d: v(w.w_d) }
}

fn clamp(x: f64) -> f64 {
    v(clamp01(f(x)))
}

fn latency<G: LatencyView>(c: &Candidate, spec: &JobSpec, graph: Option<&G>) -> f64 {
    v(latency_score(c, spec, graph))
}

struct Fit {
    score: f64,
    source: FitSource,
    confidence: f64,
}

fn bench(c: &Candidate, spec: &JobSpec) -> Fit {
    let b = bench_fit_score(c, spec);
    Fit { score: v(b.score), source: b.source, confidence: v(b.confidence) }
}

struct Standing {
    score: f64,
    benchmark_suspect: bool,
}

fn trust(c: &Candidate, spec: &JobSpec) -> Standing {
    let t = trust_score(c, spec, &math);
    Standing { score: v(t.score), benchmark_suspect: t.benchmark_suspect }
}

fn price(c: &Candidate, spec: &JobSpec) -> f64 {
    v(price_score(c, spec))
}

fn factor(c: &Candidate, local: Option<&str>, w: &Weights) -> f64 {
    v(runtime_kind_factor(c, local, w))
}

struct Parts {
    latency: f64,
}

struct Blend {
    score: f64,
    parts: Parts,
    bench_fit: Fit,
    benchmark_suspect: bool,
}

fn blend(c: &Candidate, spec: &JobSpec, graph: Option<&Graph>) -> Blend {
    let s = static_score(c, spec, graph, &math);
    Blend {
        score: v(s.score),
        parts: Parts { latency: v(s.parts.latency) },
        bench_fit: Fit { score: v(s.bench_fit.score), source: s.bench_fit.source, confidence: v(s.bench_fit.confidence) },
        benchmark_suspect: s.benchmark_suspect,
    }
}

fn cand(node_id: &str) -> Candidate {
    Candidate {
        node_id: node_id.into(),
        capacity: NodeCapacity { node_id: node_id.into(), ..Default::default() },
        profile: None,
        history: None,
        rtt_ms: f(f64::INFINITY),
        rtt_measured: false,
        ask_base_units: None,
        groups: None,
    }
}

/// The "profiled" fixture host (24GB CUDA card, 120 tok/s).
fn profiled(node_id: &str) -> Candidate {
    let mut c = cand(node_id);
    c.profile = Some(NodeProfile {
        node_id: node_id.into(),
        cpu: CpuProfile { cores: 8, threads: 16, gflops_fp32: f(400.0), mem_bw_gbps: f(50.0) },
        gpus: vec![GpuInfo { model: "X".into(), backend: "Cuda".into(), vram_mb: f(24000.0), fp16_tflops: f(80.0) }],
        memory: MemoryInfo { total_mb: f(16000.0), available_mb: f(12000.0) },
        storage: StorageInfo { total_gb: f(1000.0), free_gb: f(500.0), read_mbps: f(2000.0), write_mbps: f(1500.0) },
        llm: LlmInfo { ref_model: "m".into(), tokens_per_sec: f(120.0) },
        runtime: RuntimeInfo { os: "linux".into(), arch: "x86_64".into(), docker: true, gvisor: true, wasm: true, kind: None },
        ..Default::default()
    });
    c
}

fn history(jobs: u64, heartbeats: u64, earned: &str, recent: &str) -> NodeHistory {
    NodeHistory {
        jobs_hosted: jobs,
        heartbeats_hosted: heartbeats,
        earned: earned.into(),
        recent_earned: recent.into(),
        ..Default::default()
    }
}

fn demand_vram(weight: f64, target: f64) -> Demand {
    Demand { vram_mb: Some(DemandAxis { weight: f(weight), target: f(target) }), ..Default::default() }
}

// --- resolve_weights ---------------------------

#[test]
fn clamp01_bounds() {
    assert_eq!(clamp(-1.0), 0.0);
    assert_eq!(clamp(2.0), 1.0);
    assert_eq!(clamp(0.5), 0.5);
    assert_eq!(clamp(f64::NAN), 0.0);
}

#[test]
fn resolve_weights_normalizes_convex_axes_and_keeps_wd() {
    let spec = JobSpec { objective: Some(Objective::Latency), ..Default::default() };
    let w = weights(&spec);
    let sum = w.w_l + w.w_b + w.w_t + w.w_p;
    assert!((sum - 1.0).abs() < 1e-9, "convex weights sum to 1, got {sum}");
    assert!(w.w_l > w.w_b && w.w_l > w.w_p, "latency objective weights latency highest");
    assert!((w.w_d - 0.1).abs() < 1e-9, "wD passes through verbatim, not normalized");
}

#[test]
fn resolve_weights_default_balanced() {
    let w = weights(&JobSpec::default());
    let sum = w.w_l + w.w_b + w.w_t + w.w_p;
    assert!((sum - 1.0).abs() < 1e-9);
}

#[test]
fn resolve_weights_override_renormalizes() {
    let spec = JobSpec {
        objective: Some(Objective::Balanced),
        weights: Some(Weights { w_l: f(2.0), w_b: f(2.0), w_t: f(0.0), w_p: f(0.0), w_d: f(0.3) }),
        ..Default::default()
    };
    let w = weights(&spec);
    assert!((w.w_l - 0.5).abs() < 1e-9 && (w.w_b - 0.5).abs() < 1e-9, "override re-normalizes");
    assert_eq!(w.w_t, 0.0);
    assert!((w.w_d - 0.3).abs() < 1e-9, "wD override passes through");
}

#[test]
fn resolve_weights_all_zero_falls_back_to_equal_split() {
    let spec = JobSpec {
        weights: Some(Weights { w_l: f(0.0), w_b: f(0.0), w_t: f(0.0), w_p: f(0.0), w_d: f(0.15) }),
        ..Default::default()
    };
    let w = weights(&spec);
    assert_eq!(w.w_l, 0.25);
    assert_eq!(w.w_p, 0.25);
}

// --- latency: prefers low-RTT, floors past the cap ----------------------

#[test]
fn latency_prefers_low_rtt_and_floors_past_cap() {
    let spec = JobSpec { rtt_soft_cap_ms: Some(f(250.0)), ..Default::default() };
    let mut near = cand("us-near");
    near.rtt_ms = f(10.0);
    let mut far = cand("us-far");
    far.rtt_ms = f(300.0);
    let s_near = latency(&near, &spec, NO_GRAPH);
    let s_far = latency(&far, &spec, NO_GRAPH);
    assert!((s_near - (1.0 - 10.0 / 250.0)).abs() < 1e-9, "near latency = 1-10/250, got {s_near}");
    assert!(s_near > s_far, "near host must outscore far host (prefers low-RTT)");
    assert_eq!(s_far, 0.0, "host past the soft cap floors at 0");
    // Unreachable / infinite RTT => 0.
    assert_eq!(latency(&cand("x"), &spec, NO_GRAPH), 0.0, "unreachable host scores 0");
}

/// Graph-backed latency path (no candidate rtt_ms), via a stub view.
#[test]
fn latency_graph_backed_branch() {
    struct Stub;
    impl LatencyView for Stub {
        // Ghost: never called.
        fn model(&self) -> LatencyModel {
            unreachable!()
        }
        fn measured_rtt(&self, a: &str, b: &str) -> Option<Binary64> {
            if a == "me" && b == "us-near" { Some(f(10.0)) } else { None }
        }
        fn predicted_rtt(&self, a: &str, b: &str) -> Binary64 {
            if a == "me" && b == "us-far" { f(280.0) } else { f(f64::INFINITY) }
        }
        fn region_of(&self, _: &str) -> i64 {
            -1
        }
    }
    let spec = JobSpec { payer: Some("me".into()), rtt_soft_cap_ms: Some(f(250.0)), ..Default::default() };
    let s_near = latency(&cand("us-near"), &spec, Some(&Stub));
    assert!((s_near - (1.0 - 10.0 / 250.0)).abs() < 1e-9, "graph-backed measured RTT used for near host");
    assert_eq!(latency(&cand("us-far"), &spec, Some(&Stub)), 0.0, "predicted past the cap floors to 0");
    assert_eq!(latency(&cand("ghost"), &spec, Some(&Stub)), 0.0, "unreachable host scores 0");
}

// --- benchFit: saturates at target; atlas confidence discounted ---------

#[test]
fn bench_fit_saturates_at_target() {
    let host = profiled("gpu1");
    let spec = JobSpec { demand: Some(demand_vram(1.0, 8000.0)), ..Default::default() };
    let fit = bench(&host, &spec);
    assert_eq!(fit.source, FitSource::Profile);
    assert_eq!(fit.confidence, 1.0);
    assert_eq!(fit.score, 1.0, "24GB VRAM clears an 8GB target => saturated fit 1.0");

    // Below the bar the fit is the ratio (no extra credit for surplus above it).
    let big = JobSpec { demand: Some(demand_vram(1.0, 48000.0)), ..Default::default() };
    let fit_big = bench(&host, &big);
    assert!((fit_big.score - 24000.0 / 48000.0).abs() < 1e-9, "below-bar fit is the ratio (0.5 here)");

    // No demand => neutral 0.5, full confidence.
    let neutral = bench(&host, &JobSpec::default());
    assert_eq!(neutral.score, 0.5);
    assert_eq!(neutral.confidence, 1.0);
}

#[test]
fn bench_fit_atlas_fallback_is_discounted() {
    let mut atlas_only = cand("cpu1");
    atlas_only.capacity.cpu_cores = 16;
    atlas_only.capacity.mem_mb = 32000;
    atlas_only.capacity.tags = vec!["docker".into()];
    let spec = JobSpec {
        demand: Some(Demand { gflops: Some(DemandAxis { weight: f(1.0), target: f(64.0) }), ..Default::default() }),
        ..Default::default()
    };
    let fit = bench(&atlas_only, &spec);
    assert_eq!(fit.source, FitSource::Atlas, "no profile => atlas source");
    assert!(fit.confidence < 1.0, "atlas estimate carries discounted confidence");
    assert_eq!(fit.score, 1.0, "16 cores * 8 GFLOPS = 128 clears a 64 target");
}

#[test]
fn bench_fit_demand_weighted_mean() {
    let host = profiled("gpu1");
    let spec = JobSpec {
        demand: Some(Demand {
            vram_mb: Some(DemandAxis { weight: f(3.0), target: f(48000.0) }), // fit 0.5
            tokens_per_sec: Some(DemandAxis { weight: f(1.0), target: f(60.0) }), // fit 1.0 (120/60 saturates)
            ..Default::default()
        }),
        ..Default::default()
    };
    let fit = bench(&host, &spec);
    let expected = (3.0 * 0.5 + 1.0 * 1.0) / 4.0;
    assert!((fit.score - expected).abs() < 1e-9, "demand-weighted mean = {expected}, got {}", fit.score);
}

// --- trust: log-saturating + benchmark-suspect floor -----------------

/// The H100-claim fixture host (80GB VRAM, 200 TFLOPS, 300 tok/s).
fn big_claim(node_id: &str) -> Candidate {
    let mut c = cand(node_id);
    c.profile = Some(NodeProfile {
        node_id: node_id.into(),
        cpu: CpuProfile { cores: 4, threads: 8, gflops_fp32: f(100.0), mem_bw_gbps: f(20.0) },
        gpus: vec![GpuInfo { model: "H100".into(), backend: "Cuda".into(), vram_mb: f(80000.0), fp16_tflops: f(200.0) }],
        memory: MemoryInfo { total_mb: f(8000.0), available_mb: f(6000.0) },
        storage: StorageInfo { total_gb: f(100.0), free_gb: f(50.0), read_mbps: f(500.0), write_mbps: f(400.0) },
        llm: LlmInfo { ref_model: "m".into(), tokens_per_sec: f(300.0) },
        runtime: RuntimeInfo { os: "linux".into(), arch: "x86_64".into(), docker: true, ..Default::default() },
        ..Default::default()
    });
    c
}

#[test]
fn trust_log_saturates_and_rewards_recency() {
    let spec = JobSpec { trust_saturation: Some(f(50.0)), ..Default::default() };
    let mut newbie = cand("n");
    newbie.history = Some(history(0, 0, "0", "0"));
    let mut veteran = cand("v");
    veteran.history = Some(history(40, 10, "7200000000000000000000", "1200000000000000000000"));
    let t_new = trust(&newbie, &spec);
    let t_vet = trust(&veteran, &spec);
    assert!(t_new.score >= 0.0 && t_new.score < 0.2, "newbie trust must be low, got {}", t_new.score);
    assert!(t_vet.score > t_new.score, "veteran must outrank newbie on trust");
    assert!(!t_new.benchmark_suspect && !t_vet.benchmark_suspect, "honest histories are not suspect");

    // Log saturation: 500 delivered is only modestly above 50.
    let mut huge = cand("h");
    huge.history = Some(history(500, 0, "1", "1"));
    let mut fifty = cand("f");
    fifty.history = Some(history(50, 0, "1", "1"));
    let t_huge = trust(&huge, &spec);
    let t_fifty = trust(&fifty, &spec);
    assert!(t_huge.score - t_fifty.score < t_fifty.score, "trust saturates: 500 vs 50 gap < 50 vs 0 gap");

    // Recency discount: all-time earnings but nothing recent.
    let mut dormant = cand("d");
    dormant.history = Some(history(40, 10, "7200000000000000000000", "0"));
    let t_dormant = trust(&dormant, &spec);
    assert!(t_dormant.score < t_vet.score, "dormant (no recent earnings) trust < active veteran");
}

#[test]
fn trust_flags_and_floors_benchmark_suspect() {
    let spec = JobSpec { trust_saturation: Some(f(50.0)), ..Default::default() };

    // Big GPU/LLM claim with no delivered work => suspect + trust floored.
    let mut suspect = big_claim("s");
    suspect.history = Some(history(0, 0, "0", "0"));
    let t_sus = trust(&suspect, &spec);
    assert!(t_sus.benchmark_suspect, "huge claim + no delivered work => benchmark_suspect");
    assert_eq!(t_sus.score, 0.0, "suspect host with zero delivered work => trust floored to 0");

    // A node that has actually delivered the work for its big claim is NOT suspect.
    let mut earned = big_claim("e");
    earned.history = Some(history(30, 0, "1", "1"));
    let t_earned = trust(&earned, &spec);
    assert!(!t_earned.benchmark_suspect, "delivered work corroborates the claim => not suspect");
    assert!(t_earned.score > 0.0, "corroborated big-claim host keeps positive trust");

    // No history at all => low trust, not suspect (no profile => nothing to over-claim).
    let empty = trust(&cand("e2"), &spec);
    assert_eq!(empty.score, 0.0);
    assert!(!empty.benchmark_suspect, "no history => zero trust, not suspect");
}

// --- price: 128-bit money, ratio-only float, monotonic ------------------

#[test]
fn price_is_integer_money_and_monotonic() {
    // Base units beyond 2^53 to prove no float coercion of money.
    let cap_units = "1000000000000000000000"; // 1000 credits
    let spec = JobSpec {
        price_cap_base_units: Some(cap_units.into()),
        default_price_score: Some(f(0.5)),
        ..Default::default()
    };
    let mut cheap = cand("c");
    cheap.ask_base_units = Some("100000000000000000000".into()); // 100 credits
    let mut dear = cand("d");
    dear.ask_base_units = Some("900000000000000000000".into()); // 900 credits
    let s_cheap = price(&cheap, &spec);
    let s_dear = price(&dear, &spec);
    assert!(s_cheap > s_dear, "cheaper must score higher (monotonic)");
    assert!((s_cheap - 0.9).abs() < 1e-6, "100/1000 => 0.9, got {s_cheap}");
    assert!((s_dear - 0.1).abs() < 1e-6, "900/1000 => 0.1, got {s_dear}");

    // At/over the cap => 0; free => 1.
    let mut at_cap = cand("a");
    at_cap.ask_base_units = Some(cap_units.into());
    assert_eq!(price(&at_cap, &spec), 0.0, "at the cap => 0");
    let mut free = cand("f");
    free.ask_base_units = Some("0".into());
    assert_eq!(price(&free, &spec), 1.0, "free => 1");

    // No ask => default neutral; no cap => default neutral.
    assert_eq!(price(&cand("n"), &spec), 0.5, "no ask => default 0.5");
    let mut asks = cand("x");
    asks.ask_base_units = Some("5".into());
    let no_cap = JobSpec { default_price_score: Some(f(0.5)), ..Default::default() };
    assert_eq!(price(&asks, &no_cap), 0.5, "no cap => default 0.5");

    // Malformed money strings degrade to neutral, never panic.
    let mut bad = cand("b");
    bad.ask_base_units = Some("not-a-number".into());
    assert_eq!(price(&bad, &spec), 0.5, "malformed ask => neutral");
}

// --- runtime kind factor + prefer-local ----------------------------------

#[test]
fn runtime_kind_factor_penalizes_browsers_and_boosts_local() {
    let with_kind = |id: &str, kind: &str| {
        let mut c = cand(id);
        c.profile = Some(NodeProfile {
            runtime: RuntimeInfo { kind: Some(kind.into()), ..Default::default() },
            ..Default::default()
        });
        c
    };
    let w_tp = resolve_weights(&JobSpec { objective: Some(Objective::Throughput), ..Default::default() });
    assert_eq!(factor(&with_kind("n", "Native"), None, &w_tp), 1.0, "native gets no adjustment");

    let browser = factor(&with_kind("b", "Browser"), None, &w_tp);
    assert!(browser < 1.0, "browser node is penalized");
    assert!(browser <= v(browser_runtime_penalty()), "at least the base penalty on throughput");

    // The browser penalty is harsher on throughput than on latency objectives.
    let w_lat = resolve_weights(&JobSpec { objective: Some(Objective::Latency), ..Default::default() });
    let browser_lat = factor(&with_kind("b", "Browser"), None, &w_lat);
    assert!(browser_lat > browser, "browser penalized harder when throughput-bound (high wB)");

    // No profile -> unknown kind -> no penalty.
    assert_eq!(factor(&cand("x"), None, &w_tp), 1.0, "missing profile -> no runtime penalty");

    // Prefer-local: only the matching node is boosted.
    let local = factor(&with_kind("me", "Native"), Some("me"), &w_tp);
    assert!((local - v(prefer_local_boost())).abs() < 1e-9, "payer's own node gets the prefer-local boost");
    assert_eq!(factor(&with_kind("other", "Native"), Some("me"), &w_tp), 1.0);
}

// --- static blend: convex, monotone, near/honest beats far/suspect ------

#[test]
fn static_score_ranks_near_honest_above_far_suspect() {
    let spec = JobSpec {
        objective: Some(Objective::Balanced),
        payer: Some("me".into()),
        rtt_soft_cap_ms: Some(f(250.0)),
        trust_saturation: Some(f(50.0)),
        demand: Some(demand_vram(1.0, 8000.0)),
        ..Default::default()
    };

    let mut good = profiled("us-near");
    good.rtt_ms = f(10.0);
    good.capacity.tags = vec!["docker".into(), "gpu".into()];
    good.history = Some(history(40, 10, "7200000000000000000000", "1200000000000000000000"));

    let mut bad = big_claim("us-far");
    bad.rtt_ms = f(300.0); // past the cap => latency 0
    bad.capacity.tags = vec!["docker".into(), "gpu".into()];
    bad.history = Some(history(0, 0, "0", "0")); // no delivered work

    let s_good = blend(&good, &spec, NO_GRAPH);
    let s_bad = blend(&bad, &spec, NO_GRAPH);

    assert!(s_good.score >= 0.0 && s_good.score <= 1.0, "static score in [0,1]");
    assert!(s_bad.score >= 0.0 && s_bad.score <= 1.0, "static score in [0,1]");
    assert!(s_good.score > s_bad.score, "near/honest host must outrank far/benchmark-suspect host");
    assert!(s_bad.benchmark_suspect, "the over-claiming far host is flagged suspect in the blend");
    assert_eq!(s_good.bench_fit.source, FitSource::Profile);
    assert_eq!(s_good.bench_fit.confidence, 1.0);
    // The far host scores 0 on latency; the near host gets the full latency contribution.
    assert!(s_good.parts.latency > 0.0);
    assert_eq!(s_bad.parts.latency, 0.0, "latency part reflects RTT (low-RTT preferred)");
}

/// Blend monotonicity: improving any single axis (all else equal) never lowers the blend.
#[test]
fn static_score_is_monotone_per_axis() {
    let spec = JobSpec {
        payer: Some("me".into()),
        price_cap_base_units: Some("1000".into()),
        demand: Some(demand_vram(1.0, 48000.0)),
        ..Default::default()
    };
    // Enough delivered work (30 >= the largest corroboration floor of 20) that the
    // benchmark-suspect check never fires - this test isolates pure per-axis monotonicity.
    // (Raising a CLAIM without the work to back it can legitimately LOWER the blend; that
    // non-monotonicity is covered by trust_flags_and_floors_benchmark_suspect.)
    let base = {
        let mut c = profiled("a");
        c.rtt_ms = f(100.0);
        c.ask_base_units = Some("500".into());
        c.history = Some(history(30, 0, "1", "1"));
        c
    };
    let score = |c: &Candidate| blend(c, &spec, NO_GRAPH).score;

    let mut nearer = base.clone();
    nearer.rtt_ms = f(10.0);
    assert!(score(&nearer) > score(&base), "lower RTT never lowers the blend");

    let mut cheaper = base.clone();
    cheaper.ask_base_units = Some("100".into());
    assert!(score(&cheaper) > score(&base), "cheaper ask never lowers the blend");

    let mut trusted = base.clone();
    trusted.history = Some(history(200, 0, "1", "1"));
    assert!(score(&trusted) > score(&base), "more delivered work never lowers the blend");

    let mut fitter = base.clone();
    fitter.profile.as_mut().unwrap().gpus[0].vram_mb = f(48000.0);
    assert!(score(&fitter) > score(&base), "a better bench fit never lowers the blend");

    // A browser runtime strictly lowers an otherwise-identical candidate.
    let mut browser = base.clone();
    browser.profile.as_mut().unwrap().runtime.kind = Some("Browser".into());
    assert!(score(&browser) < score(&base), "browser candidate ranks below identical native one");
}

#[test]
fn money_is_read_or_zero() {
    assert_eq!(to_big(" 42 "), 42);
    assert_eq!(to_big("-7"), -7);
    assert_eq!(to_big("+7"), 7);
    assert_eq!(to_big("170141183460469231731687303715884105727"), i128::MAX);
    assert_eq!(to_big("-170141183460469231731687303715884105728"), i128::MIN);
    assert_eq!(to_big("170141183460469231731687303715884105728"), 0, "past the range");
    assert_eq!(to_big("1.5"), 0);
    assert_eq!(to_big("-"), 0);
    assert_eq!(to_big(""), 0);
}

#[test]
fn prices_at_the_edges() {
    let ask = |a: &str| {
        let mut c = cand("a");
        c.ask_base_units = Some(a.into());
        c
    };
    let cap = |p: &str| JobSpec { price_cap_base_units: Some(p.into()), ..Default::default() };
    assert_eq!(price(&ask("-5"), &cap("10")), 1.0, "a negative ask is free");
    assert_eq!(price(&ask("1"), &cap("3")), 1.0 - 333333.0 / 1e6, "the ratio is taken in millionths");
    assert_eq!(price(&ask("1"), &cap("0")), 0.5, "no positive cap");
    assert_eq!(price(&ask(""), &cap("10")), 0.5, "an empty ask is none");
}

#[test]
fn trust_of_given_logs() {
    let mut c = cand("a");
    c.history = Some(history(3, 1, "0", "0"));
    let t = trust_from_logs(&c, f(1.0), f(4.0));
    assert_eq!(t, Trust { score: f(0.25 * 0.85), benchmark_suspect: false }, "unmeasured hardware is discounted");
    c.history = Some(history(3, 1, "8", "0"));
    let dormant = trust_from_logs(&c, f(1.0), f(4.0));
    assert_eq!(dormant.score, f(0.25 * 0.75 * 0.85), "nothing earned lately");
    c.history = Some(history(3, 1, "8", "4"));
    assert_eq!(trust_from_logs(&c, f(9.0), f(4.0)).score, f(1.0), "saturated");
}

#[test]
fn a_blend_of_given_trust() {
    let spec = JobSpec { weights: Some(Weights { w_l: f(1.0), w_b: f(1.0), w_t: f(1.0), w_p: f(1.0), w_d: f(0.2) }), ..Default::default() };
    let mut c = cand("a");
    c.rtt_ms = f(125.0);
    let s = score_given_trust(&c, &spec, NO_GRAPH, Trust { score: f(0.75), benchmark_suspect: false });
    // (0.5 + 0.5 + 0.75 + 0.5) / 4
    assert_eq!(s.score, f(0.5625));
    assert_eq!(s.parts.trust, f(0.75));
    assert_eq!(s.parts.price, f(0.5));
    assert_eq!(s.parts.runtime_factor, f(1.0));
    assert!(!s.benchmark_suspect);
}

#[test]
fn the_runtime_constants() {
    assert_eq!(browser_runtime_penalty(), f(0.6));
    assert_eq!(browser_throughput_discount(), f(0.3));
    assert_eq!(prefer_local_boost(), f(1.15));
}
