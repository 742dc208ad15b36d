use ce_sched::api::{JobSpec, NodeCapacity, NodeHistory, RecentPlacements};
use ce_sched::binary64::Binary64;
use ce_sched::candidate::Candidate;
use ce_sched::latency::{LatencyModel, LatencyView};
use ce_sched::vendor::{
    cluster_of, diversity_penalty, group_keys, per_group_cap, tag_candidates, violates_cap, Caps, GroupKey, UNKNOWN,
};

fn f(x: f64) -> Binary64 {
    Binary64::from_bits(x.to_bits())
}

fn v(x: Binary64) -> f64 {
    f64::from_bits(x.to_bits())
}

/// Stub latency view: us-a/us-b => region 0 (same DC); eu-a => region 1; lone => none (-1).
struct StubRegions;
impl LatencyView for StubRegions {
    // Ghost: never called.
    fn model(&self) -> LatencyModel {
        unreachable!()
    }
    fn measured_rtt(&self, _: &str, _: &str) -> Option<Binary64> {
        None
    }
    fn predicted_rtt(&self, _: &str, _: &str) -> Binary64 {
        f(f64::INFINITY)
    }
    fn region_of(&self, node: &str) -> i64 {
        match node {
            "us-a" | "us-b" => 0,
            "eu-a" => 1,
            _ => -1,
        }
    }
}

fn mk(id: &str, rtt_ms: f64, tags: &[&str]) -> Candidate {
    Candidate {
        node_id: id.into(),
        capacity: NodeCapacity {
            node_id: id.into(),
            cpu_cores: 8,
            mem_mb: 16000,
            tags: tags.iter().map(|t| t.to_string()).collect(),
            ..Default::default()
        },
        profile: None,
        history: None,
        rtt_ms: f(rtt_ms),
        rtt_measured: true,
        ask_base_units: None,
        groups: None,
    }
}

/// The four-host fixture pool: two correlated US hosts, an independent EU host, a lone host.
fn pool() -> Vec<Candidate> {
    tag_candidates(
        vec![
            mk("us-a", 5.0, &["docker", "asn:64500"]),
            mk("us-b", 7.0, &["docker", "asn:64500"]),
            mk("eu-a", 90.0, &["docker", "asn:64600"]),
            mk("lone", 40.0, &["docker"]),
        ],
        Some(&StubRegions),
    )
}

fn by_id<'a>(pool: &'a [Candidate], id: &str) -> &'a Candidate {
    pool.iter().find(|c| c.node_id == id).unwrap()
}

#[test]
fn group_keys_and_clusters() {
    let pool = pool();
    let g = |id: &str| by_id(&pool, id).groups.as_ref().unwrap();
    assert_eq!(g("us-a").operator, "us-a", "operator key = node id");
    assert_eq!(g("us-a").asn, "64500", "asn parsed from asn: tag");
    assert_eq!(g("eu-a").asn, "64600", "eu-a distinct asn");
    assert_eq!(g("lone").asn, UNKNOWN, "no asn tag => unknown");
    assert_eq!(g("us-a").region, "r0");
    assert_eq!(g("us-b").region, "r0", "us-a/us-b co-region");
    assert_eq!(g("eu-a").region, "r1");
    assert!(g("lone").region.starts_with("r?:"), "region-less node gets unique region sentinel");

    // us-a & us-b share asn AND region => same union-find cluster; eu-a & lone are separate.
    assert_eq!(g("us-a").cluster, g("us-b").cluster, "us-a/us-b cluster together");
    assert_ne!(g("us-a").cluster, g("eu-a").cluster, "eu-a in a different cluster");
    assert_ne!(g("lone").cluster, g("us-a").cluster, "lone is its own cluster");
}

#[test]
fn per_group_cap_matches_js() {
    assert_eq!(per_group_cap(3, f(0.34)), 2); // ceil(3*0.34)=2
    assert_eq!(per_group_cap(1, f(0.34)), 1); // k=1 cap is 1
    assert_eq!(per_group_cap(9, f(0.34)), 4); // ceil(9*0.34)=4
    assert_eq!(per_group_cap(3, f(0.0)), 1); // degenerate share floored to 1
    assert_eq!(per_group_cap(3, f(2.0)), 3); // share>1 clamps to 1 => cap = k
    assert_eq!(per_group_cap(0, f(0.34)), 1); // k<=0 treated as 1
    assert_eq!(per_group_cap(3, f(f64::NAN)), 2); // non-finite share defaults to 0.34
}

#[test]
fn per_group_cap_stays_between_one_and_the_count() {
    for k in [0u32, 1, 2, 7, 100, u32::MAX] {
        for s in [-1.0, 0.0, 1e-300, 0.01, 0.5, 0.999, 1.0, 7.0, f64::INFINITY] {
            let cap = per_group_cap(k, f(s));
            assert!(1 <= cap && cap <= k.max(1), "cap of {k} at {s}: {cap}");
        }
    }
}

#[test]
fn diversity_penalty_prefers_independent_hosts() {
    let pool = pool();
    let spec = JobSpec::default();
    // After choosing us-a: us-b shares asn+region+cluster => penalized; eu-a/lone share nothing.
    let chosen = [by_id(&pool, "us-a")];
    let pen_us_b = v(diversity_penalty(by_id(&pool, "us-b"), &chosen, &spec));
    let pen_eu_a = v(diversity_penalty(by_id(&pool, "eu-a"), &chosen, &spec));
    let pen_lone = v(diversity_penalty(by_id(&pool, "lone"), &chosen, &spec));
    assert!(pen_us_b > 0.0, "us-b penalized for sharing asn/region/cluster with chosen us-a");
    assert_eq!(pen_eu_a, 0.0, "eu-a unpenalized (fully independent of us-a)");
    assert_eq!(pen_lone, 0.0, "lone unpenalized (fully independent of us-a)");
    assert!(pen_us_b > pen_eu_a, "correlated host is penalized more than an independent one");

    // recentLoad: payer has placed heavily on eu-a recently => eu-a gains a penalty even when
    // independent within THIS job.
    let mut recent = RecentPlacements::new();
    recent.insert("eu-a".to_string(), f(8.0));
    recent.insert("us-a".to_string(), f(2.0));
    let recent_spec = JobSpec { recent_placements: Some(recent), ..Default::default() };
    let pen_recent = v(diversity_penalty(by_id(&pool, "eu-a"), &[], &recent_spec));
    assert!((pen_recent - 0.8).abs() < 1e-9, "recentLoad = 8/10 for eu-a across-user concentration");
    assert_eq!(
        v(diversity_penalty(by_id(&pool, "lone"), &[], &recent_spec)),
        0.0,
        "lone has no recent concentration"
    );
}

#[test]
fn violates_cap_per_group_and_distinct_operator() {
    let pool = pool();
    // cap per_group=1 (strict spread): once us-a chosen, us-b violates on asn/region/cluster
    // (shares them) though operator differs.
    let strict = Caps { per_group: 1, require_distinct_operator: false };
    assert!(
        violates_cap(by_id(&pool, "us-b"), &[by_id(&pool, "us-a")], &strict).is_some(),
        "us-b breaks per_group=1 vs us-a"
    );
    assert_eq!(violates_cap(by_id(&pool, "eu-a"), &[by_id(&pool, "us-a")], &strict), None, "eu-a fits (independent)");

    // distinct-operator (verify): the SAME operator is rejected even if per_group is loose.
    // A second node under the same owner via history.owner exercises the operator-collapse path.
    let mut dup = mk("us-d", 6.0, &["docker"]);
    dup.history = Some(NodeHistory { owner: Some("us-a".into()), ..Default::default() });
    let dup_tagged = tag_candidates(vec![mk("us-a", 5.0, &["docker", "asn:64500"]), dup], Some(&StubRegions));
    assert_eq!(
        dup_tagged[1].groups.as_ref().unwrap().operator,
        "us-a",
        "history.owner collapses us-d into operator us-a"
    );
    let verify = Caps { per_group: 99, require_distinct_operator: true };
    assert_eq!(
        violates_cap(&dup_tagged[1], &[&dup_tagged[0]], &verify),
        Some(GroupKey::Operator),
        "verify rejects same-operator replica"
    );
    assert_eq!(
        violates_cap(by_id(&pool, "eu-a"), &[by_id(&pool, "us-a")], &verify),
        None,
        "verify admits distinct operator"
    );
}

/// Greedy spread under the soft penalty: distinct operators, cap respected, the independent host
/// beats the correlated near host.
#[test]
fn greedy_spread_soft_penalty() {
    let pool = pool();
    let effective_k = 3usize;
    let cap = per_group_cap(effective_k as u32, f(0.34)); // = 2
    let w_d = 0.15;
    let latency = |c: &Candidate| 1.0 - v(c.rtt_ms) / 250.0;
    let spec = JobSpec::default();

    let mut picked: Vec<&Candidate> = Vec::new();
    while picked.len() < effective_k {
        let mut best: Option<&Candidate> = None;
        let mut best_score = f64::NEG_INFINITY;
        for c in &pool {
            if picked.iter().any(|p| p.node_id == c.node_id) {
                continue;
            }
            if violates_cap(c, &picked, &Caps { per_group: cap, require_distinct_operator: true }).is_some() {
                continue;
            }
            let live = latency(c) - w_d * v(diversity_penalty(c, &picked, &spec));
            if live > best_score {
                best_score = live;
                best = Some(c);
            }
        }
        let Some(best) = best else { break };
        picked.push(best);
    }

    let ids: Vec<&str> = picked.iter().map(|c| c.node_id.as_str()).collect();
    assert_eq!(ids[0], "us-a", "lowest-RTT host picked first");
    // The independent low-RTT host (lone@40) outranks the correlated us-b@7 on the SECOND pick:
    // us-b's full groupLoad penalty (shares asn+region+cluster with us-a) sinks it below lone.
    assert_eq!(ids[1], "lone", "independent lone beats correlated us-b on the soft penalty");
    // All picks distinct operators; no operator exceeds the cap.
    let ops: Vec<&str> = picked.iter().map(|c| c.groups.as_ref().unwrap().operator.as_str()).collect();
    let unique: std::collections::HashSet<&&str> = ops.iter().collect();
    assert_eq!(unique.len(), ops.len(), "all picks are on DISTINCT operators (verify spread)");
}

/// Strict-cap pass: the HARD per-group cap (=1) excludes correlated hosts outright.
#[test]
fn greedy_strict_cap_hard_excludes_correlated() {
    let pool = pool();
    let spec = JobSpec::default();
    let latency = |c: &Candidate| 1.0 - v(c.rtt_ms) / 250.0;
    let mut picked: Vec<&Candidate> = Vec::new();
    while picked.len() < 3 {
        let mut best: Option<&Candidate> = None;
        let mut best_score = f64::NEG_INFINITY;
        for c in &pool {
            if picked.iter().any(|p| p.node_id == c.node_id) {
                continue;
            }
            if violates_cap(c, &picked, &Caps { per_group: 1, require_distinct_operator: true }).is_some() {
                continue;
            }
            let live = latency(c) - 0.15 * v(diversity_penalty(c, &picked, &spec));
            if live > best_score {
                best_score = live;
                best = Some(c);
            }
        }
        let Some(best) = best else { break };
        picked.push(best);
    }
    let ids: Vec<&str> = picked.iter().map(|c| c.node_id.as_str()).collect();
    assert!(!ids.contains(&"us-b"), "per_group=1 hard-excludes us-b (shares asn/region/cluster with us-a)");
    assert!(
        ids.contains(&"us-a") && ids.contains(&"eu-a") && ids.contains(&"lone"),
        "strict spread selects the three mutually-independent operators"
    );
}

#[test]
fn sharing_is_transitive_in_a_cluster() {
    // a and b share a network, b and c an operator; a and c share nothing directly.
    let mut b = mk("b", 1.0, &["asn:1"]);
    b.history = Some(NodeHistory { owner: Some("o".into()), ..Default::default() });
    let mut c = mk("c", 1.0, &["asn:2"]);
    c.history = Some(NodeHistory { owner: Some("o".into()), ..Default::default() });
    let pool = tag_candidates(vec![mk("a", 1.0, &["asn:1"]), b, c, mk("d", 1.0, &["asn:3"])], None::<&StubRegions>);
    let cluster = |i: usize| pool[i].groups.as_ref().unwrap().cluster.clone();
    assert_eq!(cluster(0), cluster(1));
    assert_eq!(cluster(0), cluster(2));
    assert_ne!(cluster(0), cluster(3));
    let labels = cluster_of(&pool);
    assert_eq!(labels.len(), 4);
    for i in 0..4 {
        assert_eq!(labels[i], (pool[i].node_id.clone(), cluster(i)));
    }
}

#[test]
fn a_node_that_occurs_twice_is_labelled_once() {
    // The second row of a links it with c's network.
    let pool = vec![mk("a", 1.0, &["asn:1"]), mk("b", 1.0, &["asn:1"]), mk("a", 1.0, &["asn:2"]), mk("c", 1.0, &["asn:2"])];
    let labels = cluster_of(&pool);
    let ids: Vec<&str> = labels.iter().map(|x| x.0.as_str()).collect();
    assert_eq!(ids, ["a", "b", "c"], "in order of first occurrence");
    assert_eq!(labels[0].1, labels[1].1);
    assert_eq!(labels[0].1, labels[2].1);
    assert!(cluster_of(&[]).is_empty());
    let tagged = tag_candidates(pool, None::<&StubRegions>);
    assert_eq!(tagged.len(), 4, "tagging keeps every row");
    assert_eq!(tagged[0].groups.as_ref().unwrap().cluster, tagged[2].groups.as_ref().unwrap().cluster);
}

#[test]
fn keys_of_odd_tags() {
    let c = mk("n", 1.0, &["ASN: 77 ", "asn:88"]);
    let k = group_keys(&c, Some(&StubRegions));
    assert_eq!(k.asn, "77", "the first asn tag counts, in any case, trimmed");
    assert_eq!(k.region, "r?:n");
    let e = mk("n", 1.0, &["asn:  "]);
    assert_eq!(group_keys(&e, None::<&StubRegions>).asn, UNKNOWN);
}
