use ce_sched::api::{FabricMap, FabricNode, MeshEdge, NodeCapacity, NodeId};
use ce_sched::binary64::Binary64;
use ce_sched::embedding::{embed, EmbeddingOptions};
use ce_sched::fusion::pair_key;
use ce_sched::graph::{build_graph, Graph, GraphOptions};
use ce_sched::prng::Mulberry32;

fn f(x: f64) -> Binary64 {
    Binary64::from_bits(x.to_bits())
}

fn v(x: Binary64) -> f64 {
    f64::from_bits(x.to_bits())
}

/// Reference values of the generator's stream, to the last bit.
#[test]
fn mulberry32_matches_js_bit_for_bit() {
    let mut r = Mulberry32::new(12345);
    let expect = [
        0.97972826776094735,
        0.30675226449966431,
        0.48420542152598500,
        0.81793441250920296,
        0.50942836934700608,
    ];
    for e in expect {
        assert_eq!(v(r.next()), e, "the stream of seed 12345 must match exactly");
    }
    let mut r0 = Mulberry32::new(0);
    let expect0 = [0.26642920868471265, 0.00032974570058286190, 0.22327202744781971];
    for e in expect0 {
        assert_eq!(v(r0.next()), e, "the stream of seed 0 must match exactly");
    }
}

fn obs(a: &str, b: &str, rtt_ms: f64, samples: u64, last_seen_secs: u64) -> MeshEdge {
    MeshEdge { a: a.into(), b: b.into(), rtt_ms: f(rtt_ms), samples, last_seen_secs }
}

fn cap(node_id: &str, cpu_cores: u32, mem_mb: u64, running_jobs: u32, last_seen_secs: u64, tags: &[&str]) -> NodeCapacity {
    NodeCapacity {
        node_id: node_id.into(),
        cpu_cores,
        mem_mb,
        running_jobs,
        last_seen_secs,
        tags: tags.iter().map(|t| t.to_string()).collect(),
        ask_base_units: None,
    }
}

/// Two tight regions (US, EU) bridged by one transatlantic link, plus an isolated node.
fn fixture() -> Graph {
    let observations = vec![
        obs("us-a", "us-b", 5.0, 10, 1000),
        obs("us-a", "eu-a", 90.0, 8, 1000),
        obs("us-b", "us-a", 7.0, 2, 1100), // disagrees; fewer samples
        obs("us-b", "us-c", 4.0, 6, 1100),
        obs("eu-a", "eu-b", 6.0, 5, 1200),
        obs("eu-a", "eu-c", 40.0, 3, 1200), // > threshold: same region only via eu-b
        obs("eu-b", "eu-c", 7.0, 5, 1250),
    ];
    let capacity = vec![
        cap("us-a", 8, 16000, 1, 1000, &["docker", "us"]),
        cap("us-b", 4, 8000, 0, 1100, &["docker", "us"]),
        cap("us-c", 16, 64000, 2, 1100, &["docker", "gpu", "us"]),
        cap("eu-a", 8, 16000, 0, 1200, &["docker", "eu"]),
        cap("eu-b", 4, 8000, 1, 1200, &["docker", "eu"]),
        cap("eu-c", 8, 32000, 0, 1250, &["docker", "eu"]),
        cap("lone-x", 32, 128000, 0, 1300, &["docker", "gpu"]),
    ];
    let options = GraphOptions {
        region_threshold_ms: f(30.0),
        embedding: EmbeddingOptions { iterations: 600, seed: 7, ..Default::default() },
    };
    Graph::build(&observations, &capacity, &options)
}

#[test]
fn nodes_and_has() {
    let g = fixture();
    assert_eq!(g.nodes().len(), 7);
    assert!(g.has("lone-x"), "atlas-only node should be present");
    assert!(!g.has("nope"), "unknown node should be absent");
}

#[test]
fn edge_fusion_sample_weighted_mean() {
    let g = fixture();
    // us-a<->us-b: 5ms*10 + 7ms*2 = 64 over 12 samples = 5.333... (weighted toward the 10-sample side).
    let rtt_ab = v(g.measured_rtt("us-a", "us-b").expect("us-a<->us-b must have a measured edge"));
    assert!((rtt_ab - 64.0 / 12.0).abs() < 1e-9, "fused RTT should be 64/12, got {rtt_ab}");
    assert_eq!(g.measured_rtt("us-b", "us-a"), Some(f(rtt_ab)), "measured_rtt must be order-independent");
    assert_eq!(g.measured_rtt("us-a", "us-c"), None, "us-a<->us-c is not a direct edge");
    assert_eq!(g.measured_rtt("us-a", "us-a"), Some(f(0.0)), "self RTT is 0");
}

#[test]
fn predicted_rtt_matches_js_embedding() {
    let g = fixture();
    let p = v(g.predicted_rtt("us-c", "eu-c"));
    assert!(p.is_finite() && p > 0.0, "predicted RTT across the bridge must be finite and positive");
    // Reference layout (iterations 600, seed 7).
    assert!((p - 51.25751413545828).abs() < 1e-9, "embedding must reproduce the reference layout, got {p}");
    let p2 = v(g.predicted_rtt("us-a", "eu-b"));
    assert!((p2 - 75.685146243678247).abs() < 1e-9, "second reference distance, got {p2}");
    // Reference coordinate for us-a.
    let c = g.coordinate("us-a").unwrap();
    assert!((v(c[0]) - -31.959566242480143).abs() < 1e-9 && (v(c[1]) - -28.453558538548794).abs() < 1e-9);
    // Direct measurement is returned verbatim as ground truth.
    assert_eq!(g.predicted_rtt("us-a", "us-b"), g.measured_rtt("us-a", "us-b").unwrap());
    // lone-x is isolated => no path, no shared component => infinity.
    assert!(!v(g.predicted_rtt("us-a", "lone-x")).is_finite(), "isolated node predicted RTT must be infinite");
}

#[test]
fn k_nearest_prefers_low_rtt_same_region() {
    let g = fixture();
    let near = g.k_nearest("us-a", 3);
    assert_eq!(near, vec!["us-b", "us-c", "eu-c"], "k_nearest must match the reference ranking");
    assert!(!near.contains(&"us-a".to_string()), "k_nearest must exclude the query node");
    assert!(!near.contains(&"lone-x".to_string()), "k_nearest must exclude unreachable nodes");
    // Every US peer of us-a must be predicted nearer than every EU node.
    for us in ["us-b", "us-c"] {
        for eu in ["eu-a", "eu-b", "eu-c"] {
            assert!(
                v(g.predicted_rtt("us-a", us)) < v(g.predicted_rtt("us-a", eu)),
                "same-region {us} must be nearer than cross-region {eu}"
            );
        }
    }
    assert!(g.k_nearest("nope", 3).is_empty(), "unknown query node yields nothing");
    assert!(g.k_nearest("us-a", 0).is_empty(), "k=0 yields nothing");
    assert_eq!(g.k_nearest("us-a", 99).len(), 5, "at most the reachable others");
}

#[test]
fn regions_union_find_clusters_us_eu_apart() {
    let g = fixture();
    // Largest first, size ties broken by first id: "eu-a" < "us-a".
    assert_eq!(
        g.regions(),
        &[
            vec!["eu-a".to_string(), "eu-b".into(), "eu-c".into()],
            vec!["us-a".to_string(), "us-b".into(), "us-c".into()],
            vec!["lone-x".to_string()],
        ]
    );
    let reg_us = g.region_of("us-a");
    let reg_eu = g.region_of("eu-a");
    let reg_lone = g.region_of("lone-x");
    assert!(reg_us >= 0 && reg_eu >= 0 && reg_lone >= 0, "every node must have a region index");
    assert_ne!(reg_us, reg_eu, "US and EU must be different latency regions");
    assert!(reg_lone != reg_us && reg_lone != reg_eu, "lone-x must be its own region");
    // region_of is consistent with regions(); eu-c joins EU via eu-b (7ms) even though
    // eu-a<->eu-c is 40ms (> threshold).
    assert!(g.regions()[reg_us as usize].contains(&"us-a".to_string()));
    assert_eq!(g.region_of("nope"), -1, "unknown node region_of must be -1");
}

#[test]
fn shortest_path_routes_across_the_bridge() {
    let g = fixture();
    let path = g.shortest_path("us-c", "eu-c");
    assert_eq!(path, vec!["us-c", "us-b", "us-a", "eu-a", "eu-b", "eu-c"]);
    assert!(g.shortest_path("us-a", "lone-x").is_empty(), "no path to an isolated node");
    assert_eq!(g.shortest_path("us-a", "us-a"), vec!["us-a"], "self path is the singleton");
    assert!(g.shortest_path("nope", "us-a").is_empty(), "unknown endpoint yields empty");
}

#[test]
fn capacity_folds_in() {
    let g = fixture();
    let c = g.capacity_of("us-c").expect("us-c capacity must be present");
    assert_eq!(c.cpu_cores, 16);
    assert_eq!(c.mem_mb, 64000);
    assert!(c.tags.iter().any(|t| t == "gpu"), "capacity tags must be carried for tag requirements");
    assert_eq!(g.capacity_of("lone-x").unwrap().cpu_cores, 32, "atlas-only node still carries capacity");
}

#[test]
fn embed_is_deterministic_per_seed() {
    let nodes: Vec<NodeId> = vec!["a".into(), "b".into(), "c".into()];
    let edges = vec![obs("a", "b", 10.0, 5, 0), obs("b", "c", 20.0, 5, 0)];
    let o7 = EmbeddingOptions { seed: 7, ..Default::default() };
    let c1 = embed(&nodes, &edges, &o7);
    let c2 = embed(&nodes, &edges, &o7);
    assert_eq!(c1, c2, "same (input, seed) must reproduce identical coordinates");
    let o8 = EmbeddingOptions { seed: 8, ..Default::default() };
    let c3 = embed(&nodes, &edges, &o8);
    assert_ne!(c1, c3, "a different seed lays out differently");
    // Isolated nodes still get a coordinate.
    let c4 = embed(&["x".to_string()], &[], &EmbeddingOptions::default());
    assert!(c4.iter().any(|(id, _)| id == "x"));
}

#[test]
fn build_graph_reads_the_fabric_map() {
    let map = FabricMap {
        nodes: vec![FabricNode {
            node_id: "a".into(),
            capacity: cap("a", 4, 8000, 0, 0, &["docker"]),
            profile: None,
            history: None,
        }],
        edges: vec![obs("a", "b", 12.0, 3, 0)],
        ..Default::default()
    };
    let g = build_graph(&map, &GraphOptions::default());
    assert!(g.has("a") && g.has("b"), "graph covers edge endpoints and capacity rows");
    assert_eq!(g.measured_rtt("a", "b"), Some(f(12.0)));
    assert_eq!(g.capacity_of("a").unwrap().cpu_cores, 4);
}

#[test]
fn draws_lie_in_the_unit_interval() {
    let mut r = Mulberry32::new(99);
    for _ in 0..1000 {
        let x = v(r.next());
        assert!((0.0..1.0).contains(&x));
    }
}

#[test]
fn the_key_of_a_pair_ignores_order() {
    assert_eq!(pair_key("b", "a"), "a b");
    assert_eq!(pair_key("a", "b"), pair_key("b", "a"));
    assert_eq!(pair_key("a", "a"), "a a");
}

#[test]
fn observations_without_two_ends_are_dropped() {
    let g = Graph::build(
        &[obs("", "b", 1.0, 1, 0), obs("a", "a", 2.0, 1, 0), obs("c", "d", 3.0, 0, 9), obs("d", "c", 6.0, 2, 4)],
        &[],
        &GraphOptions::default(),
    );
    assert_eq!(g.nodes().to_vec(), vec!["c", "d"]);
    assert_eq!(g.edges().len(), 1);
    // No samples count as one: (3 * 1 + 6 * 2) / 3.
    assert_eq!(g.edges()[0].rtt_ms, f(5.0));
    assert_eq!(g.edges()[0].samples, 3);
    assert_eq!(g.edges()[0].last_seen_secs, 9);
}

#[test]
fn the_path_takes_the_cheaper_detour() {
    let g = Graph::build(
        &[obs("a", "b", 10.0, 1, 0), obs("a", "c", 2.0, 1, 0), obs("c", "d", 3.0, 1, 0), obs("d", "b", 4.0, 1, 0)],
        &[],
        &GraphOptions::default(),
    );
    assert_eq!(g.shortest_path("a", "b"), vec!["a", "c", "d", "b"], "9 ms beats 10 ms");
    assert_eq!(g.shortest_path("b", "a"), vec!["b", "d", "c", "a"]);
}

#[test]
fn coincident_points_are_parted() {
    // A mean RTT of zero starts every node at the same point.
    let nodes: Vec<NodeId> = vec!["a".into(), "b".into()];
    let o = EmbeddingOptions { iterations: 1, ..Default::default() };
    let c = embed(&nodes, &[obs("a", "b", 0.0, 1, 0)], &o);
    assert_eq!(c[0].1, vec![f(0.0), f(-0.5)]);
    assert_eq!(c[1].1, vec![f(0.0), f(0.5)]);
}

#[test]
fn the_last_capacity_row_of_a_node_counts() {
    let g = Graph::build(&[], &[cap("a", 1, 1, 0, 0, &[]), cap("a", 2, 2, 0, 0, &[])], &GraphOptions::default());
    assert_eq!(g.nodes().len(), 1);
    assert_eq!(g.capacity_of("a").unwrap().cpu_cores, 2);
    assert!(g.capacity_of("b").is_none());
    assert!(g.coordinate("b").is_none());
}
