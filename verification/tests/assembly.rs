use ce_sched::api::{
    BeaconRef, CpuProfile, DeploySpec, FabricMap, FabricNode, Groups, JobSpec, MeshEdge, NodeCapacity, NodeProfile,
    Objective, PlacementPlan, PlanTarget, RuntimeInfo, Weights,
};
use ce_sched::assembly::{
    assemble_map, bridge_unmeasured_nodes, capacity_from_profile, merge_bench_map, thin_map, AtlasRow, BenchMap,
    BenchMesh, BenchNodeEntry, BenchReliability, PeerRow,
};
use ce_sched::binary64::Binary64;
use ce_sched::dispatch::{fill_payer, needs_payer, parse_bid, tally};

fn f(x: f64) -> Binary64 {
    Binary64::from_bits(x.to_bits())
}

/// Merging attaches profiles to atlas rows, appends gossip-only nodes with derived capacity,
/// and adopts the scoreboard - while the node-substrate parts (capacity/edges/beacon) survive.
#[test]
fn merge_bench_map_enriches_the_thin_map() {
    let mut map = FabricMap {
        nodes: vec![FabricNode {
            node_id: "a".into(),
            capacity: NodeCapacity { node_id: "a".into(), cpu_cores: 4, ..Default::default() },
            profile: None,
            history: None,
        }],
        beacon: BeaconRef { height: 3, hash: "cc".into() },
        ..Default::default()
    };
    let bench = BenchMap {
        nodes: vec![
            BenchNodeEntry {
                node_id: "a".into(),
                profile: Some(NodeProfile { node_id: "a".into(), ..Default::default() }),
                reliability: None,
            },
            BenchNodeEntry {
                node_id: "gossip-only".into(),
                profile: Some(NodeProfile {
                    node_id: "gossip-only".into(),
                    measured_at: 42,
                    cpu: CpuProfile { cores: 2, ..Default::default() },
                    runtime: RuntimeInfo { os: "linux".into(), wasm: true, ..Default::default() },
                    ..Default::default()
                }),
                reliability: Some(BenchReliability { last_seen: 90 }),
            },
        ],
        node_count: 2,
        mesh: BenchMesh { median_rtt_ms: f(5.0), reachable_frac: f(1.0), regions: 1 },
        ..Default::default()
    };
    merge_bench_map(&mut map, bench);
    assert_eq!(map.nodes.len(), 2);
    assert!(map.nodes[0].profile.is_some(), "atlas row gains the gossiped profile");
    assert_eq!(map.nodes[0].capacity.cpu_cores, 4, "atlas capacity is authoritative, not overwritten");
    let g = &map.nodes[1];
    assert_eq!(g.capacity.cpu_cores, 2, "gossip-only node derives capacity from its profile");
    assert_eq!(g.capacity.last_seen_secs, 90, "liveness = gossip sighting, fresher than measured_at");
    assert!(g.capacity.tags.iter().any(|t| t == "wasm"));
    assert_eq!(map.stats.nodes, 2, "scoreboard adopted from ce-bench");
    assert_eq!(map.stats.mesh.regions, 1);
    assert_eq!(map.beacon.height, 3, "node-substrate beacon survives the merge");
}

fn row(id: &str) -> AtlasRow {
    AtlasRow { node_id: id.into(), cpu_cores: 4, mem_mb: 8000, ..Default::default() }
}

fn peer(id: &str, rtt_ms: f64, samples: u64) -> PeerRow {
    PeerRow { peer: id.into(), rtt_ms: f(rtt_ms), samples, last_seen_secs: 7 }
}

#[test]
fn a_thin_map_folds_the_atlas_and_the_peers() {
    let beacon = BeaconRef { height: 9, hash: "ab".into() };
    let map = thin_map(&vec![row("me"), row("x")], &vec![peer("x", 12.5, 3)], Some("me".into()), beacon, 1000);
    assert_eq!(map.nodes.len(), 2);
    assert_eq!(map.nodes[1].capacity.mem_mb, 8000);
    assert!(map.nodes[1].profile.is_none());
    assert_eq!(map.edges.len(), 1);
    let e: &MeshEdge = &map.edges[0];
    assert_eq!((e.a.as_str(), e.b.as_str(), e.rtt_ms, e.samples, e.last_seen_secs), ("me", "x", f(12.5), 3, 7));
    assert_eq!(map.beacon.height, 9);
    assert_eq!(map.assembled_at_ms, 1000);
    assert_eq!(map.origin.as_deref(), Some("me"));
}

#[test]
fn without_an_origin_no_peer_is_anchored() {
    let map = thin_map(&vec![row("x")], &vec![peer("x", 12.5, 3)], None, BeaconRef::default(), 0);
    assert!(map.edges.is_empty());
    assert!(map.origin.is_none());
}

#[test]
fn bridging_reaches_every_other_row() {
    let mut map =
        thin_map(&vec![row("me"), row("x"), row("y")], &vec![peer("x", 12.5, 3)], Some("me".into()), BeaconRef::default(), 0);
    bridge_unmeasured_nodes(&mut map, 55);
    assert_eq!(map.edges.len(), 2, "the measured node keeps its edge, the payer gets none");
    assert_eq!(map.edges[0].rtt_ms, f(12.5));
    let e = &map.edges[1];
    assert_eq!((e.a.as_str(), e.b.as_str(), e.last_seen_secs), ("me", "y", 55));
    let before = map.edges.len();
    bridge_unmeasured_nodes(&mut map, 56);
    assert_eq!(map.edges.len(), before, "a second pass adds nothing");
}

#[test]
fn an_edge_between_others_does_not_stand_for_one_to_the_origin() {
    let mut map = thin_map(&vec![row("o"), row("x"), row("y")], &vec![], Some("o".into()), BeaconRef::default(), 0);
    map.edges.push(MeshEdge { a: "x".into(), b: "z".into(), rtt_ms: f(8.0), samples: 4, last_seen_secs: 1 });
    map.edges.push(MeshEdge { a: "y".into(), b: "o".into(), rtt_ms: f(6.0), samples: 4, last_seen_secs: 1 });
    bridge_unmeasured_nodes(&mut map, 55);
    assert_eq!(map.edges.len(), 3, "y is joined already, in the other order");
    assert_eq!((map.edges[0].a.as_str(), map.edges[1].a.as_str()), ("x", "y"), "old edges stay in front");
    let e = &map.edges[2];
    assert_eq!((e.a.as_str(), e.b.as_str(), e.rtt_ms, e.samples, e.last_seen_secs), ("o", "x", f(8.0), 1, 55));
}

#[test]
fn assembling_merges_and_bridges() {
    let thin = thin_map(&vec![row("me")], &vec![], Some("me".into()), BeaconRef::default(), 0);
    let bench = BenchMap {
        nodes: vec![BenchNodeEntry {
            node_id: "g".into(),
            profile: Some(NodeProfile { node_id: "g".into(), ..Default::default() }),
            reliability: None,
        }],
        node_count: 1,
        ..Default::default()
    };
    let full = assemble_map(thin.clone(), Some(bench), 5);
    assert_eq!(full.nodes.len(), 2);
    assert_eq!(full.edges.len(), 1);
    assert_eq!(full.edges[0].b, "g");
    let alone = assemble_map(thin, None, 5);
    assert_eq!(alone.nodes.len(), 1);
    assert!(alone.edges.is_empty());
}

#[test]
fn a_profile_implies_a_capacity() {
    let mut p = NodeProfile { node_id: "g".into(), measured_at: 11, ..Default::default() };
    p.cpu.cores = 6;
    p.memory.total_mb = f(12000.75);
    p.runtime.docker = true;
    let c = capacity_from_profile("g", &p);
    assert_eq!((c.cpu_cores, c.mem_mb, c.last_seen_secs, c.running_jobs), (6, 12000, 11, 0));
    assert!(c.tags.contains(&"docker".to_string()));
}

fn target(id: &str, replica: u32) -> PlanTarget {
    PlanTarget {
        node_id: id.into(),
        score: f(0.5),
        rtt_ms: f(1.0),
        bench_fit: f(0.5),
        trust: f(0.5),
        groups: Groups { operator: id.into(), asn: "unknown".into(), region: "r0".into(), cluster: id.into() },
        replica,
    }
}

#[test]
fn a_tally_counts_the_placed() {
    let plan = PlacementPlan {
        targets: vec![target("a", 0), target("b", 1)],
        effective_k: 2,
        requested_k: 2,
        beacon: BeaconRef::default(),
        weights: Weights::for_objective(Objective::Balanced),
        objective: "balanced".into(),
        relaxed: vec![],
        shortfall: 0,
        rejected: vec![],
        assembled_at_ms: 1,
    };
    let r = tally(&plan, &vec![Ok("job-1".to_string()), Err("refused".to_string())], 77);
    assert_eq!(r.placed, 1);
    assert_eq!(r.assembled_at_ms, 77);
    assert_eq!(r.dispatched.len(), 2);
    let (x, y) = (&r.dispatched[0], &r.dispatched[1]);
    assert_eq!((x.node_id.as_str(), x.replica, x.ok, x.job_id.as_deref(), x.error.as_deref()), ("a", 0, true, Some("job-1"), None));
    assert_eq!((y.node_id.as_str(), y.replica, y.ok, y.job_id.as_deref(), y.error.as_deref()), ("b", 1, false, None, Some("refused")));
}

#[test]
fn the_payer_defaults_to_the_local_node() {
    let mut s = JobSpec::default();
    assert!(needs_payer(&s));
    fill_payer(&mut s, None);
    assert!(needs_payer(&s));
    fill_payer(&mut s, Some("me".into()));
    assert_eq!(s.payer.as_deref(), Some("me"));
    fill_payer(&mut s, Some("you".into()));
    assert_eq!(s.payer.as_deref(), Some("me"), "a named payer stays");
}

#[test]
fn bids_are_whole_numbers() {
    let bid = |b: &str| DeploySpec { bid: b.into(), ..Default::default() };
    assert_eq!(parse_bid(&bid("12")), Some(12));
    assert_eq!(parse_bid(&bid("1e3")), None);
    assert_eq!(parse_bid(&bid("")), None);
    assert_eq!(parse_bid(&bid(" 1")), None);
}
