//! Assembling the fabric map: the node's own view, enriched with benchmark gossip, and bridged so
//! that an edge joins the origin to every other known node.

use crate::api::{
    self, BeaconRef, ByKind, FabricMap, FabricMapView, FabricNode, FabricNodeView, FabricStats,
    MeshEdge, MeshEdgeView, MeshSummary, NodeCapacity, NodeCapacityView, NodeHistory, NodeId,
    NodeProfile, NodeProfileView,
};
use crate::binary64::{self, Binary64};
use crate::counting;
use crate::order;
use crate::scorer;
use crate::sorting;
use crate::text;
use vstd::prelude::*;
use vstd::relations::*;
use vstd::seq_lib::*;

verus! {

// ---- the node's own view ----

/// A row of the node's atlas, with the history that was fetched for it.
#[derive(Debug, Clone, Default)]
pub struct AtlasRow {
    pub node_id: NodeId,
    pub cpu_cores: u32,
    pub mem_mb: u64,
    pub running_jobs: u32,
    pub last_seen_secs: u64,
    pub tags: Vec<String>,
    pub history: Option<NodeHistory>,
}

/// The measured RTT to a peer of the node.
#[derive(Debug, Clone, Default)]
pub struct PeerRow {
    pub peer: NodeId,
    pub rtt_ms: Binary64,
    pub samples: u64,
    pub last_seen_secs: u64,
}

/// The map row of an atlas row: its capacity, no profile, no ask.
pub open spec fn atlas_node(e: AtlasRow) -> FabricNodeView {
    FabricNodeView {
        node_id: e.node_id@,
        capacity: NodeCapacityView {
            node_id: e.node_id@,
            cpu_cores: e.cpu_cores,
            mem_mb: e.mem_mb,
            running_jobs: e.running_jobs,
            last_seen_secs: e.last_seen_secs,
            tags: text::texts(e.tags@),
            ask_base_units: None,
        },
        profile: None,
        history: match e.history { Some(h) => Some(h@), None => None },
    }
}

/// The edge from the origin to a peer.
pub open spec fn peer_edge(origin: Seq<char>, p: PeerRow) -> MeshEdgeView {
    MeshEdgeView {
        a: origin,
        b: p.peer@,
        rtt_ms: p.rtt_ms,
        samples: p.samples,
        last_seen_secs: p.last_seen_secs,
    }
}

/// The thin map from what the node knows: one row per atlas row, and the measured edges anchored
/// at the origin. Without an origin there are no edges.
pub fn thin_map(
    atlas: &Vec<AtlasRow>,
    peers: &Vec<PeerRow>,
    origin: Option<NodeId>,
    beacon: BeaconRef,
    now_ms: u64,
) -> (r: FabricMap)
    ensures
        r@.nodes == atlas@.map_values(|e: AtlasRow| atlas_node(e)),
        match origin {
            Some(o) => r@.edges == peers@.map_values(|p: PeerRow| peer_edge(o@, p)),
            None => r@.edges == Seq::<MeshEdgeView>::empty(),
        },
        r@.origin == text::opt_text(origin),
        r@.beacon == beacon@,
        r@.stats == no_stats(),
        r@.assembled_at_ms == now_ms,
{
    let mut nodes: Vec<FabricNode> = Vec::new();
    for i in 0..atlas.len()
        invariant
            nodes.len() == i,
            forall|j: int| 0 <= j < i ==> (#[trigger] nodes@[j])@ == atlas_node(atlas@[j]),
    {
        let e = &atlas[i];
        let capacity = NodeCapacity {
            node_id: e.node_id.clone(),
            cpu_cores: e.cpu_cores,
            mem_mb: e.mem_mb,
            running_jobs: e.running_jobs,
            last_seen_secs: e.last_seen_secs,
            tags: api::clone_texts(&e.tags),
            ask_base_units: None,
        };
        let history = match &e.history { Some(h) => Some(h.clone()), None => None };
        nodes.push(FabricNode { node_id: e.node_id.clone(), capacity, profile: None, history });
    }
    let mut edges: Vec<MeshEdge> = Vec::new();
    match &origin {
        Some(o) => {
            for i in 0..peers.len()
                invariant
                    edges.len() == i,
                    forall|j: int| 0 <= j < i ==> (#[trigger] edges@[j])@ == peer_edge(o@, peers@[j]),
            {
                let p = &peers[i];
                edges.push(
                    MeshEdge {
                        a: o.clone(),
                        b: p.peer.clone(),
                        rtt_ms: p.rtt_ms,
                        samples: p.samples,
                        last_seen_secs: p.last_seen_secs,
                    },
                );
            }
        },
        None => {},
    }
    proof {
        assert(nodes@.map_values(|x: FabricNode| x@) =~= atlas@.map_values(|e: AtlasRow| atlas_node(e)));
        match &origin {
            Some(o) => {
                assert(edges@.map_values(|x: MeshEdge| x@) =~= peers@.map_values(|p: PeerRow| peer_edge(o@, p)));
            },
            None => {
                assert(edges@.map_values(|x: MeshEdge| x@) =~= Seq::<MeshEdgeView>::empty());
            },
        }
    }
    FabricMap { nodes, edges, origin, stats: empty_stats(), beacon, assembled_at_ms: now_ms }
}

/// A scoreboard of zeros.
pub open spec fn no_stats() -> FabricStats {
    FabricStats {
        nodes: 0,
        cpu_cores: 0,
        cpu_gflops: Binary64::zero(),
        gpus: 0,
        gpu_vram_mb: Binary64::zero(),
        gpu_tflops: Binary64::zero(),
        tokens_per_sec: Binary64::zero(),
        storage_free_gb: Binary64::zero(),
        perf_score: Binary64::zero(),
        mesh: MeshSummary { median_rtt_ms: Binary64::zero(), reachable_frac: Binary64::zero(), regions: 0 },
        by_kind: ByKind { native: 0, container: 0, browser: 0 },
        computed_at: 0,
    }
}

fn empty_stats() -> (r: FabricStats)
    ensures
        r == no_stats(),
{
    let zero = Binary64 { bits: 0 };
    FabricStats {
        nodes: 0,
        cpu_cores: 0,
        cpu_gflops: zero,
        gpus: 0,
        gpu_vram_mb: zero,
        gpu_tflops: zero,
        tokens_per_sec: zero,
        storage_free_gb: zero,
        perf_score: zero,
        mesh: MeshSummary { median_rtt_ms: zero, reachable_frac: zero, regions: 0 },
        by_kind: ByKind { native: 0, container: 0, browser: 0 },
        computed_at: 0,
    }
}

// ---- benchmark gossip ----

/// When a node's gossip was last heard.
#[derive(Debug, Clone, Copy, Default, PartialEq, Eq, Structural)]
pub struct BenchReliability {
    pub last_seen: u64,
}

/// One node in the benchmark map.
#[derive(Debug, Clone, Default)]
pub struct BenchNodeEntry {
    pub node_id: String,
    pub profile: Option<NodeProfile>,
    pub reliability: Option<BenchReliability>,
}

/// What a [`BenchNodeEntry`] holds.
pub struct BenchNodeEntryView {
    pub node_id: Seq<char>,
    pub profile: Option<NodeProfileView>,
    pub reliability: Option<BenchReliability>,
}

impl View for BenchNodeEntry {
    type V = BenchNodeEntryView;

    open spec fn view(&self) -> BenchNodeEntryView {
        BenchNodeEntryView {
            node_id: self.node_id@,
            profile: match self.profile { Some(x) => Some(x@), None => None },
            reliability: self.reliability,
        }
    }
}

/// Mesh-health summary of the benchmark map.
#[derive(Debug, Clone, Copy, Default, PartialEq)]
pub struct BenchMesh {
    pub median_rtt_ms: Binary64,
    pub reachable_frac: Binary64,
    pub regions: u64,
}

/// Node-kind census of the benchmark map.
#[derive(Debug, Clone, Copy, Default, PartialEq, Eq, Structural)]
pub struct BenchByKind {
    pub native: u64,
    pub container: u64,
    pub browser: u64,
}

/// The benchmark map: folded gossip and the scoreboard.
#[derive(Debug, Clone, Default)]
pub struct BenchMap {
    pub nodes: Vec<BenchNodeEntry>,
    pub node_count: u64,
    pub cpu_cores: u64,
    pub cpu_gflops: Binary64,
    pub gpus: u64,
    pub gpu_vram_mb: Binary64,
    pub gpu_tflops: Binary64,
    pub tokens_per_sec: Binary64,
    pub storage_free_gb: Binary64,
    pub perf_score: Binary64,
    pub mesh: BenchMesh,
    pub by_kind: BenchByKind,
    pub computed_at: u64,
}

/// The entries of a benchmark map.
pub open spec fn entries(bench: BenchMap) -> Seq<BenchNodeEntryView> {
    bench.nodes@.map_values(|e: BenchNodeEntry| e@)
}

/// The scoreboard of a benchmark map.
pub open spec fn scoreboard(bench: BenchMap) -> FabricStats {
    FabricStats {
        nodes: bench.node_count,
        cpu_cores: bench.cpu_cores,
        cpu_gflops: bench.cpu_gflops,
        gpus: bench.gpus,
        gpu_vram_mb: bench.gpu_vram_mb,
        gpu_tflops: bench.gpu_tflops,
        tokens_per_sec: bench.tokens_per_sec,
        storage_free_gb: bench.storage_free_gb,
        perf_score: bench.perf_score,
        mesh: MeshSummary {
            median_rtt_ms: bench.mesh.median_rtt_ms,
            reachable_frac: bench.mesh.reachable_frac,
            regions: bench.mesh.regions,
        },
        by_kind: ByKind {
            native: bench.by_kind.native,
            container: bench.by_kind.container,
            browser: bench.by_kind.browser,
        },
        computed_at: bench.computed_at,
    }
}

/// A list with a text where a condition holds.
pub open spec fn only_if(cond: bool, s: Seq<char>) -> Seq<Seq<char>> {
    if cond {
        seq![s]
    } else {
        seq![]
    }
}

/// The capability tags of a profile.
pub open spec fn profile_tags(p: NodeProfileView) -> Seq<Seq<char>> {
    only_if(p.runtime.os.len() > 0, p.runtime.os) + only_if(p.runtime.arch.len() > 0, p.runtime.arch) + only_if(
        p.runtime.docker,
        "docker"@,
    ) + only_if(p.runtime.wasm, "wasm"@) + only_if(p.gpus.len() > 0, "gpu"@)
}

/// A measured amount as a count: truncated, at least zero.
pub open spec fn as_count(x: Binary64) -> int {
    let f = x.greater_of(Binary64::zero()).floor();
    if f < 0 {
        0
    } else if f <= u64::MAX {
        f
    } else {
        u64::MAX as int
    }
}

/// The capacity that a profile implies.
pub open spec fn implied_capacity(id: Seq<char>, p: NodeProfileView) -> NodeCapacityView {
    NodeCapacityView {
        node_id: id,
        cpu_cores: p.cpu.cores,
        mem_mb: as_count(p.memory.total_mb) as u64,
        running_jobs: 0,
        last_seen_secs: p.measured_at,
        tags: profile_tags(p),
        ask_base_units: None,
    }
}

/// A capacity of nothing.
pub open spec fn no_capacity(id: Seq<char>) -> NodeCapacityView {
    NodeCapacityView {
        node_id: id,
        cpu_cores: 0,
        mem_mb: 0,
        running_jobs: 0,
        last_seen_secs: 0,
        tags: Seq::empty(),
        ask_base_units: None,
    }
}

/// The capacity of a node that only gossip knows: what its profile implies, and live as of the
/// later of its measurement and the last time it was heard.
pub open spec fn gossip_capacity(e: BenchNodeEntryView) -> NodeCapacityView {
    let base = match e.profile {
        Some(p) => implied_capacity(e.node_id, p),
        None => no_capacity(e.node_id),
    };
    match e.reliability {
        Some(r) => if r.last_seen > base.last_seen_secs {
            NodeCapacityView { last_seen_secs: r.last_seen, ..base }
        } else {
            base
        },
        None => base,
    }
}

/// The rows after the first `n` entries were folded in.
pub open spec fn folded(rows: Seq<FabricNodeView>, entries: Seq<BenchNodeEntryView>, n: nat) -> Seq<FabricNodeView>
    decreases n,
{
    if n == 0 {
        rows
    } else {
        let before = folded(rows, entries, (n - 1) as nat);
        let e = entries[n - 1];
        if e.node_id.len() == 0 {
            before
        } else {
            match api::first_row(before, e.node_id, 0) {
                Some(i) => if e.profile is Some {
                    before.update(i, FabricNodeView { profile: e.profile, ..before[i] })
                } else {
                    before
                },
                None => before.push(
                    FabricNodeView {
                        node_id: e.node_id,
                        capacity: gossip_capacity(e),
                        profile: e.profile,
                        history: None,
                    },
                ),
            }
        }
    }
}

/// The map with a benchmark map folded in.
pub open spec fn merged(map: FabricMapView, bench: BenchMap) -> FabricMapView {
    FabricMapView {
        nodes: folded(map.nodes, entries(bench), entries(bench).len()),
        stats: scoreboard(bench),
        ..map
    }
}

fn push_if(tags: &mut Vec<String>, cond: bool, s: &str)
    ensures
        text::texts(final(tags)@) == text::texts(old(tags)@) + only_if(cond, s@),
{
    if cond {
        tags.push(s.to_owned());
    }
    proof {
        assert(text::texts(tags@) =~= text::texts(old(tags)@) + only_if(cond, s@));
    }
}

/// Coarse capacity of a node that has a profile but no atlas row: cores and memory from the
/// profile, tags from its runtime, liveness from its measurement time.
pub fn capacity_from_profile(node_id: &str, p: &NodeProfile) -> (r: NodeCapacity)
    ensures
        r@ == implied_capacity(node_id@, p@),
{
    let mut tags: Vec<String> = Vec::new();
    push_if(&mut tags, !p.runtime.os.as_str().is_empty(), p.runtime.os.as_str());
    push_if(&mut tags, !p.runtime.arch.as_str().is_empty(), p.runtime.arch.as_str());
    push_if(&mut tags, p.runtime.docker, "docker");
    push_if(&mut tags, p.runtime.wasm, "wasm");
    push_if(&mut tags, p.gpus.len() > 0, "gpu");
    proof {
        assert(text::texts(tags@) =~= profile_tags(p@));
    }
    NodeCapacity {
        node_id: node_id.to_owned(),
        cpu_cores: p.cpu.cores,
        mem_mb: p.memory.total_mb.max(Binary64 { bits: 0 }).to_u64(),
        running_jobs: 0,
        last_seen_secs: p.measured_at,
        tags,
        ask_base_units: None,
    }
}

fn capacity_of_entry(e: &BenchNodeEntry) -> (r: NodeCapacity)
    ensures
        r@ == gossip_capacity(e@),
{
    let mut capacity = match &e.profile {
        Some(p) => capacity_from_profile(e.node_id.as_str(), p),
        None => {
            let tags: Vec<String> = Vec::new();
            proof {
                assert(text::texts(tags@) =~= Seq::empty());
            }
            NodeCapacity {
                node_id: e.node_id.clone(),
                cpu_cores: 0,
                mem_mb: 0,
                running_jobs: 0,
                last_seen_secs: 0,
                tags,
                ask_base_units: None,
            }
        },
    };
    match e.reliability {
        Some(r) => {
            if r.last_seen > capacity.last_seen_secs {
                capacity.last_seen_secs = r.last_seen;
            }
        },
        None => {},
    }
    capacity
}

fn find_row(nodes: &Vec<FabricNode>, id: &str) -> (r: Option<usize>)
    ensures
        match r {
            Some(i) => api::first_row(nodes@.map_values(|x: FabricNode| x@), id@, 0) == Some(i as int) && i < nodes.len(),
            None => api::first_row(nodes@.map_values(|x: FabricNode| x@), id@, 0) is None,
        },
{
    let ghost all = nodes@.map_values(|x: FabricNode| x@);
    let mut i: usize = 0;
    while i < nodes.len()
        invariant
            i <= nodes.len(),
            all == nodes@.map_values(|x: FabricNode| x@),
            api::first_row(all, id@, 0) == api::first_row(all, id@, i as int),
        decreases nodes.len() - i,
    {
        proof {
            assert(all[i as int] == nodes@[i as int]@);
        }
        if text::same(nodes[i].node_id.as_str(), id) {
            return Some(i);
        }
        i = i + 1;
    }
    None
}

/// Folds a benchmark map into the map: attaches profiles to rows, appends rows for nodes that only
/// gossip knows, and adopts the scoreboard.
pub fn merge_bench_map(map: &mut FabricMap, bench: BenchMap)
    ensures
        final(map)@ == merged(old(map)@, bench),
{
    let ghost list = entries(bench);
    let ghost start = map@;
    for n in 0..bench.nodes.len()
        invariant
            list == entries(bench),
            start == old(map)@,
            map@ == (FabricMapView { nodes: folded(start.nodes, list, n as nat), ..start }),
    {
        let e = &bench.nodes[n];
        proof {
            assert(list[n as int] == e@);
        }
        if !e.node_id.as_str().is_empty() {
            let ghost before = map@.nodes;
            match find_row(&map.nodes, e.node_id.as_str()) {
                Some(i) => {
                    match &e.profile {
                        Some(p) => {
                            proof {
                                assert(before[i as int] == map.nodes@[i as int]@);
                            }
                            let mut row = map.nodes[i].clone();
                            row.profile = Some(p.clone());
                            let ghost shown = row@;
                            map.nodes.set(i, row);
                            proof {
                                assert(map@.nodes =~= before.update(i as int, shown));
                            }
                        },
                        None => {},
                    }
                },
                None => {
                    let row = FabricNode {
                        node_id: e.node_id.clone(),
                        capacity: capacity_of_entry(e),
                        profile: match &e.profile { Some(p) => Some(p.clone()), None => None },
                        history: None,
                    };
                    let ghost shown = row@;
                    map.nodes.push(row);
                    proof {
                        assert(map@.nodes =~= before.push(shown));
                    }
                },
            }
        }
    }
    map.stats = FabricStats {
        nodes: bench.node_count,
        cpu_cores: bench.cpu_cores,
        cpu_gflops: bench.cpu_gflops,
        gpus: bench.gpus,
        gpu_vram_mb: bench.gpu_vram_mb,
        gpu_tflops: bench.gpu_tflops,
        tokens_per_sec: bench.tokens_per_sec,
        storage_free_gb: bench.storage_free_gb,
        perf_score: bench.perf_score,
        mesh: MeshSummary {
            median_rtt_ms: bench.mesh.median_rtt_ms,
            reachable_frac: bench.mesh.reachable_frac,
            regions: bench.mesh.regions,
        },
        by_kind: ByKind {
            native: bench.by_kind.native,
            container: bench.by_kind.container,
            browser: bench.by_kind.browser,
        },
        computed_at: bench.computed_at,
    };
}

// ---- bridging ----

/// Smaller numbers first.
pub open spec fn number_order() -> spec_fn(Binary64, Binary64) -> bool {
    |a: Binary64, b: Binary64| a.value() < b.value() || (a.value() == b.value() && a.bits <= b.bits)
}

/// The positive finite RTTs of edges.
pub open spec fn positive_rtts(edges: Seq<MeshEdgeView>) -> Seq<Binary64>
    decreases edges.len(),
{
    if edges.len() == 0 {
        Seq::empty()
    } else {
        let rest = positive_rtts(edges.drop_last());
        if edges.last().rtt_ms.positive() {
            rest.push(edges.last().rtt_ms)
        } else {
            rest
        }
    }
}

/// The median of the positive finite RTTs, the upper one of two; 50 without any.
pub open spec fn estimate(edges: Seq<MeshEdgeView>) -> Binary64 {
    let all = positive_rtts(edges).sort_by(number_order());
    if all.len() == 0 {
        Binary64::fraction(50, 1)
    } else {
        all[all.len() as int / 2]
    }
}

/// The edge has these two ends, in either order.
pub open spec fn joins(e: MeshEdgeView, o: Seq<char>, id: Seq<char>) -> bool {
    (e.a == o && e.b == id) || (e.a == id && e.b == o)
}

/// Some edge has these two ends.
pub open spec fn joined(edges: Seq<MeshEdgeView>, o: Seq<char>, id: Seq<char>) -> bool {
    exists|i: int| 0 <= i < edges.len() && joins(#[trigger] edges[i], o, id)
}

/// The edges from the origin to those of the first `n` rows that no edge joins to it.
pub open spec fn bridges(map: FabricMapView, origin: Seq<char>, now: u64, n: nat) -> Seq<MeshEdgeView>
    decreases n,
{
    if n == 0 {
        Seq::empty()
    } else {
        let rest = bridges(map, origin, now, (n - 1) as nat);
        let id = map.nodes[n - 1].node_id;
        if id == origin || joined(map.edges, origin, id) {
            rest
        } else {
            rest.push(
                MeshEdgeView { a: origin, b: id, rtt_ms: estimate(map.edges), samples: 1, last_seen_secs: now },
            )
        }
    }
}

/// The map with every row joined to the origin.
pub open spec fn bridged(map: FabricMapView, now: u64) -> FabricMapView {
    match map.origin {
        Some(o) => FabricMapView { edges: map.edges + bridges(map, o, now, map.nodes.len()), ..map },
        None => map,
    }
}

proof fn lemma_number_order()
    ensures
        total_ordering(number_order()),
{
    let leq = number_order();
    assert forall|a: Binary64, b: Binary64| #[trigger] leq(a, b) && #[trigger] leq(b, a) implies a == b by {
        assert(a.bits == b.bits);
    }
}

fn find_estimate(edges: &Vec<MeshEdge>) -> (r: Binary64)
    ensures
        r == estimate(edges@.map_values(|x: MeshEdge| x@)),
{
    let ghost all = edges@.map_values(|x: MeshEdge| x@);
    let ghost leq = number_order();
    proof {
        lemma_number_order();
    }
    let mut sorted: Vec<Binary64> = Vec::new();
    for n in 0..edges.len()
        invariant
            all == edges@.map_values(|x: MeshEdge| x@),
            leq == number_order(),
            total_ordering(leq),
            sorted_by(sorted@, leq),
            sorted@.to_multiset() == positive_rtts(all.take(n as int)).to_multiset(),
            forall|i: int| 0 <= i < sorted.len() ==> !(#[trigger] sorted@[i]).nan(),
    {
        let x = edges[n].rtt_ms;
        proof {
            assert(all.take(n + 1).drop_last() =~= all.take(n as int));
            assert(all.take(n + 1).last() == edges@[n as int]@);
        }
        if scorer::is_positive(x) {
            let ghost before = sorted@;
            let mut i: usize = 0;
            while i < sorted.len() && (sorted[i].lt(x) || (!x.lt(sorted[i]) && sorted[i].bits <= x.bits))
                invariant
                    i <= sorted.len(),
                    sorted@ == before,
                    !x.nan(),
                    leq == number_order(),
                    forall|k: int| 0 <= k < sorted.len() ==> !(#[trigger] sorted@[k]).nan(),
                    forall|k: int| 0 <= k < i ==> leq(#[trigger] before[k], x),
                decreases sorted.len() - i,
            {
                i = i + 1;
            }
            proof {
                if i < sorted.len() {
                    assert(!leq(before[i as int], x));
                    assert(leq(x, before[i as int]));
                }
            }
            sorted.insert(i, x);
            proof {
                assert(sorted@ =~= before.insert(i as int, x));
                sorting::lemma_insert_sorted(before, x, i as int, leq);
                to_multiset_insert(before, i as int, x);
                to_multiset_build(positive_rtts(all.take(n as int)), x);
            }
        }
    }
    proof {
        assert(all.take(edges.len() as int) =~= all);
        positive_rtts(all).lemma_sort_by_ensures(leq);
        lemma_sorted_unique(sorted@, positive_rtts(all).sort_by(leq), leq);
    }
    if sorted.len() == 0 {
        Binary64::from_u64(50)
    } else {
        sorted[sorted.len() / 2]
    }
}

fn is_joined(edges: &Vec<MeshEdge>, o: &String, id: &String) -> (r: bool)
    ensures
        r == joined(edges@.map_values(|x: MeshEdge| x@), o@, id@),
{
    let ghost all = edges@.map_values(|x: MeshEdge| x@);
    let mut i: usize = 0;
    while i < edges.len()
        invariant
            i <= edges.len(),
            all == edges@.map_values(|x: MeshEdge| x@),
            forall|j: int| 0 <= j < i ==> !joins(#[trigger] all[j], o@, id@),
        decreases edges.len() - i,
    {
        proof {
            assert(all[i as int] == edges@[i as int]@);
        }
        if (edges[i].a == *o && edges[i].b == *id) || (edges[i].a == *id && edges[i].b == *o) {
            return true;
        }
        i = i + 1;
    }
    false
}

/// Joins every row to the origin that no edge joins to it yet, at a conservative RTT: the median of
/// the measured ones. A single sample, so that any real measurement outweighs it. Without an origin
/// the map stays as it is.
pub fn bridge_unmeasured_nodes(map: &mut FabricMap, now: u64)
    ensures
        final(map)@ == bridged(old(map)@, now),
{
    let ghost start = map@;
    let origin: String = match &map.origin {
        Some(o) => o.clone(),
        None => {
            return;
        },
    };
    let rtt_ms = find_estimate(&map.edges);
    let mut added: Vec<MeshEdge> = Vec::new();
    proof {
        assert(added@.map_values(|x: MeshEdge| x@) =~= Seq::<MeshEdgeView>::empty());
    }
    for n in 0..map.nodes.len()
        invariant
            start == map@,
            rtt_ms == estimate(start.edges),
            added@.map_values(|x: MeshEdge| x@) == bridges(start, origin@, now, n as nat),
    {
        let id = &map.nodes[n].node_id;
        proof {
            assert(start.nodes[n as int] == map.nodes@[n as int]@);
        }
        if *id != origin && !is_joined(&map.edges, &origin, id) {
            let ghost before = added@.map_values(|x: MeshEdge| x@);
            let e = MeshEdge { a: origin.clone(), b: id.clone(), rtt_ms, samples: 1, last_seen_secs: now };
            let ghost shown = e@;
            added.push(e);
            proof {
                assert(added@.map_values(|x: MeshEdge| x@) =~= before.push(shown));
            }
        }
    }
    let ghost more = added@.map_values(|x: MeshEdge| x@);
    map.edges.append(&mut added);
    proof {
        assert(map@.edges =~= start.edges + more);
    }
}

/// The map that planning uses: the node's own view, with a benchmark map folded in where there is
/// one, bridged.
pub fn assemble_map(thin: FabricMap, bench: Option<BenchMap>, now: u64) -> (r: FabricMap)
    ensures
        r@ == bridged(
            match bench {
                Some(b) => merged(thin@, b),
                None => thin@,
            },
            now,
        ),
{
    let mut map = thin;
    match bench {
        Some(b) => {
            merge_bench_map(&mut map, b);
        },
        None => {},
    }
    bridge_unmeasured_nodes(&mut map, now);
    map
}

// ---- laws ----

proof fn lemma_first_row(rows: Seq<FabricNodeView>, id: Seq<char>, from: int)
    requires
        0 <= from,
    ensures
        match api::first_row(rows, id, from) {
            Some(i) => from <= i < rows.len() && rows[i].node_id == id,
            None => forall|i: int| from <= i < rows.len() ==> (#[trigger] rows[i]).node_id != id,
        },
    decreases rows.len() - from,
{
    if from < rows.len() && rows[from].node_id != id {
        lemma_first_row(rows, id, from + 1);
    }
}

/// A row of the id has a profile.
pub open spec fn profiled(rows: Seq<FabricNodeView>, id: Seq<char>) -> bool {
    exists|i: int| 0 <= i < rows.len() && (#[trigger] rows[i]).node_id == id && rows[i].profile is Some
}

/// A row has the id.
pub open spec fn listed(rows: Seq<FabricNodeView>, id: Seq<char>) -> bool {
    exists|i: int| 0 <= i < rows.len() && (#[trigger] rows[i]).node_id == id
}

/// No id occurs in two rows.
pub open spec fn rows_distinct(rows: Seq<FabricNodeView>) -> bool {
    forall|i: int, j: int| 0 <= i < j < rows.len() ==> (#[trigger] rows[i]).node_id != (#[trigger] rows[j]).node_id
}

proof fn lemma_folded(rows: Seq<FabricNodeView>, all: Seq<BenchNodeEntryView>, n: nat)
    requires
        n <= all.len(),
    ensures
        ({
            let f = folded(rows, all, n);
            &&& f.len() >= rows.len()
            &&& forall|i: int|
                0 <= i < rows.len() ==> (#[trigger] f[i]).node_id == rows[i].node_id && f[i].capacity == rows[i].capacity
                    && f[i].history == rows[i].history && (rows[i].profile is Some ==> f[i].profile is Some)
            &&& rows_distinct(rows) ==> rows_distinct(f)
        }),
    decreases n,
{
    if n > 0 {
        lemma_folded(rows, all, (n - 1) as nat);
        let before = folded(rows, all, (n - 1) as nat);
        lemma_first_row(before, all[n - 1].node_id, 0);
        let f = folded(rows, all, n);
        if rows_distinct(rows) {
            assert forall|i: int, j: int| 0 <= i < j < f.len() implies (#[trigger] f[i]).node_id != (#[trigger] f[j]).node_id by {
                assert(before[i].node_id == f[i].node_id);
                if j < before.len() {
                    assert(before[j].node_id == f[j].node_id);
                }
            }
        }
    }
}

proof fn lemma_folded_lists(rows: Seq<FabricNodeView>, all: Seq<BenchNodeEntryView>, n: nat, k: int)
    requires
        0 <= k < n <= all.len(),
        all[k].node_id.len() > 0,
    ensures
        listed(folded(rows, all, n), all[k].node_id),
        all[k].profile is Some ==> profiled(folded(rows, all, n), all[k].node_id),
    decreases n,
{
    let id = all[k].node_id;
    let before = folded(rows, all, (n - 1) as nat);
    let f = folded(rows, all, n);
    lemma_first_row(before, all[n - 1].node_id, 0);
    if k < n - 1 {
        lemma_folded_lists(rows, all, (n - 1) as nat, k);
        let i = choose|i: int| 0 <= i < before.len() && (#[trigger] before[i]).node_id == id;
        assert(f[i].node_id == id);
        if all[k].profile is Some {
            let j = choose|j: int|
                0 <= j < before.len() && (#[trigger] before[j]).node_id == id && before[j].profile is Some;
            assert(f[j].node_id == id && f[j].profile is Some);
        }
    } else {
        match api::first_row(before, id, 0) {
            Some(i) => {
                assert(f[i].node_id == id);
            },
            None => {
                assert(f[before.len() as int].node_id == id);
            },
        }
    }
}

/// What the node knows survives a merge: the edges, the beacon, the origin and the assembly time stay,
/// and so do the rows with their capacity and history, which gossip never overwrites. Rows that are
/// distinct stay distinct.
pub proof fn lemma_merge_keeps_what_the_node_knows(map: FabricMapView, bench: BenchMap)
    ensures
        ({
            let m = merged(map, bench);
            &&& m.edges == map.edges && m.beacon == map.beacon && m.origin == map.origin && m.assembled_at_ms
                == map.assembled_at_ms
            &&& m.stats == scoreboard(bench)
            &&& m.nodes.len() >= map.nodes.len()
            &&& forall|i: int|
                0 <= i < map.nodes.len() ==> (#[trigger] m.nodes[i]).node_id == map.nodes[i].node_id
                    && m.nodes[i].capacity == map.nodes[i].capacity && m.nodes[i].history == map.nodes[i].history && (
                map.nodes[i].profile is Some ==> m.nodes[i].profile is Some)
            &&& rows_distinct(map.nodes) ==> rows_distinct(m.nodes)
        }),
{
    lemma_folded(map.nodes, entries(bench), entries(bench).len());
}

/// What gossip knows arrives: every named entry has a row, with a profile where the entry has one.
pub proof fn lemma_merge_takes_in_every_entry(map: FabricMapView, bench: BenchMap, k: int)
    requires
        0 <= k < entries(bench).len(),
        entries(bench)[k].node_id.len() > 0,
    ensures
        listed(merged(map, bench).nodes, entries(bench)[k].node_id),
        entries(bench)[k].profile is Some ==> profiled(merged(map, bench).nodes, entries(bench)[k].node_id),
{
    lemma_folded_lists(map.nodes, entries(bench), entries(bench).len(), k);
}

proof fn lemma_bridges(map: FabricMapView, origin: Seq<char>, now: u64, n: nat, i: int)
    requires
        0 <= i < n <= map.nodes.len(),
        map.nodes[i].node_id != origin,
    ensures
        joined(map.edges, origin, map.nodes[i].node_id) || joined(bridges(map, origin, now, n), origin, map.nodes[i].node_id),
    decreases n,
{
    let id = map.nodes[i].node_id;
    let rest = bridges(map, origin, now, (n - 1) as nat);
    let all = bridges(map, origin, now, n);
    if !joined(map.edges, origin, id) {
        if i < n - 1 {
            lemma_bridges(map, origin, now, (n - 1) as nat, i);
            let k = choose|k: int| 0 <= k < rest.len() && joins(#[trigger] rest[k], origin, id);
            assert(joins(all[k], origin, id));
        } else {
            assert(joins(all[all.len() - 1], origin, id));
        }
    }
}

proof fn lemma_bridges_leave_the_origin(map: FabricMapView, origin: Seq<char>, now: u64, n: nat)
    ensures
        forall|k: int|
            0 <= k < bridges(map, origin, now, n).len() ==> (#[trigger] bridges(map, origin, now, n)[k]).a == origin
                && bridges(map, origin, now, n)[k].samples == 1,
    decreases n,
{
    if n > 0 {
        lemma_bridges_leave_the_origin(map, origin, now, (n - 1) as nat);
        let rest = bridges(map, origin, now, (n - 1) as nat);
        let all = bridges(map, origin, now, n);
        assert forall|k: int| 0 <= k < all.len() implies (#[trigger] all[k]).a == origin && all[k].samples == 1 by {
            if k < rest.len() {
                assert(all[k] == rest[k]);
            }
        }
    }
}

proof fn lemma_no_bridges(map: FabricMapView, origin: Seq<char>, now: u64, n: nat)
    requires
        n <= map.nodes.len(),
        forall|i: int|
            0 <= i < map.nodes.len() && (#[trigger] map.nodes[i]).node_id != origin ==> joined(
                map.edges,
                origin,
                map.nodes[i].node_id,
            ),
    ensures
        bridges(map, origin, now, n) == Seq::<MeshEdgeView>::empty(),
    decreases n,
{
    if n > 0 {
        lemma_no_bridges(map, origin, now, (n - 1) as nat);
    }
}

/// Bridging leaves no row apart from the origin: an edge joins it to every other row. Rows, origin,
/// scoreboard, beacon and time stay, the edges there were stay in front, every new edge leaves from
/// the origin with a single sample, and a second pass adds nothing.
pub proof fn lemma_bridging_connects_every_row(map: FabricMapView, now: u64, later: u64)
    requires
        map.origin is Some,
    ensures
        ({
            let b = bridged(map, now);
            &&& b.nodes == map.nodes && b.origin == map.origin && b.stats == map.stats && b.beacon == map.beacon
            &&& b.assembled_at_ms == map.assembled_at_ms
            &&& b.edges.len() >= map.edges.len()
            &&& b.edges.take(map.edges.len() as int) == map.edges
            &&& forall|k: int|
                map.edges.len() <= k < b.edges.len() ==> (#[trigger] b.edges[k]).a == map.origin->0 && b.edges[k].samples
                    == 1
            &&& forall|i: int|
                0 <= i < b.nodes.len() && (#[trigger] b.nodes[i]).node_id != map.origin->0 ==> joined(
                    b.edges,
                    map.origin->0,
                    b.nodes[i].node_id,
                )
            &&& bridged(b, later) == b
        }),
{
    let o = map.origin->0;
    let b = bridged(map, now);
    let extra = bridges(map, o, now, map.nodes.len());
    assert(b.edges.take(map.edges.len() as int) =~= map.edges);
    assert forall|i: int| 0 <= i < b.nodes.len() && (#[trigger] b.nodes[i]).node_id != o implies joined(
        b.edges,
        o,
        b.nodes[i].node_id,
    ) by {
        let id = b.nodes[i].node_id;
        lemma_bridges(map, o, now, map.nodes.len(), i);
        if joined(map.edges, o, id) {
            let k = choose|k: int| 0 <= k < map.edges.len() && joins(#[trigger] map.edges[k], o, id);
            assert(b.edges[k] == map.edges[k]);
        } else {
            let k = choose|k: int| 0 <= k < extra.len() && joins(#[trigger] extra[k], o, id);
            assert(b.edges[map.edges.len() + k] == extra[k]);
        }
    }
    lemma_bridges_leave_the_origin(map, o, now, map.nodes.len());
    assert forall|k: int| map.edges.len() <= k < b.edges.len() implies (#[trigger] b.edges[k]).a == o && b.edges[k].samples
        == 1 by {
        assert(b.edges[k] == extra[k - map.edges.len()]);
    }
    lemma_no_bridges(b, o, later, b.nodes.len());
    assert(b.edges + Seq::<MeshEdgeView>::empty() =~= b.edges);
}

proof fn lemma_positive_rtts(edges: Seq<MeshEdgeView>)
    ensures
        forall|k: int| 0 <= k < positive_rtts(edges).len() ==> (#[trigger] positive_rtts(edges)[k]).positive(),
    decreases edges.len(),
{
    if edges.len() > 0 {
        lemma_positive_rtts(edges.drop_last());
        let rest = positive_rtts(edges.drop_last());
        let all = positive_rtts(edges);
        assert forall|k: int| 0 <= k < all.len() implies (#[trigger] all[k]).positive() by {
            if k < rest.len() {
                assert(all[k] == rest[k]);
            }
        }
    }
}

/// The estimate for an unmeasured row is a positive finite RTT.
pub proof fn lemma_estimate_is_positive(edges: Seq<MeshEdgeView>)
    ensures
        estimate(edges).positive(),
{
    let some = positive_rtts(edges);
    let all = some.sort_by(number_order());
    lemma_positive_rtts(edges);
    lemma_number_order();
    some.lemma_sort_by_ensures(number_order());
    order::lemma_constants();
    order::lemma_whole_number(50);
    if all.len() > 0 {
        let x = all[all.len() as int / 2];
        assert(all.contains(x));
        assert(some.contains(x));
    }
}

/// Counting the positive RTTs is counting the edges that have them.
proof fn lemma_positive_count(edges: Seq<MeshEdgeView>, p: spec_fn(Binary64) -> bool, q: spec_fn(MeshEdgeView) -> bool)
    requires
        forall|e: MeshEdgeView| #[trigger] q(e) <==> e.rtt_ms.positive() && p(e.rtt_ms),
    ensures
        positive_rtts(edges).filter(p).len() == edges.filter(q).len(),
    decreases edges.len(),
{
    if edges.len() == 0 {
        counting::lemma_count_bounded(positive_rtts(edges), p);
        counting::lemma_count_bounded(edges, q);
    } else {
        let rest = positive_rtts(edges.drop_last());
        lemma_positive_count(edges.drop_last(), p, q);
        counting::lemma_count_last(edges, q);
        counting::lemma_count_push(rest, edges.last().rtt_ms, p);
    }
}

/// Every positive RTT is that of an edge.
proof fn lemma_positive_edge(edges: Seq<MeshEdgeView>, x: Binary64) -> (k: int)
    requires
        positive_rtts(edges).contains(x),
    ensures
        0 <= k < edges.len(),
        edges[k].rtt_ms == x,
    decreases edges.len(),
{
    let rest = positive_rtts(edges.drop_last());
    if edges.last().rtt_ms == x {
        edges.len() - 1
    } else {
        let all = positive_rtts(edges);
        let j = choose|j: int| 0 <= j < all.len() && all[j] == x;
        assert(rest[j] == x);
        lemma_positive_edge(edges.drop_last(), x)
    }
}

/// The estimate is a median of the positive finite RTTs of the edges: it is one of them, more than
/// half of them are at most the estimate, and at least half of them are at least the estimate. Where
/// there are none it is 50 ms.
pub proof fn lemma_estimate_is_a_median(edges: Seq<MeshEdgeView>)
    ensures
        ({
            let est = estimate(edges);
            let measured = edges.filter(|e: MeshEdgeView| e.rtt_ms.finite() && e.rtt_ms.value() > 0);
            let low = edges.filter(
                |e: MeshEdgeView| e.rtt_ms.finite() && e.rtt_ms.value() > 0 && e.rtt_ms.value() <= est.value(),
            );
            let high = edges.filter(
                |e: MeshEdgeView| e.rtt_ms.finite() && e.rtt_ms.value() > 0 && e.rtt_ms.value() >= est.value(),
            );
            &&& est.finite()
            &&& est.value() > 0
            &&& measured.len() == 0 ==> est.value() == 50 * binary64::one_unit()
            &&& measured.len() > 0 ==> {
                &&& exists|k: int| 0 <= k < edges.len() && (#[trigger] edges[k]).rtt_ms == est
                &&& 2 * low.len() > measured.len()
                &&& 2 * high.len() >= measured.len()
            }
        }),
{
    let est = estimate(edges);
    let some = positive_rtts(edges);
    let all = some.sort_by(number_order());
    let n = all.len() as int;
    let any = |x: Binary64| true;
    let below = |x: Binary64| x.value() <= est.value();
    let above = |x: Binary64| x.value() >= est.value();
    let measured = |e: MeshEdgeView| e.rtt_ms.finite() && e.rtt_ms.value() > 0;
    let low = |e: MeshEdgeView| e.rtt_ms.finite() && e.rtt_ms.value() > 0 && e.rtt_ms.value() <= est.value();
    let high = |e: MeshEdgeView| e.rtt_ms.finite() && e.rtt_ms.value() > 0 && e.rtt_ms.value() >= est.value();
    order::lemma_constants();
    order::lemma_whole_number(50);
    lemma_estimate_is_positive(edges);
    lemma_number_order();
    some.lemma_sort_by_ensures(number_order());
    counting::lemma_count_all(some, any);
    lemma_positive_count(edges, any, measured);
    lemma_positive_count(edges, below, low);
    lemma_positive_count(edges, above, high);
    counting::lemma_count_reordered(some, all, below);
    counting::lemma_count_reordered(some, all, above);
    some.to_multiset_ensures();
    all.to_multiset_ensures();
    assert(some.len() == n);
    if n > 0 {
        let mid = n / 2;
        assert(all.contains(est));
        assert(some.contains(est));
        let k = lemma_positive_edge(edges, est);
        assert(edges[k].rtt_ms == est);
        counting::lemma_count_split(all, mid + 1, below);
        counting::lemma_count_split(all, mid, above);
        let first = all.take(mid + 1);
        let last = all.skip(mid);
        let leq = number_order();
        assert forall|i: int| 0 <= i < all.len() implies (#[trigger] all[i]).positive() by {
            lemma_positive_rtts(edges);
            assert(all.contains(all[i]));
            assert(some.contains(all[i]));
        }
        assert forall|i: int| 0 <= i < first.len() implies below(#[trigger] first[i]) by {
            assert(first[i] == all[i]);
            if i < mid {
                assert(leq(all[i], all[mid]));
            }
        }
        assert forall|i: int| 0 <= i < last.len() implies above(#[trigger] last[i]) by {
            assert(last[i] == all[mid + i]);
            if i > 0 {
                assert(leq(all[mid], all[mid + i]));
            }
        }
        counting::lemma_count_all(first, below);
        counting::lemma_count_all(last, above);
    }
}

proof fn lemma_bridge_edges(map: FabricMapView, origin: Seq<char>, now: u64, n: nat, k: int)
    requires
        n <= map.nodes.len(),
        0 <= k < bridges(map, origin, now, n).len(),
    ensures
        ({
            let e = bridges(map, origin, now, n)[k];
            &&& e.a == origin && e.b != origin
            &&& e.rtt_ms == estimate(map.edges)
            &&& e.samples == 1
            &&& e.last_seen_secs == now
            &&& exists|i: int| 0 <= i < map.nodes.len() && (#[trigger] map.nodes[i]).node_id == e.b
            &&& !joined(map.edges, origin, e.b)
        }),
    decreases n,
{
    let rest = bridges(map, origin, now, (n - 1) as nat);
    if k < rest.len() {
        lemma_bridge_edges(map, origin, now, (n - 1) as nat, k);
        assert(bridges(map, origin, now, n)[k] == rest[k]);
    } else {
        assert(map.nodes[n - 1].node_id == bridges(map, origin, now, n)[k].b);
    }
}

/// Every edge that bridging adds goes from the origin to a row that no edge joins to it either way
/// round, counts as one sample seen now, and carries a median of the positive finite RTTs that were
/// there before.
pub proof fn lemma_bridges_carry_a_median(map: FabricMapView, now: u64, k: int)
    requires
        map.origin is Some,
        map.edges.len() <= k < bridged(map, now).edges.len(),
    ensures
        ({
            let e = bridged(map, now).edges[k];
            let origin = map.origin->0;
            let measured = map.edges.filter(|e: MeshEdgeView| e.rtt_ms.finite() && e.rtt_ms.value() > 0);
            let low = map.edges.filter(
                |x: MeshEdgeView| x.rtt_ms.finite() && x.rtt_ms.value() > 0 && x.rtt_ms.value() <= e.rtt_ms.value(),
            );
            let high = map.edges.filter(
                |x: MeshEdgeView| x.rtt_ms.finite() && x.rtt_ms.value() > 0 && x.rtt_ms.value() >= e.rtt_ms.value(),
            );
            &&& e.a == origin && e.b != origin
            &&& e.samples == 1 && e.last_seen_secs == now
            &&& exists|i: int| 0 <= i < map.nodes.len() && (#[trigger] map.nodes[i]).node_id == e.b
            &&& forall|j: int|
                0 <= j < map.edges.len() ==> {
                    let x = #[trigger] map.edges[j];
                    !(x.a == origin && x.b == e.b) && !(x.a == e.b && x.b == origin)
                }
            &&& measured.len() == 0 ==> e.rtt_ms.finite() && e.rtt_ms.value() == 50 * binary64::one_unit()
            &&& measured.len() > 0 ==> {
                &&& exists|j: int| 0 <= j < map.edges.len() && (#[trigger] map.edges[j]).rtt_ms == e.rtt_ms
                &&& 2 * low.len() > measured.len()
                &&& 2 * high.len() >= measured.len()
            }
        }),
{
    let origin = map.origin->0;
    let all = bridges(map, origin, now, map.nodes.len());
    let e = bridged(map, now).edges[k];
    assert(e == all[k - map.edges.len()]);
    lemma_bridge_edges(map, origin, now, map.nodes.len(), k - map.edges.len());
    assert forall|j: int| 0 <= j < map.edges.len() implies {
        let x = #[trigger] map.edges[j];
        !(x.a == origin && x.b == e.b) && !(x.a == e.b && x.b == origin)
    } by {
        assert(!joins(map.edges[j], origin, e.b));
    }
    lemma_estimate_is_a_median(map.edges);
}

} // verus!
