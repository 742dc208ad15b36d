//! Latency queries over a fabric map.
//!
//! A [`Graph`] is built once from measured edges and capacity rows, and answers: measured and
//! predicted round-trip times, nearest nodes, latency regions and minimum-RTT paths.

use crate::api::{
    FabricMap, FabricMapView, FabricNodeView, MeshEdge, MeshEdgeView, NodeCapacity,
    NodeCapacityView, NodeId,
};
use crate::binary64::Binary64;
use crate::dijkstra;
use crate::embedding::{self, EmbeddingOptions};
use crate::fusion;
use crate::latency::{LatencyModel, LatencyView};
use crate::partition;
use crate::paths;
use crate::regions;
use crate::roster;
use crate::sorting;
use crate::text;
use vstd::prelude::*;
use vstd::relations::*;
use vstd::seq_lib::*;

verus! {

/// Options for building a [`Graph`].
#[derive(Debug, Clone, Copy)]
pub struct GraphOptions {
    /// Measured edges at or under this RTT join two nodes into one latency region.
    pub region_threshold_ms: Binary64,
    pub embedding: EmbeddingOptions,
}

impl GraphOptions {
    pub open spec fn standard() -> GraphOptions {
        GraphOptions {
            region_threshold_ms: Binary64::fraction(30, 1),
            embedding: EmbeddingOptions {
                dimensions: 2,
                iterations: 300,
                initial_step: Binary64::fraction(25, 100),
                min_step: Binary64::fraction(1, 100),
                seed: 1,
            },
        }
    }
}

impl Default for GraphOptions {
    fn default() -> (r: GraphOptions)
        ensures
            r == GraphOptions::standard(),
    {
        GraphOptions { region_threshold_ms: Binary64::from_u64(30), embedding: EmbeddingOptions::default() }
    }
}

/// What a [`Graph`] holds.
pub struct GraphView {
    pub nodes: Seq<Seq<char>>,
    pub edges: Seq<MeshEdgeView>,
    pub coords: Seq<Seq<Binary64>>,
    pub capacity: Seq<NodeCapacityView>,
    pub regions: Seq<Seq<Seq<char>>>,
}

/// The RTT of the first edge from `from` on that has the key.
pub open spec fn keyed_rtt(edges: Seq<MeshEdgeView>, key: Seq<char>, from: int) -> Option<Binary64>
    decreases edges.len() - from,
{
    if from < 0 || from >= edges.len() {
        None
    } else if fusion::key_of(edges[from].a, edges[from].b) == key {
        Some(edges[from].rtt_ms)
    } else {
        keyed_rtt(edges, key, from + 1)
    }
}

/// The last row among the first `n` with the id.
pub open spec fn last_row(rows: Seq<NodeCapacityView>, id: Seq<char>, n: nat) -> Option<int>
    decreases n,
{
    if n == 0 {
        None
    } else if rows[n - 1].node_id == id {
        Some(n - 1)
    } else {
        last_row(rows, id, (n - 1) as nat)
    }
}

impl GraphView {
    pub open spec fn adjacency(self) -> Seq<Seq<(int, Binary64)>> {
        paths::adjacency(self.nodes, self.edges)
    }

    pub open spec fn measured(self, a: Seq<char>, b: Seq<char>) -> Option<Binary64> {
        if a == b {
            Some(Binary64::zero())
        } else {
            keyed_rtt(self.edges, fusion::key_of(a, b), 0)
        }
    }

    /// Measured edges connect the two nodes.
    pub open spec fn connects(self, a: Seq<char>, b: Seq<char>) -> bool {
        match (roster::position(self.nodes, a), roster::position(self.nodes, b)) {
            (Some(i), Some(j)) => paths::reaches(self.adjacency(), i, j),
            _ => false,
        }
    }

    /// The distance between the coordinates of two nodes.
    pub open spec fn embedded(self, a: Seq<char>, b: Seq<char>) -> Binary64 {
        embedding::distance(
            self.coords[roster::position(self.nodes, a)->0],
            self.coords[roster::position(self.nodes, b)->0],
        )
    }

    pub open spec fn predicted(self, a: Seq<char>, b: Seq<char>) -> Binary64 {
        match self.measured(a, b) {
            Some(m) => m,
            None => if self.connects(a, b) { self.embedded(a, b) } else { Binary64::infinity() },
        }
    }

    pub open spec fn region(self, id: Seq<char>) -> int {
        regions::region_at(self.regions, id, 0)
    }

    /// What the graph answers as a latency source.
    pub open spec fn model(self) -> LatencyModel {
        LatencyModel {
            measured: |a: Seq<char>, b: Seq<char>| self.measured(a, b),
            predicted: |a: Seq<char>, b: Seq<char>| self.predicted(a, b),
            region: |id: Seq<char>| self.region(id),
        }
    }

    /// The minimum-RTT path, as ids.
    pub open spec fn path(self, a: Seq<char>, b: Seq<char>) -> Seq<Seq<char>> {
        match (roster::position(self.nodes, a), roster::position(self.nodes, b)) {
            (Some(i), Some(j)) => dijkstra::shortest(self.adjacency(), i, j).map_values(|k: int| self.nodes[k]),
            _ => Seq::empty(),
        }
    }

    /// The other nodes among the first `n` with a finite predicted RTT, with it.
    pub open spec fn others(self, id: Seq<char>, n: nat) -> Seq<(int, Binary64)>
        decreases n,
    {
        if n == 0 {
            Seq::empty()
        } else {
            let rest = self.others(id, (n - 1) as nat);
            let rtt = self.predicted(id, self.nodes[n - 1]);
            if self.nodes[n - 1] != id && rtt.finite() {
                rest.push((n - 1, rtt))
            } else {
                rest
            }
        }
    }

    /// Smaller RTTs first, then smaller ids.
    pub open spec fn nearer(self) -> spec_fn((int, Binary64), (int, Binary64)) -> bool {
        |a: (int, Binary64), b: (int, Binary64)| self.is_nearer(a, b)
    }

    pub open spec fn is_nearer(self, a: (int, Binary64), b: (int, Binary64)) -> bool {
        let x = self.nodes[a.0];
        let y = self.nodes[b.0];
        ||| a.1.value() < b.1.value()
        ||| a.1.value() == b.1.value() && text::lex_less(x, y)
        ||| a.1.value() == b.1.value() && x == y && a.0 < b.0
        ||| a.1.value() == b.1.value() && x == y && a.0 == b.0 && a.1.bits <= b.1.bits
    }

    /// The `k` nodes with the least predicted RTT.
    pub open spec fn nearest(self, id: Seq<char>, k: nat) -> Seq<Seq<char>> {
        if !self.nodes.contains(id) {
            Seq::empty()
        } else {
            let all = self.others(id, self.nodes.len()).sort_by(self.nearer());
            all.take(if k < all.len() { k as int } else { all.len() as int }).map_values(
                |x: (int, Binary64)| self.nodes[x.0],
            )
        }
    }
}

/// The ids of the first `n` rows added to a list.
pub open spec fn with_rows(ids: Seq<Seq<char>>, rows: Seq<NodeCapacityView>, n: nat) -> Seq<Seq<char>>
    decreases n,
{
    if n == 0 {
        ids
    } else {
        roster::with_id(with_rows(ids, rows, (n - 1) as nat), rows[n - 1].node_id)
    }
}

/// The graph that observations and capacity rows make: endpoints first, then nodes that only have
/// a capacity.
pub open spec fn graph_of(obs: Seq<MeshEdgeView>, rows: Seq<NodeCapacityView>, options: GraphOptions) -> GraphView {
    let nodes = with_rows(fusion::observed(obs, obs.len()), rows, rows.len());
    let edges = fusion::fused_edges(obs);
    GraphView {
        nodes,
        edges,
        coords: embedding::layout(nodes, edges, options.embedding),
        capacity: rows,
        regions: regions::regions(nodes, edges, options.region_threshold_ms),
    }
}

/// The graph of a map.
pub open spec fn graph_of_map(map: FabricMapView, options: GraphOptions) -> GraphView {
    graph_of(map.edges, map.nodes.map_values(|n: FabricNodeView| n.capacity), options)
}

/// The assembled network graph.
pub struct Graph {
    nodes: Vec<NodeId>,
    edges: Vec<MeshEdge>,
    adjacency: Vec<Vec<(usize, Binary64)>>,
    coords: Vec<Vec<Binary64>>,
    capacity: Vec<NodeCapacity>,
    region_groups: Vec<Vec<NodeId>>,
}

impl View for Graph {
    type V = GraphView;

    closed spec fn view(&self) -> GraphView {
        GraphView {
            nodes: text::texts(self.nodes@),
            edges: self.edges@.map_values(|e: MeshEdge| e@),
            coords: embedding::vectors(self.coords@),
            capacity: self.capacity@.map_values(|c: NodeCapacity| c@),
            regions: sorting::lists(self.region_groups@),
        }
    }
}

pub proof fn lemma_with_rows(ids: Seq<Seq<char>>, rows: Seq<NodeCapacityView>, n: nat)
    requires
        roster::distinct(ids),
        n <= rows.len(),
    ensures
        roster::distinct(with_rows(ids, rows, n)),
        with_rows(ids, rows, n).len() <= ids.len() + n,
        forall|x: Seq<char>| ids.contains(x) ==> #[trigger] with_rows(ids, rows, n).contains(x),
    decreases n,
{
    if n > 0 {
        lemma_with_rows(ids, rows, (n - 1) as nat);
        roster::lemma_with_id(with_rows(ids, rows, (n - 1) as nat), rows[n - 1].node_id);
    }
}

proof fn lemma_observed_bounded(obs: Seq<MeshEdgeView>, n: nat)
    requires
        n <= obs.len(),
    ensures
        fusion::observed(obs, n).len() <= 2 * n,
    decreases n,
{
    if n > 0 {
        lemma_observed_bounded(obs, (n - 1) as nat);
    }
}

proof fn lemma_groups_bounded(ids: Seq<Seq<char>>, roots: Seq<int>, n: nat)
    ensures
        regions::groups(ids, roots, n).len() <= n,
    decreases n,
{
    if n > 0 {
        lemma_groups_bounded(ids, roots, (n - 1) as nat);
    }
}

pub proof fn lemma_sort_keeps_len<A>(s: Seq<A>, leq: spec_fn(A, A) -> bool)
    requires
        total_ordering(leq),
    ensures
        s.sort_by(leq).len() == s.len(),
{
    s.lemma_sort_by_ensures(leq);
    to_multiset_len(s);
    to_multiset_len(s.sort_by(leq));
}

impl Graph {
    #[verifier::type_invariant]
    spec fn sound(self) -> bool {
        &&& roster::distinct(self@.nodes)
        &&& paths::rows_view(self.adjacency@) == self@.adjacency()
        &&& self.adjacency@.len() == self.nodes@.len()
        &&& self.coords@.len() == self.nodes@.len()
        &&& forall|i: int, j: int|
            0 <= i < self.coords@.len() && 0 <= j < self.coords@.len() ==> (#[trigger] self.coords@[i]).len() == (
            #[trigger] self.coords@[j]).len()
        &&& self.region_groups@.len() <= i64::MAX
    }

    /// Assembles a graph from directed observations and capacity rows. Observations of one pair
    /// fuse into their mean, weighted by samples. Regions are numbered in an `i64`, so there may be
    /// no more nodes than it counts.
    pub fn build(observations: &[MeshEdge], capacity: &[NodeCapacity], options: &GraphOptions) -> (r: Graph)
        requires
            fusion::countable(observations@.map_values(|e: MeshEdge| e@)),
            2 * observations@.len() + capacity@.len() <= i64::MAX,
        ensures
            r@ == graph_of(
                observations@.map_values(|e: MeshEdge| e@),
                capacity@.map_values(|c: NodeCapacity| c@),
                *options,
            ),
    {
        let ghost obs = observations@.map_values(|e: MeshEdge| e@);
        let ghost rows = capacity@.map_values(|c: NodeCapacity| c@);
        let (mut nodes, edges) = fusion::fuse(observations);
        let ghost first = text::texts(nodes@);
        let mut kept: Vec<NodeCapacity> = Vec::new();
        for i in 0..capacity.len()
            invariant
                rows == capacity@.map_values(|c: NodeCapacity| c@),
                text::texts(nodes@) == with_rows(first, rows, i as nat),
                kept.len() == i,
                forall|j: int| 0 <= j < i ==> (#[trigger] kept@[j])@ == rows[j],
        {
            proof {
                assert(rows[i as int] == capacity@[i as int]@);
            }
            roster::enroll(&mut nodes, &capacity[i].node_id);
            kept.push(capacity[i].clone());
        }
        let ghost names = text::texts(nodes@);
        let ghost links = edges@.map_values(|e: MeshEdge| e@);
        let adjacency = paths::find_adjacency(&nodes, &edges);
        let coords = embedding::lay_out(&nodes, edges.as_slice(), &options.embedding);
        let region_groups = regions::compute_regions(&nodes, &edges, options.region_threshold_ms);
        proof {
            fusion::lemma_well_fused(obs, obs.len());
            lemma_with_rows(first, rows, rows.len());
            lemma_observed_bounded(obs, obs.len());
            let roots = regions::region_roots(names, links, options.region_threshold_ms);
            lemma_groups_bounded(names, roots, names.len());
            sorting::lemma_list_order();
            lemma_sort_keeps_len(regions::groups(names, roots, names.len()), sorting::list_order());
            assert(sorting::lists(region_groups@).len() == region_groups@.len());
            assert(kept@.map_values(|c: NodeCapacity| c@) =~= rows);
            assert(paths::rows_view(adjacency@).len() == adjacency@.len());
        }
        Graph { nodes, edges, adjacency, coords, capacity: kept, region_groups }
    }

    /// All node ids: observation endpoints first, then nodes that only have a capacity row.
    pub fn nodes(&self) -> (r: &[NodeId])
        ensures
            text::texts(r@) == self@.nodes,
    {
        self.nodes.as_slice()
    }

    /// Whether the node appears anywhere.
    pub fn has(&self, node: &str) -> (r: bool)
        ensures
            r == self@.nodes.contains(node@),
    {
        proof {
            roster::lemma_position(self@.nodes, node@);
        }
        roster::find(&self.nodes, node).is_some()
    }

    /// The fused undirected edges.
    pub fn edges(&self) -> (r: &[MeshEdge])
        ensures
            r@.map_values(|e: MeshEdge| e@) == self@.edges,
    {
        self.edges.as_slice()
    }

    /// Directly measured RTT (ms) between two nodes in either order; zero from a node to itself;
    /// `None` without a sample.
    pub fn measured_rtt(&self, a: &str, b: &str) -> (r: Option<Binary64>)
        ensures
            r == self@.measured(a@, b@),
    {
        if text::same(a, b) {
            return Some(Binary64 { bits: 0 });
        }
        let key = fusion::pair_key(a, b);
        let mut i: usize = 0;
        while i < self.edges.len()
            invariant
                i <= self.edges.len(),
                a@ != b@,
                key@ == fusion::key_of(a@, b@),
                keyed_rtt(self@.edges, key@, 0) == keyed_rtt(self@.edges, key@, i as int),
            decreases self.edges.len() - i,
        {
            let e = &self.edges[i];
            proof {
                assert(self@.edges[i as int] == e@);
            }
            if text::same(fusion::pair_key(e.a.as_str(), e.b.as_str()).as_str(), key.as_str()) {
                return Some(e.rtt_ms);
            }
            i = i + 1;
        }
        None
    }

    /// Predicted RTT (ms): a direct measurement where there is one, else the distance in the
    /// embedding where measured edges connect the nodes, else infinity.
    pub fn predicted_rtt(&self, a: &str, b: &str) -> (r: Binary64)
        ensures
            r == self@.predicted(a@, b@),
    {
        match self.measured_rtt(a, b) {
            Some(m) => {
                return m;
            },
            None => {},
        }
        match (roster::find(&self.nodes, a), roster::find(&self.nodes, b)) {
            (Some(i), Some(j)) => {
                proof {
                    use_type_invariant(self);
                    paths::lemma_adjacency_closed(self@.nodes, self@.edges);
                }
                if paths::reachable(&self.adjacency, i, j) {
                    proof {
                        assert(self.coords@[i as int].len() == self.coords@[j as int].len());
                    }
                    embedding::vec_distance(&self.coords[i], &self.coords[j])
                } else {
                    Binary64 { bits: 0x7ff0_0000_0000_0000 }
                }
            },
            _ => Binary64 { bits: 0x7ff0_0000_0000_0000 },
        }
    }

    /// Latency regions: components joined by measured edges within the threshold. Largest first.
    pub fn regions(&self) -> (r: &[Vec<NodeId>])
        ensures
            sorting::lists(r@) == self@.regions,
    {
        self.region_groups.as_slice()
    }

    /// The index of a node's region in [`Graph::regions`]; `-1` for an unknown node.
    pub fn region_of(&self, node: &str) -> (r: i64)
        ensures
            r == self@.region(node@),
    {
        proof {
            use_type_invariant(self);
        }
        let mut i: usize = 0;
        while i < self.region_groups.len()
            invariant
                i <= self.region_groups.len() <= i64::MAX,
                self@.region(node@) == regions::region_at(self@.regions, node@, i as int),
            decreases self.region_groups.len() - i,
        {
            proof {
                assert(self@.regions[i as int] == text::texts(self.region_groups@[i as int]@));
                roster::lemma_position(self@.regions[i as int], node@);
            }
            if roster::find(&self.region_groups[i], node).is_some() {
                return i as i64;
            }
            i = i + 1;
        }
        -1
    }

    /// Minimum-RTT path between two nodes over measured edges, with both ends; empty if there is
    /// none or either node is unknown.
    pub fn shortest_path(&self, a: &str, b: &str) -> (r: Vec<NodeId>)
        ensures
            text::texts(r@) == self@.path(a@, b@),
    {
        let mut r: Vec<NodeId> = Vec::new();
        proof {
            assert(text::texts(r@) =~= Seq::empty());
        }
        match (roster::find(&self.nodes, a), roster::find(&self.nodes, b)) {
            (Some(i), Some(j)) => {
                proof {
                    use_type_invariant(self);
                    paths::lemma_adjacency_closed(self@.nodes, self@.edges);
                }
                let steps = dijkstra::find_shortest(&self.adjacency, i, j);
                let ghost found = partition::indices(steps@);
                for n in 0..steps.len()
                    invariant
                        found == partition::indices(steps@),
                        forall|k: int| 0 <= k < steps.len() ==> #[trigger] steps@[k] < self.nodes.len(),
                        r.len() == n,
                        forall|k: int| 0 <= k < n ==> (#[trigger] r@[k])@ == self@.nodes[found[k]],
                {
                    proof {
                        assert(found[n as int] == steps@[n as int]);
                    }
                    r.push(self.nodes[steps[n]].clone());
                }
                proof {
                    assert(text::texts(r@) =~= self@.path(a@, b@));
                }
            },
            _ => {},
        }
        r
    }

    /// The capacity row of a node: the last one given for it.
    pub fn capacity_of(&self, node: &str) -> (r: Option<&NodeCapacity>)
        ensures
            match last_row(self@.capacity, node@, self@.capacity.len()) {
                Some(i) => r is Some && r->0@ == self@.capacity[i],
                None => r is None,
            },
    {
        let mut i: usize = self.capacity.len();
        while i > 0
            invariant
                i <= self.capacity.len(),
                last_row(self@.capacity, node@, self@.capacity.len()) == last_row(self@.capacity, node@, i as nat),
            decreases i,
        {
            proof {
                assert(self@.capacity[i - 1] == self.capacity@[i - 1]@);
            }
            if text::same(self.capacity[i - 1].node_id.as_str(), node) {
                return Some(&self.capacity[i - 1]);
            }
            i = i - 1;
        }
        None
    }

    /// The embedding coordinate of a node.
    pub fn coordinate(&self, node: &str) -> (r: Option<&Vec<Binary64>>)
        ensures
            match roster::position(self@.nodes, node@) {
                Some(i) => r is Some && r->0@ == self@.coords[i],
                None => r is None,
            },
    {
        proof {
            use_type_invariant(self);
        }
        match roster::find(&self.nodes, node) {
            Some(i) => {
                proof {
                    assert(self@.coords[i as int] == self.coords@[i as int]@);
                }
                Some(&self.coords[i])
            },
            None => None,
        }
    }

    /// Whether `a` is nearer than `b`, or as near with an id that is no greater.
    fn nearer_first(&self, a: (usize, Binary64), b: (usize, Binary64)) -> (r: bool)
        requires
            a.0 < self@.nodes.len(),
            b.0 < self@.nodes.len(),
            !a.1.nan(),
            !b.1.nan(),
        ensures
            r == self@.is_nearer((a.0 as int, a.1), (b.0 as int, b.1)),
    {
        proof {
            assert(self@.nodes[a.0 as int] == self.nodes@[a.0 as int]@);
            assert(self@.nodes[b.0 as int] == self.nodes@[b.0 as int]@);
        }
        if a.1.lt(b.1) {
            true
        } else if b.1.lt(a.1) {
            false
        } else if text::before(self.nodes[a.0].as_str(), self.nodes[b.0].as_str()) {
            true
        } else if self.nodes[a.0] == self.nodes[b.0] {
            proof {
                text::lemma_lex_irreflexive(self@.nodes[a.0 as int]);
            }
            a.0 < b.0 || (a.0 == b.0 && a.1.bits <= b.1.bits)
        } else {
            false
        }
    }

    /// The `k` nodes closest to `node` by predicted RTT, ascending, without `node` itself and
    /// without nodes at no finite distance. Ties go to the smaller id.
    pub fn k_nearest(&self, node: &str, k: usize) -> (r: Vec<NodeId>)
        ensures
            text::texts(r@) == self@.nearest(node@, k as nat),
    {
        let mut r: Vec<NodeId> = Vec::new();
        proof {
            assert(text::texts(r@) =~= Seq::empty());
        }
        if !self.has(node) {
            return r;
        }
        let ghost leq = self@.nearer();
        proof {
            lemma_nearer_total(self@);
        }
        let mut near: Vec<(usize, Binary64)> = Vec::new();
        proof {
            assert(paths::row_view(near@) =~= Seq::empty());
        }
        for n in 0..self.nodes.len()
            invariant
                leq == self@.nearer(),
                total_ordering(leq),
                sorted_by(paths::row_view(near@), leq),
                paths::row_view(near@).to_multiset() == self@.others(node@, n as nat).to_multiset(),
                forall|i: int| 0 <= i < near.len() ==> (#[trigger] near@[i]).0 < self.nodes.len() && !near@[i].1.nan(),
        {
            proof {
                assert(self@.nodes[n as int] == self.nodes@[n as int]@);
            }
            if !text::same(self.nodes[n].as_str(), node) {
                let rtt = self.predicted_rtt(node, self.nodes[n].as_str());
                if rtt.is_finite() {
                    let x = (n, rtt);
                    let ghost item = (n as int, rtt);
                    let ghost before = paths::row_view(near@);
                    let mut i: usize = 0;
                    while i < near.len() && self.nearer_first(near[i], x)
                        invariant
                            i <= near.len(),
                            n < self.nodes.len(),
                            !rtt.nan(),
                            x == (n, rtt),
                            item == (n as int, rtt),
                            leq == self@.nearer(),
                            before == paths::row_view(near@),
                            forall|j: int|
                                0 <= j < near.len() ==> (#[trigger] near@[j]).0 < self.nodes.len() && !near@[j].1.nan(),
                            forall|j: int| 0 <= j < i ==> leq(#[trigger] before[j], item),
                        decreases near.len() - i,
                    {
                        proof {
                            assert(before[i as int] == (near@[i as int].0 as int, near@[i as int].1));
                        }
                        i = i + 1;
                    }
                    proof {
                        if i < near.len() {
                            assert(before[i as int] == (near@[i as int].0 as int, near@[i as int].1));
                            assert(!leq(before[i as int], item));
                            assert(leq(item, before[i as int]));
                        }
                    }
                    near.insert(i, x);
                    proof {
                        assert(paths::row_view(near@) =~= before.insert(i as int, item));
                        sorting::lemma_insert_sorted(before, item, i as int, leq);
                        to_multiset_insert(before, i as int, item);
                        to_multiset_build(self@.others(node@, n as nat), item);
                    }
                }
            }
        }
        let ghost all = self@.others(node@, self@.nodes.len());
        proof {
            all.lemma_sort_by_ensures(leq);
            lemma_sorted_unique(paths::row_view(near@), all.sort_by(leq), leq);
        }
        let count: usize = if k < near.len() { k } else { near.len() };
        let ghost sorted = all.sort_by(leq);
        for n in 0..count
            invariant
                count <= near.len(),
                sorted == paths::row_view(near@),
                forall|i: int| 0 <= i < near.len() ==> (#[trigger] near@[i]).0 < self.nodes.len(),
                r.len() == n,
                forall|j: int| 0 <= j < n ==> (#[trigger] r@[j])@ == self@.nodes[sorted[j].0],
        {
            proof {
                assert(sorted[n as int].0 == near@[n as int].0);
            }
            r.push(self.nodes[near[n].0].clone());
        }
        proof {
            assert(text::texts(r@) =~= self@.nearest(node@, k as nat));
        }
        r
    }
}

/// The order by distance is total.
pub proof fn lemma_nearer_total(g: GraphView)
    ensures
        total_ordering(g.nearer()),
{
    let leq = g.nearer();
    assert forall|a: (int, Binary64), b: (int, Binary64)| #[trigger] leq(a, b) && #[trigger] leq(b, a) implies a
        == b by {
        text::lemma_lex_asymmetric(g.nodes[a.0], g.nodes[b.0]);
        text::lemma_lex_irreflexive(g.nodes[a.0]);
        assert(a.1.bits == b.1.bits);
    }
    assert forall|a: (int, Binary64), b: (int, Binary64)| #[trigger] leq(a, b) || #[trigger] leq(b, a) by {
        text::lemma_lex_total(g.nodes[a.0], g.nodes[b.0]);
    }
    assert forall|a: (int, Binary64), b: (int, Binary64), c: (int, Binary64)| #[trigger] leq(a, b) && #[trigger] leq(
        b,
        c,
    ) implies leq(a, c) by {
        let x = g.nodes[a.0];
        let y = g.nodes[b.0];
        let z = g.nodes[c.0];
        if text::lex_less(x, y) && text::lex_less(y, z) {
            text::lemma_lex_transitive(x, y, z);
        }
    }
}

impl LatencyView for Graph {
    open spec fn model(&self) -> LatencyModel {
        self@.model()
    }

    fn measured_rtt(&self, a: &str, b: &str) -> (r: Option<Binary64>) {
        self.measured_rtt(a, b)
    }

    fn predicted_rtt(&self, a: &str, b: &str) -> (r: Binary64) {
        self.predicted_rtt(a, b)
    }

    fn region_of(&self, node: &str) -> (r: i64) {
        self.region_of(node)
    }
}

/// Assembles the graph of a map: its edges, and the capacity of each row.
pub fn build_graph(map: &FabricMap, options: &GraphOptions) -> (r: Graph)
    requires
        fusion::countable(map@.edges),
        2 * map@.edges.len() + map@.nodes.len() <= i64::MAX,
    ensures
        r@ == graph_of_map(map@, *options),
{
    let ghost rows = map@.nodes.map_values(|n: FabricNodeView| n.capacity);
    let mut capacity: Vec<NodeCapacity> = Vec::new();
    for i in 0..map.nodes.len()
        invariant
            rows == map@.nodes.map_values(|n: FabricNodeView| n.capacity),
            capacity.len() == i,
            forall|j: int| 0 <= j < i ==> (#[trigger] capacity@[j])@ == rows[j],
    {
        proof {
            assert(map@.nodes[i as int] == map.nodes@[i as int]@);
        }
        capacity.push(map.nodes[i].capacity.clone());
    }
    proof {
        assert(capacity@.map_values(|c: NodeCapacity| c@) =~= rows);
    }
    Graph::build(map.edges.as_slice(), capacity.as_slice(), options)
}

} // verus!
