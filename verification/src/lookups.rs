//! What a network graph answers, in terms of what it was made from.

use crate::api::{MeshEdgeView, NodeCapacityView};
use crate::binary64;
use crate::embedding;
use crate::fusion;
use crate::graph::{self, GraphOptions, GraphView};
use crate::order;
use crate::reach;
use crate::roster;
use vstd::prelude::*;

verus! {

// ---- measured RTTs ----

/// An edge joins two nodes, either way round.
pub open spec fn joins(e: MeshEdgeView, a: Seq<char>, b: Seq<char>) -> bool {
    (e.a == a && e.b == b) || (e.a == b && e.b == a)
}

proof fn lemma_keyed(edges: Seq<MeshEdgeView>, a: Seq<char>, b: Seq<char>, from: int)
    requires
        0 <= from,
        reach::told_apart(edges, a, b),
    ensures
        match graph::keyed_rtt(edges, fusion::key_of(a, b), from) {
            Some(x) => exists|e: int|
                from <= e < edges.len() && joins(#[trigger] edges[e], a, b) && x == edges[e].rtt_ms && forall|k: int|
                    from <= k < e ==> !joins(#[trigger] edges[k], a, b),
            None => forall|e: int| from <= e < edges.len() ==> !joins(#[trigger] edges[e], a, b),
        },
    decreases edges.len() - from,
{
    if from < edges.len() {
        let e = edges[from];
        fusion::lemma_key_symmetric(a, b);
        assert(fusion::key_of(e.a, e.b) == fusion::key_of(a, b) <==> joins(e, a, b));
        if !joins(e, a, b) {
            lemma_keyed(edges, a, b, from + 1);
            match graph::keyed_rtt(edges, fusion::key_of(a, b), from + 1) {
                Some(x) => {
                    let i = choose|i: int|
                        from + 1 <= i < edges.len() && joins(#[trigger] edges[i], a, b) && x == edges[i].rtt_ms && forall|
                            k: int,
                        |
                            from + 1 <= k < i ==> !joins(#[trigger] edges[k], a, b);
                    assert(joins(edges[i], a, b));
                },
                None => {},
            }
        } else {
            assert(joins(edges[from], a, b));
        }
    }
}

/// The measured RTT of two nodes is that of the edge that joins them, either way round, and there is none
/// without such an edge; from a node to itself it is zero. The predicted RTT is the measured one where
/// there is one; else that between their coordinates where measured edges connect them, and else infinite.
pub proof fn lemma_measured_before_predicted(g: GraphView, a: Seq<char>, b: Seq<char>)
    requires
        reach::told_apart(g.edges, a, b),
    ensures
        a == b ==> (g.measured(a, b) matches Some(x) && x.value() == 0 && x.finite()),
        a != b ==> match g.measured(a, b) {
            Some(x) => exists|e: int|
                0 <= e < g.edges.len() && joins(#[trigger] g.edges[e], a, b) && x == g.edges[e].rtt_ms,
            None => forall|e: int| 0 <= e < g.edges.len() ==> !joins(#[trigger] g.edges[e], a, b),
        },
        g.measured(a, b) matches Some(x) ==> g.predicted(a, b) == x,
        g.measured(a, b) is None && !g.connects(a, b) ==> g.predicted(a, b).infinite() && !g.predicted(
            a,
            b,
        ).negative(),
        g.measured(a, b) is None && g.connects(a, b) ==> g.predicted(a, b) == embedding::distance(
            g.coords[roster::position(g.nodes, a)->0],
            g.coords[roster::position(g.nodes, b)->0],
        ),
{
    order::lemma_constants();
    lemma_keyed(g.edges, a, b, 0);
}

// ---- nodes ----

proof fn lemma_added(ids: Seq<Seq<char>>, id: Seq<char>, x: Seq<char>)
    ensures
        roster::with_id(ids, id).contains(x) <==> ids.contains(x) || (x == id && x.len() > 0),
{
    if id.len() > 0 && !ids.contains(id) {
        let more = ids.push(id);
        if ids.contains(x) {
            let i = choose|i: int| 0 <= i < ids.len() && ids[i] == x;
            assert(more[i] == x);
        }
        assert(more[ids.len() as int] == id);
        if more.contains(x) && x != id {
            let i = choose|i: int| 0 <= i < more.len() && more[i] == x;
            assert(ids[i] == x);
        }
    }
}

proof fn lemma_observed(obs: Seq<MeshEdgeView>, n: nat, x: Seq<char>)
    requires
        n <= obs.len(),
    ensures
        fusion::observed(obs, n).contains(x) <==> exists|j: int| 0 <= j < n && names(#[trigger] obs[j], x),
    decreases n,
{
    if n > 0 {
        let before = fusion::observed(obs, (n - 1) as nat);
        let o = obs[n - 1];
        lemma_observed(obs, (n - 1) as nat, x);
        lemma_added(before, o.a, x);
        lemma_added(roster::with_id(before, o.a), o.b, x);
        if before.contains(x) {
            let j = choose|j: int| 0 <= j < n - 1 && names(#[trigger] obs[j], x);
            assert(names(obs[j], x));
        }
        if names(o, x) {
            assert(names(obs[n - 1], x));
        }
        if exists|j: int| 0 <= j < n && names(#[trigger] obs[j], x) {
            let j = choose|j: int| 0 <= j < n && names(#[trigger] obs[j], x);
            if j < n - 1 {
                assert(names(obs[j], x));
            }
        }
    }
}

/// An observation between two different named nodes, one of which is `x`.
pub open spec fn names(o: MeshEdgeView, x: Seq<char>) -> bool {
    o.a.len() > 0 && o.b.len() > 0 && o.a != o.b && (o.a == x || o.b == x)
}

proof fn lemma_rows_are_listed(ids: Seq<Seq<char>>, rows: Seq<NodeCapacityView>, n: nat, x: Seq<char>)
    requires
        n <= rows.len(),
    ensures
        graph::with_rows(ids, rows, n).contains(x) <==> ids.contains(x) || (x.len() > 0 && exists|j: int|
            0 <= j < n && (#[trigger] rows[j]).node_id == x),
    decreases n,
{
    if n > 0 {
        let before = graph::with_rows(ids, rows, (n - 1) as nat);
        lemma_rows_are_listed(ids, rows, (n - 1) as nat, x);
        lemma_added(before, rows[n - 1].node_id, x);
    }
}

/// The nodes of a graph are those that an observation between two different nodes names, and those named
/// by a row, and no others; each is listed once.
pub proof fn lemma_nodes_are_those_named(
    obs: Seq<MeshEdgeView>,
    rows: Seq<NodeCapacityView>,
    options: GraphOptions,
    x: Seq<char>,
)
    ensures
        ({
            let nodes = graph::graph_of(obs, rows, options).nodes;
            &&& nodes.contains(x) <==> (exists|j: int| 0 <= j < obs.len() && names(#[trigger] obs[j], x)) || (x.len() > 0
                && exists|j: int| 0 <= j < rows.len() && (#[trigger] rows[j]).node_id == x)
            &&& forall|i: int, j: int| 0 <= i < j < nodes.len() ==> #[trigger] nodes[i] != #[trigger] nodes[j]
        }),
{
    lemma_observed(obs, obs.len(), x);
    lemma_rows_are_listed(fusion::observed(obs, obs.len()), rows, rows.len(), x);
    crate::topology::lemma_graph_is_sound(obs, rows, options);
}

/// A map's graph joins nodes into a region at 30 ms and lays them out in two dimensions.
pub proof fn lemma_standard_options()
    ensures
        GraphOptions::standard().region_threshold_ms.value() == 30 * binary64::one_unit(),
        GraphOptions::standard().region_threshold_ms.finite(),
        GraphOptions::standard().embedding.dims() == 2,
        GraphOptions::standard().embedding.sweeps() == 300,
{
    order::lemma_whole_number(30);
}

} // verus!
