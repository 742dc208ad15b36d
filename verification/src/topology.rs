//! What a graph promises: symmetric answers, regions that partition the nodes, paths that follow
//! measured edges, and neighbours in order of distance.

use crate::api::{MeshEdgeView, NodeCapacityView};
use crate::binary64::Binary64;
use crate::dijkstra;
use crate::embedding;
use crate::fusion;
use crate::graph::{self, GraphOptions, GraphView};
use crate::order;
use crate::partition;
use crate::paths;
use crate::regions;
use crate::roster;
use crate::sorting;
use vstd::prelude::*;
use vstd::relations::*;

verus! {

// ---- measured and predicted RTTs ----

/// A node is at no distance from itself, and a measured RTT does not depend on the direction.
pub proof fn lemma_measured_is_symmetric(g: GraphView, a: Seq<char>, b: Seq<char>)
    ensures
        g.measured(a, b) == g.measured(b, a),
        g.measured(a, a) == Some(Binary64::zero()),
{
    fusion::lemma_key_symmetric(a, b);
}

pub proof fn lemma_neighbour_of(ids: Seq<Seq<char>>, edges: Seq<MeshEdgeView>, x: int, k: int) -> (e: int)
    requires
        0 <= k < paths::neighbours(ids, edges, x).len(),
    ensures
        0 <= e < edges.len(),
        ({
            let y = paths::neighbours(ids, edges, x)[k].0;
            let (a, b) = (roster::position(ids, edges[e].a), roster::position(ids, edges[e].b));
            &&& a == Some(x) && b == Some(y) || a == Some(y) && b == Some(x)
            &&& paths::neighbours(ids, edges, x)[k].1 == edges[e].rtt_ms
        }),
    decreases edges.len(),
{
    let rest = paths::neighbours(ids, edges.drop_last(), x);
    if k < rest.len() {
        lemma_neighbour_of(ids, edges.drop_last(), x, k)
    } else {
        edges.len() - 1
    }
}

pub proof fn lemma_edge_makes_neighbours(ids: Seq<Seq<char>>, edges: Seq<MeshEdgeView>, e: int, x: int, y: int) -> (k: int)
    requires
        0 <= e < edges.len(),
        ({
            let (a, b) = (roster::position(ids, edges[e].a), roster::position(ids, edges[e].b));
            a == Some(x) && b == Some(y) || a == Some(y) && b == Some(x)
        }),
    ensures
        0 <= k < paths::neighbours(ids, edges, x).len(),
        paths::neighbours(ids, edges, x)[k].0 == y,
    decreases edges.len(),
{
    if e < edges.len() - 1 {
        lemma_edge_makes_neighbours(ids, edges.drop_last(), e, x, y)
    } else {
        paths::neighbours(ids, edges, x).len() - 1
    }
}

/// Edges are undirected.
proof fn lemma_adjacent_symmetric(ids: Seq<Seq<char>>, edges: Seq<MeshEdgeView>, x: int, y: int)
    requires
        0 <= x < ids.len(),
        0 <= y < ids.len(),
        paths::adjacent(paths::adjacency(ids, edges), x, y),
    ensures
        paths::adjacent(paths::adjacency(ids, edges), y, x),
{
    let adj = paths::adjacency(ids, edges);
    let k = choose|k: int| 0 <= k < adj[x].len() && (#[trigger] adj[x][k]).0 == y;
    let e = lemma_neighbour_of(ids, edges, x, k);
    let j = lemma_edge_makes_neighbours(ids, edges, e, y, x);
    assert(adj[y][j].0 == x);
}

proof fn lemma_reaches_symmetric(ids: Seq<Seq<char>>, edges: Seq<MeshEdgeView>, x: int, y: int)
    requires
        paths::reaches(paths::adjacency(ids, edges), x, y),
    ensures
        paths::reaches(paths::adjacency(ids, edges), y, x),
{
    let adj = paths::adjacency(ids, edges);
    let path = choose|path: Seq<int>| #[trigger] paths::walk(adj, path) && path.first() == x && path.last() == y;
    let back = path.reverse();
    assert forall|i: int| 0 <= i < back.len() - 1 implies paths::adjacent(adj, #[trigger] back[i], back[i + 1]) by {
        let j = path.len() - 2 - i;
        assert(paths::adjacent(adj, path[j], path[j + 1]));
        lemma_adjacent_symmetric(ids, edges, path[j], path[j + 1]);
    }
    assert(paths::walk(adj, back));
}

proof fn lemma_squares_symmetric(a: Seq<Binary64>, b: Seq<Binary64>, n: nat)
    requires
        n <= a.len(),
        n <= b.len(),
    ensures
        embedding::squares(a, b, n) == embedding::squares(b, a, n),
    decreases n,
{
    if n > 0 {
        lemma_squares_symmetric(a, b, (n - 1) as nat);
        order::lemma_difference_squared(a[n - 1], b[n - 1]);
    }
}

/// A graph that observations and capacity rows make lists no node twice and gives every node a
/// coordinate.
pub proof fn lemma_graph_is_sound(obs: Seq<MeshEdgeView>, rows: Seq<NodeCapacityView>, options: GraphOptions)
    ensures
        roster::distinct(graph::graph_of(obs, rows, options).nodes),
        embedding::shaped(
            graph::graph_of(obs, rows, options).coords,
            graph::graph_of(obs, rows, options).nodes.len(),
            options.embedding.dims(),
        ),
{
    let g = graph::graph_of(obs, rows, options);
    fusion::lemma_well_fused(obs, obs.len());
    graph::lemma_with_rows(fusion::observed(obs, obs.len()), rows, rows.len());
    embedding::lemma_layout_shaped(g.nodes, g.edges, options.embedding);
}

/// A predicted RTT does not depend on the direction; it is the measured one where there is one, and
/// infinite where neither a measurement nor measured edges connect the nodes.
pub proof fn lemma_predicted_is_symmetric(
    obs: Seq<MeshEdgeView>,
    rows: Seq<NodeCapacityView>,
    options: GraphOptions,
    a: Seq<char>,
    b: Seq<char>,
)
    ensures
        ({
            let g = graph::graph_of(obs, rows, options);
            &&& g.predicted(a, b) == g.predicted(b, a)
            &&& g.measured(a, b) is Some ==> g.predicted(a, b) == g.measured(a, b)->0
            &&& g.measured(a, b) is None && !g.connects(a, b) ==> g.predicted(a, b) == Binary64::infinity()
        }),
{
    let g = graph::graph_of(obs, rows, options);
    lemma_graph_is_sound(obs, rows, options);
    lemma_measured_is_symmetric(g, a, b);
    roster::lemma_position(g.nodes, a);
    roster::lemma_position(g.nodes, b);
    match (roster::position(g.nodes, a), roster::position(g.nodes, b)) {
        (Some(i), Some(j)) => {
            if paths::reaches(g.adjacency(), i, j) {
                lemma_reaches_symmetric(g.nodes, g.edges, i, j);
            }
            if paths::reaches(g.adjacency(), j, i) {
                lemma_reaches_symmetric(g.nodes, g.edges, j, i);
            }
            assert(g.coords[i].len() == g.coords[j].len());
            lemma_squares_symmetric(g.coords[i], g.coords[j], g.coords[i].len());
        },
        _ => {},
    }
}

// ---- regions ----

/// A measured edge within the threshold joins the two nodes.
pub open spec fn close(edges: Seq<MeshEdgeView>, threshold: Binary64, x: Seq<char>, y: Seq<char>) -> bool {
    exists|e: int|
        0 <= e < edges.len() && (#[trigger] edges[e]).rtt_ms.at_most(threshold) && (edges[e].a == x && edges[e].b == y
            || edges[e].a == y && edges[e].b == x)
}

/// A chain of nodes, each close to the next.
pub open spec fn chain(g: GraphView, threshold: Binary64, path: Seq<Seq<char>>) -> bool {
    &&& path.len() > 0
    &&& forall|i: int| 0 <= i < path.len() ==> g.nodes.contains(#[trigger] path[i])
    &&& forall|i: int| 0 <= i < path.len() - 1 ==> close(g.edges, threshold, #[trigger] path[i], path[i + 1])
}

/// A chain of close nodes leads from one node to the other.
pub open spec fn chained(g: GraphView, threshold: Binary64, x: Seq<char>, y: Seq<char>) -> bool {
    exists|path: Seq<Seq<char>>| #[trigger] chain(g, threshold, path) && path.first() == x && path.last() == y
}

proof fn lemma_link_is_close(ids: Seq<Seq<char>>, edges: Seq<MeshEdgeView>, threshold: Binary64, k: int)
    requires
        0 <= k < regions::links(ids, edges, threshold).len(),
    ensures
        ({
            let l = regions::links(ids, edges, threshold)[k];
            &&& 0 <= l.0 < ids.len()
            &&& 0 <= l.1 < ids.len()
            &&& close(edges, threshold, ids[l.0], ids[l.1])
        }),
    decreases edges.len(),
{
    let rest = regions::links(ids, edges.drop_last(), threshold);
    if k < rest.len() {
        lemma_link_is_close(ids, edges.drop_last(), threshold, k);
        let l = rest[k];
        let e = choose|e: int|
            0 <= e < edges.len() - 1 && (#[trigger] edges.drop_last()[e]).rtt_ms.at_most(threshold) && (
            edges.drop_last()[e].a == ids[l.0] && edges.drop_last()[e].b == ids[l.1] || edges.drop_last()[e].a
                == ids[l.1] && edges.drop_last()[e].b == ids[l.0]);
        assert(edges[e].rtt_ms.at_most(threshold));
    } else {
        let e = edges.len() - 1;
        roster::lemma_position(ids, edges[e].a);
        roster::lemma_position(ids, edges[e].b);
        assert(edges[e].rtt_ms.at_most(threshold));
    }
}

proof fn lemma_close_is_linked(
    ids: Seq<Seq<char>>,
    edges: Seq<MeshEdgeView>,
    threshold: Binary64,
    e: int,
) -> (k: int)
    requires
        0 <= e < edges.len(),
        edges[e].rtt_ms.at_most(threshold),
        ids.contains(edges[e].a),
        ids.contains(edges[e].b),
    ensures
        0 <= k < regions::links(ids, edges, threshold).len(),
        regions::links(ids, edges, threshold)[k] == (
            roster::position(ids, edges[e].a)->0,
            roster::position(ids, edges[e].b)->0,
        ),
    decreases edges.len(),
{
    roster::lemma_position(ids, edges[e].a);
    roster::lemma_position(ids, edges[e].b);
    if e < edges.len() - 1 {
        lemma_close_is_linked(ids, edges.drop_last(), threshold, e)
    } else {
        regions::links(ids, edges, threshold).len() - 1
    }
}

/// Nodes have one representative exactly where a chain joins them.
proof fn lemma_roots_are_chains(g: GraphView, threshold: Binary64, i: int, j: int)
    requires
        roster::distinct(g.nodes),
        0 <= i < g.nodes.len(),
        0 <= j < g.nodes.len(),
    ensures
        ({
            let roots = regions::region_roots(g.nodes, g.edges, threshold);
            roots[i] == roots[j] <==> chained(g, threshold, g.nodes[i], g.nodes[j])
        }),
{
    let n = g.nodes.len();
    let start = regions::alone(n);
    let links = regions::links(g.nodes, g.edges, threshold);
    let roots = regions::region_roots(g.nodes, g.edges, threshold);
    regions::lemma_links_in_range(g.nodes, g.edges, threshold);
    partition::lemma_united_is_connected(start, links, i, j);
    if roots[i] == roots[j] {
        let walk = choose|path: Seq<int>|
            #[trigger] partition::walk(start, links, path) && path.first() == i && path.last() == j;
        lemma_walk_is_chained(g, threshold, walk);
    }
    if chained(g, threshold, g.nodes[i], g.nodes[j]) {
        let path = choose|path: Seq<Seq<char>>|
            #[trigger] chain(g, threshold, path) && path.first() == g.nodes[i] && path.last() == g.nodes[j];
        lemma_chain_is_connected(g, threshold, path);
        roster::lemma_position_at(g.nodes, i);
        roster::lemma_position_at(g.nodes, j);
    }
}

proof fn lemma_walk_is_chained(g: GraphView, threshold: Binary64, walk: Seq<int>)
    requires
        partition::walk(regions::alone(g.nodes.len()), regions::links(g.nodes, g.edges, threshold), walk),
    ensures
        chained(g, threshold, g.nodes[walk.first()], g.nodes[walk.last()]),
    decreases walk.len(),
{
    let start = regions::alone(g.nodes.len());
    let links = regions::links(g.nodes, g.edges, threshold);
    let x = walk.last();
    assert(g.nodes.contains(g.nodes[x]));
    if walk.len() == 1 {
        let path = seq![g.nodes[x]];
        assert(chain(g, threshold, path));
    } else {
        let rest = walk.drop_last();
        assert forall|k: int| 0 <= k < rest.len() - 1 implies partition::related(start, links, #[trigger] rest[k], rest[k + 1]) by {
            assert(partition::related(start, links, walk[k], walk[k + 1]));
        }
        lemma_walk_is_chained(g, threshold, rest);
        let y = rest.last();
        assert(y == walk[walk.len() - 2]);
        assert(partition::related(start, links, walk[walk.len() - 2], walk[walk.len() - 1]));
        if x != y {
            let k = choose|k: int| 0 <= k < links.len() && (#[trigger] links[k] == (y, x) || links[k] == (x, y));
            lemma_link_is_close(g.nodes, g.edges, threshold, k);
            assert(close(g.edges, threshold, g.nodes[y], g.nodes[x]));
            let path = choose|path: Seq<Seq<char>>|
                #[trigger] chain(g, threshold, path) && path.first() == g.nodes[walk.first()] && path.last()
                    == g.nodes[y];
            let longer = path.push(g.nodes[x]);
            assert forall|m: int| 0 <= m < longer.len() - 1 implies close(g.edges, threshold, #[trigger] longer[m], longer[m + 1]) by {
                if m < path.len() - 1 {
                    assert(close(g.edges, threshold, path[m], path[m + 1]));
                }
            }
            assert(chain(g, threshold, longer));
        }
    }
}

proof fn lemma_chain_is_connected(g: GraphView, threshold: Binary64, path: Seq<Seq<char>>)
    requires
        chain(g, threshold, path),
    ensures
        partition::connected(
            regions::alone(g.nodes.len()),
            regions::links(g.nodes, g.edges, threshold),
            roster::position(g.nodes, path.first())->0,
            roster::position(g.nodes, path.last())->0,
        ),
    decreases path.len(),
{
    let start = regions::alone(g.nodes.len());
    let links = regions::links(g.nodes, g.edges, threshold);
    let a = path.first();
    let z = path.last();
    assert(g.nodes.contains(path[path.len() - 1]));
    assert(g.nodes.contains(path[0]));
    roster::lemma_position(g.nodes, a);
    roster::lemma_position(g.nodes, z);
    let i = roster::position(g.nodes, a)->0;
    let j = roster::position(g.nodes, z)->0;
    if path.len() == 1 {
        partition::lemma_connected_step(start, links, i, i);
    } else {
        let rest = path.drop_last();
        assert forall|m: int| 0 <= m < rest.len() - 1 implies close(g.edges, threshold, #[trigger] rest[m], rest[m + 1]) by {
            assert(close(g.edges, threshold, path[m], path[m + 1]));
        }
        assert forall|m: int| 0 <= m < rest.len() implies g.nodes.contains(#[trigger] rest[m]) by {
            assert(rest[m] == path[m]);
        }
        lemma_chain_is_connected(g, threshold, rest);
        let y = rest.last();
        assert(y == path[path.len() - 2]);
        assert(close(g.edges, threshold, path[path.len() - 2], path[path.len() - 1]));
        let e = choose|e: int|
            0 <= e < g.edges.len() && (#[trigger] g.edges[e]).rtt_ms.at_most(threshold) && (g.edges[e].a == y
                && g.edges[e].b == z || g.edges[e].a == z && g.edges[e].b == y);
        roster::lemma_position(g.nodes, y);
        let h = roster::position(g.nodes, y)->0;
        let k = lemma_close_is_linked(g.nodes, g.edges, threshold, e);
        assert(links[k] == (h, j) || links[k] == (j, h));
        partition::lemma_connected_step(start, links, h, j);
        partition::lemma_connected_transitive(start, links, i, h, j);
    }
}

proof fn lemma_members(ids: Seq<Seq<char>>, roots: Seq<int>, root: int, n: nat)
    requires
        n <= ids.len(),
    ensures
        forall|x: Seq<char>|
            #[trigger] regions::members(ids, roots, root, n).contains(x) <==> exists|i: int|
                0 <= i < n && #[trigger] ids[i] == x && roots[i] == root,
    decreases n,
{
    if n > 0 {
        lemma_members(ids, roots, root, (n - 1) as nat);
        let rest = regions::members(ids, roots, root, (n - 1) as nat);
        let all = regions::members(ids, roots, root, n);
        assert forall|x: Seq<char>| #[trigger] all.contains(x) <==> exists|i: int|
            0 <= i < n && #[trigger] ids[i] == x && roots[i] == root by {
            if all.contains(x) {
                let k = choose|k: int| 0 <= k < all.len() && all[k] == x;
                if k < rest.len() {
                    assert(rest[k] == x);
                    assert(rest.contains(x));
                } else {
                    assert(ids[n - 1] == x);
                }
            }
            if exists|i: int| 0 <= i < n && #[trigger] ids[i] == x && roots[i] == root {
                let i = choose|i: int| 0 <= i < n && #[trigger] ids[i] == x && roots[i] == root;
                if i < n - 1 {
                    assert(rest.contains(x));
                    let k = choose|k: int| 0 <= k < rest.len() && rest[k] == x;
                    assert(all[k] == x);
                } else {
                    assert(all[all.len() - 1] == x);
                }
            }
        }
    }
}

/// The sorted nodes with a representative.
spec fn group(ids: Seq<Seq<char>>, roots: Seq<int>, root: int) -> Seq<Seq<char>> {
    regions::members(ids, roots, root, ids.len()).sort_by(sorting::text_order())
}

proof fn lemma_group(ids: Seq<Seq<char>>, roots: Seq<int>, i: int, root: int)
    requires
        roster::distinct(ids),
        0 <= i < ids.len(),
    ensures
        group(ids, roots, root).contains(ids[i]) <==> roots[i] == root,
{
    let all = regions::members(ids, roots, root, ids.len());
    lemma_members(ids, roots, root, ids.len());
    sorting::lemma_text_order();
    all.lemma_sort_by_ensures(sorting::text_order());
    broadcast use vstd::seq_lib::group_to_multiset_ensures;

    assert(group(ids, roots, root).to_multiset().count(ids[i]) == all.to_multiset().count(ids[i]));
    if all.contains(ids[i]) {
        let j = choose|j: int| 0 <= j < ids.len() && #[trigger] ids[j] == ids[i] && roots[j] == root;
        assert(j == i);
    }
}

proof fn lemma_groups(ids: Seq<Seq<char>>, roots: Seq<int>, n: nat)
    requires
        roster::distinct(ids),
        roots.len() == ids.len(),
        n <= ids.len(),
    ensures
        forall|k: int|
            0 <= k < regions::groups(ids, roots, n).len() ==> exists|i: int|
                0 <= i < n && #[trigger] regions::groups(ids, roots, n)[k] == group(ids, roots, #[trigger] roots[i]),
        forall|i: int|
            0 <= i < n ==> exists|k: int|
                0 <= k < regions::groups(ids, roots, n).len() && #[trigger] regions::groups(ids, roots, n)[k] == group(
                    ids,
                    roots,
                    #[trigger] roots[i],
                ),
        regions::groups(ids, roots, n).no_duplicates(),
    decreases n,
{
    if n > 0 {
        lemma_groups(ids, roots, (n - 1) as nat);
        let rest = regions::groups(ids, roots, (n - 1) as nat);
        let all = regions::groups(ids, roots, n);
        let r = roots[n - 1];
        assert forall|k: int| 0 <= k < all.len() implies exists|i: int|
            0 <= i < n && #[trigger] all[k] == group(ids, roots, #[trigger] roots[i]) by {
            if k < rest.len() {
                let i = choose|i: int| 0 <= i < n - 1 && rest[k] == group(ids, roots, #[trigger] roots[i]);
                assert(all[k] == group(ids, roots, roots[i]));
            } else {
                assert(all[k] == group(ids, roots, roots[n - 1]));
            }
        }
        assert forall|i: int| 0 <= i < n implies exists|k: int|
            0 <= k < all.len() && #[trigger] all[k] == group(ids, roots, #[trigger] roots[i]) by {
            if i < n - 1 {
                let k = choose|k: int| 0 <= k < rest.len() && #[trigger] rest[k] == group(ids, roots, roots[i]);
                assert(all[k] == rest[k]);
            } else if regions::seen(roots, r, n - 1) {
                let j = choose|j: int| 0 <= j < n - 1 && #[trigger] roots[j] == r;
                let k = choose|k: int| 0 <= k < rest.len() && #[trigger] rest[k] == group(ids, roots, roots[j]);
                assert(all[k] == rest[k]);
            } else {
                assert(all[rest.len() as int] == group(ids, roots, r));
            }
        }
        if !regions::seen(roots, r, n - 1) {
            assert forall|k: int| 0 <= k < rest.len() implies rest[k] != group(ids, roots, r) by {
                let i = choose|i: int| 0 <= i < n - 1 && rest[k] == group(ids, roots, #[trigger] roots[i]);
                lemma_group(ids, roots, i, roots[i]);
                lemma_group(ids, roots, i, r);
            }
        }
    }
}

/// Every region is the group of some node's representative, every node's group is a region, and no
/// region occurs twice.
proof fn lemma_regions(g: GraphView, threshold: Binary64)
    requires
        roster::distinct(g.nodes),
        g.regions == regions::regions(g.nodes, g.edges, threshold),
    ensures
        ({
            let roots = regions::region_roots(g.nodes, g.edges, threshold);
            &&& roots.len() == g.nodes.len()
            &&& forall|k: int|
                0 <= k < g.regions.len() ==> exists|i: int|
                    0 <= i < g.nodes.len() && #[trigger] g.regions[k] == group(g.nodes, roots, #[trigger] roots[i])
            &&& forall|i: int|
                0 <= i < g.nodes.len() ==> exists|k: int|
                    0 <= k < g.regions.len() && #[trigger] g.regions[k] == group(g.nodes, roots, #[trigger] roots[i])
            &&& g.regions.no_duplicates()
            &&& sorted_by(g.regions, sorting::list_order())
        }),
{
    let n = g.nodes.len();
    let roots = regions::region_roots(g.nodes, g.edges, threshold);
    let groups = regions::groups(g.nodes, roots, n);
    regions::lemma_links_in_range(g.nodes, g.edges, threshold);
    partition::lemma_united_in_range(regions::alone(n), regions::links(g.nodes, g.edges, threshold));
    lemma_groups(g.nodes, roots, n);
    sorting::lemma_list_order();
    groups.lemma_sort_by_ensures(sorting::list_order());
    groups.lemma_multiset_has_no_duplicates();
    g.regions.lemma_multiset_has_no_duplicates_conv();
    broadcast use vstd::seq_lib::group_to_multiset_ensures;

    assert forall|k: int| 0 <= k < g.regions.len() implies exists|i: int|
        0 <= i < n && #[trigger] g.regions[k] == group(g.nodes, roots, #[trigger] roots[i]) by {
        let x = g.regions[k];
        assert(g.regions.contains(x));
        assert(groups.to_multiset().count(x) == g.regions.to_multiset().count(x));
        assert(groups.contains(x));
        let q = choose|q: int| 0 <= q < groups.len() && groups[q] == x;
        let i = choose|i: int| 0 <= i < n && groups[q] == group(g.nodes, roots, #[trigger] roots[i]);
        assert(g.regions[k] == group(g.nodes, roots, roots[i]));
    }
    assert forall|i: int| 0 <= i < n implies exists|k: int|
        0 <= k < g.regions.len() && #[trigger] g.regions[k] == group(g.nodes, roots, #[trigger] roots[i]) by {
        let q = choose|q: int| 0 <= q < groups.len() && #[trigger] groups[q] == group(g.nodes, roots, roots[i]);
        let x = groups[q];
        assert(groups.contains(x));
        assert(groups.to_multiset().count(x) == g.regions.to_multiset().count(x));
        assert(g.regions.contains(x));
        let k = choose|k: int| 0 <= k < g.regions.len() && g.regions[k] == x;
        assert(g.regions[k] == group(g.nodes, roots, roots[i]));
    }
}

proof fn lemma_region_at(all: Seq<Seq<Seq<char>>>, id: Seq<char>, from: int)
    requires
        0 <= from <= all.len(),
    ensures
        ({
            let r = regions::region_at(all, id, from);
            &&& r == -1 || from <= r < all.len() && all[r].contains(id)
            &&& forall|k: int| from <= k < all.len() && (r == -1 || k < r) ==> !(#[trigger] all[k]).contains(id)
        }),
    decreases all.len() - from,
{
    if from < all.len() && !all[from].contains(id) {
        lemma_region_at(all, id, from + 1);
    }
}

/// Regions partition the nodes: every node is in exactly one, which its index names; an unknown node
/// is in none. Larger regions come first.
pub proof fn lemma_regions_partition_the_nodes(
    obs: Seq<MeshEdgeView>,
    rows: Seq<NodeCapacityView>,
    options: GraphOptions,
    x: Seq<char>,
)
    ensures
        ({
            let g = graph::graph_of(obs, rows, options);
            &&& g.nodes.contains(x) <==> 0 <= g.region(x) < g.regions.len()
            &&& !g.nodes.contains(x) <==> g.region(x) == -1
            &&& forall|k: int| 0 <= k < g.regions.len() ==> ((#[trigger] g.regions[k]).contains(x) <==> k == g.region(x))
            &&& forall|j: int, k: int|
                0 <= j < k < g.regions.len() ==> (#[trigger] g.regions[j]).len() >= (#[trigger] g.regions[k]).len()
        }),
{
    let g = graph::graph_of(obs, rows, options);
    let t = options.region_threshold_ms;
    let roots = regions::region_roots(g.nodes, g.edges, t);
    lemma_graph_is_sound(obs, rows, options);
    lemma_regions(g, t);
    lemma_region_at(g.regions, x, 0);
    if g.nodes.contains(x) {
        let i = choose|i: int| 0 <= i < g.nodes.len() && g.nodes[i] == x;
        let k = choose|k: int| 0 <= k < g.regions.len() && #[trigger] g.regions[k] == group(g.nodes, roots, roots[i]);
        lemma_group(g.nodes, roots, i, roots[i]);
        assert(g.regions[k].contains(x));
        assert forall|j: int| 0 <= j < g.regions.len() && (#[trigger] g.regions[j]).contains(x) implies j == k by {
            let h = choose|h: int| 0 <= h < g.nodes.len() && g.regions[j] == group(g.nodes, roots, #[trigger] roots[h]);
            lemma_group(g.nodes, roots, i, roots[h]);
            assert(g.regions[j] == g.regions[k]);
        }
    } else {
        assert forall|k: int| 0 <= k < g.regions.len() implies !(#[trigger] g.regions[k]).contains(x) by {
            let h = choose|h: int| 0 <= h < g.nodes.len() && g.regions[k] == group(g.nodes, roots, #[trigger] roots[h]);
            lemma_group_holds_nodes(g.nodes, roots, roots[h], x);
        }
    }
    assert forall|j: int, k: int| 0 <= j < k < g.regions.len() implies (#[trigger] g.regions[j]).len() >= (
    #[trigger] g.regions[k]).len() by {
        assert((sorting::list_order())(g.regions[j], g.regions[k]));
    }
}

proof fn lemma_group_holds_nodes(ids: Seq<Seq<char>>, roots: Seq<int>, root: int, x: Seq<char>)
    ensures
        group(ids, roots, root).contains(x) ==> ids.contains(x),
{
    let all = regions::members(ids, roots, root, ids.len());
    lemma_members(ids, roots, root, ids.len());
    sorting::lemma_text_order();
    all.lemma_sort_by_ensures(sorting::text_order());
}

/// A region is a latency cluster: two nodes are in one region exactly where a chain of measured edges
/// within the threshold joins them.
pub proof fn lemma_regions_are_chains(
    obs: Seq<MeshEdgeView>,
    rows: Seq<NodeCapacityView>,
    options: GraphOptions,
    x: Seq<char>,
    y: Seq<char>,
)
    requires
        graph::graph_of(obs, rows, options).nodes.contains(x),
        graph::graph_of(obs, rows, options).nodes.contains(y),
    ensures
        ({
            let g = graph::graph_of(obs, rows, options);
            g.region(x) == g.region(y) <==> chained(g, options.region_threshold_ms, x, y)
        }),
{
    let g = graph::graph_of(obs, rows, options);
    let t = options.region_threshold_ms;
    let roots = regions::region_roots(g.nodes, g.edges, t);
    lemma_graph_is_sound(obs, rows, options);
    lemma_regions(g, t);
    lemma_regions_partition_the_nodes(obs, rows, options, x);
    lemma_regions_partition_the_nodes(obs, rows, options, y);
    let i = choose|i: int| 0 <= i < g.nodes.len() && g.nodes[i] == x;
    let j = choose|j: int| 0 <= j < g.nodes.len() && g.nodes[j] == y;
    let k = g.region(x);
    let h = choose|h: int| 0 <= h < g.nodes.len() && g.regions[k] == group(g.nodes, roots, #[trigger] roots[h]);
    lemma_group(g.nodes, roots, i, roots[h]);
    lemma_group(g.nodes, roots, j, roots[h]);
    lemma_roots_are_chains(g, t, i, j);
    assert(g.regions[k].contains(x));
    assert(g.regions[k].contains(y) <==> k == g.region(y));
}

// ---- paths ----

/// The edge that a pair of neighbours shares is the measured one.
proof fn lemma_edge_is_measured(edges: Seq<MeshEdgeView>, key: Seq<char>, e: int, from: int)
    requires
        0 <= from <= e < edges.len(),
        fusion::key_of(edges[e].a, edges[e].b) == key,
    ensures
        graph::keyed_rtt(edges, key, from) is Some,
    decreases e - from,
{
    if from < e && fusion::key_of(edges[from].a, edges[from].b) != key {
        lemma_edge_is_measured(edges, key, e, from + 1);
    }
}

proof fn lemma_neighbours_are_measured(g: GraphView, x: int, y: int)
    requires
        0 <= x < g.nodes.len(),
        0 <= y < g.nodes.len(),
        paths::adjacent(g.adjacency(), x, y),
    ensures
        g.measured(g.nodes[x], g.nodes[y]) is Some,
{
    let adj = g.adjacency();
    let k = choose|k: int| 0 <= k < adj[x].len() && (#[trigger] adj[x][k]).0 == y;
    let e = lemma_neighbour_of(g.nodes, g.edges, x, k);
    roster::lemma_position(g.nodes, g.edges[e].a);
    roster::lemma_position(g.nodes, g.edges[e].b);
    fusion::lemma_key_symmetric(g.nodes[x], g.nodes[y]);
    lemma_edge_is_measured(g.edges, fusion::key_of(g.nodes[x], g.nodes[y]), e, 0);
}

/// A path leads from the one node to the other over measured edges; there is none to or from an unknown
/// node, and the path of a node to itself is the node.
pub proof fn lemma_path_follows_measured_edges(
    obs: Seq<MeshEdgeView>,
    rows: Seq<NodeCapacityView>,
    options: GraphOptions,
    a: Seq<char>,
    b: Seq<char>,
)
    ensures
        ({
            let g = graph::graph_of(obs, rows, options);
            let p = g.path(a, b);
            &&& p.len() > 0 ==> g.nodes.contains(a) && g.nodes.contains(b) && p.first() == a && p.last() == b
            &&& forall|i: int| 0 <= i < p.len() - 1 ==> g.measured(#[trigger] p[i], p[i + 1]) is Some
            &&& g.nodes.contains(a) ==> g.path(a, a) == seq![a]
        }),
{
    let g = graph::graph_of(obs, rows, options);
    let adj = g.adjacency();
    let p = g.path(a, b);
    lemma_graph_is_sound(obs, rows, options);
    paths::lemma_adjacency_closed(g.nodes, g.edges);
    roster::lemma_position(g.nodes, a);
    roster::lemma_position(g.nodes, b);
    match (roster::position(g.nodes, a), roster::position(g.nodes, b)) {
        (Some(i), Some(j)) => {
            let hops = dijkstra::lemma_shortest_is_route(adj, i, j);
            let way = dijkstra::shortest(adj, i, j);
            if way.len() > 0 {
                dijkstra::lemma_stops(adj, i, hops);
                assert forall|k: int| 0 <= k < p.len() - 1 implies g.measured(#[trigger] p[k], p[k + 1]) is Some by {
                    assert(paths::adjacent(adj, way[k], way[k + 1]));
                    lemma_neighbours_are_measured(g, way[k], way[k + 1]);
                }
            }
        },
        _ => {},
    }
    if g.nodes.contains(a) {
        let i = roster::position(g.nodes, a)->0;
        dijkstra::lemma_shortest_to_itself(adj, i);
        assert(g.path(a, a) =~= seq![a]);
    }
}

/// A path is a shortest one: where no measured RTT is negative, no way over measured edges costs less,
/// and where there is a way of finite cost there is a path.
pub proof fn lemma_path_is_least(
    obs: Seq<MeshEdgeView>,
    rows: Seq<NodeCapacityView>,
    options: GraphOptions,
    i: int,
    j: int,
    hops: Seq<int>,
) -> (best: Seq<int>)
    requires
        ({
            let g = graph::graph_of(obs, rows, options);
            &&& 0 <= i < g.nodes.len()
            &&& 0 <= j < g.nodes.len()
            &&& dijkstra::nonnegative(g.adjacency())
            &&& dijkstra::route(g.adjacency(), i, hops)
            &&& dijkstra::end_of(g.adjacency(), i, hops) == j
            &&& dijkstra::route_cost(g.adjacency(), i, hops).finite()
        }),
    ensures
        ({
            let g = graph::graph_of(obs, rows, options);
            let adj = g.adjacency();
            &&& g.path(g.nodes[i], g.nodes[j]).len() > 0
            &&& dijkstra::route(adj, i, best)
            &&& g.path(g.nodes[i], g.nodes[j]) == dijkstra::stops(adj, i, best).map_values(|k: int| g.nodes[k])
            &&& dijkstra::route_cost(adj, i, best).at_most(dijkstra::route_cost(adj, i, hops))
        }),
{
    let g = graph::graph_of(obs, rows, options);
    let adj = g.adjacency();
    lemma_graph_is_sound(obs, rows, options);
    paths::lemma_adjacency_closed(g.nodes, g.edges);
    roster::lemma_position_at(g.nodes, i);
    roster::lemma_position_at(g.nodes, j);
    dijkstra::lemma_shortest_is_least(adj, i, j, hops);
    order::lemma_constants();
    order::lemma_finite_bounds(dijkstra::route_cost(adj, i, hops));
    order::lemma_finite_bounds(Binary64::infinity());
    dijkstra::lemma_shortest_is_route(adj, i, j)
}

// ---- nearest nodes ----

proof fn lemma_others(g: GraphView, id: Seq<char>, n: nat)
    requires
        n <= g.nodes.len(),
    ensures
        g.others(id, n).len() <= n,
        forall|k: int|
            0 <= k < g.others(id, n).len() ==> {
                let x = #[trigger] g.others(id, n)[k];
                0 <= x.0 < n && x.1 == g.predicted(id, g.nodes[x.0]) && x.1.finite() && g.nodes[x.0] != id
            },
        forall|i: int|
            0 <= i < n && #[trigger] g.nodes[i] != id && g.predicted(id, g.nodes[i]).finite() ==> g.others(
                id,
                n,
            ).contains((i, g.predicted(id, g.nodes[i]))),
    decreases n,
{
    if n > 0 {
        lemma_others(g, id, (n - 1) as nat);
        let rest = g.others(id, (n - 1) as nat);
        let all = g.others(id, n);
        assert forall|k: int| 0 <= k < all.len() implies {
            let x = #[trigger] all[k];
            0 <= x.0 < n && x.1 == g.predicted(id, g.nodes[x.0]) && x.1.finite() && g.nodes[x.0] != id
        } by {
            if k < rest.len() {
                assert(all[k] == rest[k]);
            }
        }
        assert forall|i: int|
            0 <= i < n && #[trigger] g.nodes[i] != id && g.predicted(id, g.nodes[i]).finite() implies all.contains(
            (i, g.predicted(id, g.nodes[i])),
        ) by {
            let x = (i, g.predicted(id, g.nodes[i]));
            if i < n - 1 {
                assert(rest.contains(x));
                let k = choose|k: int| 0 <= k < rest.len() && rest[k] == x;
                assert(all[k] == x);
            } else {
                assert(all[all.len() - 1] == x);
            }
        }
    }
}

/// The nearest nodes are other nodes within reach, no more than asked for, in order of predicted RTT, and
/// a node within reach that is left out is no nearer than any that is listed.
pub proof fn lemma_nearest_are_nearest(g: GraphView, id: Seq<char>, k: nat)
    ensures
        ({
            let near = g.nearest(id, k);
            &&& near.len() <= k
            &&& forall|i: int|
                0 <= i < near.len() ==> g.nodes.contains(#[trigger] near[i]) && near[i] != id && g.predicted(
                    id,
                    near[i],
                ).finite()
            &&& forall|i: int, j: int|
                0 <= i < j < near.len() ==> g.predicted(id, #[trigger] near[i]).value() <= g.predicted(
                    id,
                    #[trigger] near[j],
                ).value()
            &&& forall|x: Seq<char>, i: int|
                g.nodes.contains(id) && #[trigger] g.nodes.contains(x) && x != id && g.predicted(id, x).finite()
                    && !near.contains(x) && 0 <= i < near.len() ==> g.predicted(id, #[trigger] near[i]).value()
                    <= g.predicted(id, x).value()
            &&& forall|x: Seq<char>|
                g.nodes.contains(id) && #[trigger] g.nodes.contains(x) && x != id && g.predicted(id, x).finite()
                    && !near.contains(x) ==> near.len() == k
        }),
{
    let near = g.nearest(id, k);
    if g.nodes.contains(id) {
        let n = g.nodes.len();
        let some = g.others(id, n);
        let all = some.sort_by(g.nearer());
        lemma_others(g, id, n);
        graph::lemma_nearer_total(g);
        graph::lemma_sort_keeps_len(some, g.nearer());
        some.lemma_sort_by_ensures(g.nearer());
        broadcast use vstd::seq_lib::group_to_multiset_ensures;

        assert forall|q: int| 0 <= q < all.len() implies some.contains(#[trigger] all[q]) by {
            assert(all.contains(all[q]));
            assert(some.to_multiset().count(all[q]) == all.to_multiset().count(all[q]));
        }
        assert forall|q: int| 0 <= q < all.len() implies ({
            let x = #[trigger] all[q];
            0 <= x.0 < n && x.1 == g.predicted(id, g.nodes[x.0]) && x.1.finite() && g.nodes[x.0] != id
        }) by {
            let r = choose|r: int| 0 <= r < some.len() && some[r] == all[q];
            assert(some[r] == all[q]);
        }
        assert forall|i: int, j: int| 0 <= i < j < all.len() implies (#[trigger] all[i]).1.value() <= (
        #[trigger] all[j]).1.value() by {
            assert((g.nearer())(all[i], all[j]));
        }
        assert forall|x: Seq<char>|
            #[trigger] g.nodes.contains(x) && x != id && g.predicted(id, x).finite() implies exists|q: int|
            0 <= q < all.len() && g.nodes[(#[trigger] all[q]).0] == x && all[q].1 == g.predicted(id, x) by {
            let i = choose|i: int| 0 <= i < n && g.nodes[i] == x;
            let e = (i, g.predicted(id, x));
            assert(some.contains(e));
            assert(some.to_multiset().count(e) == all.to_multiset().count(e));
            assert(all.contains(e));
            let q = choose|q: int| 0 <= q < all.len() && all[q] == e;
            assert(g.nodes[all[q].0] == x);
        }
        assert forall|i: int| 0 <= i < near.len() implies #[trigger] near[i] == g.nodes[all[i].0] by {}
        assert forall|x: Seq<char>|
            #[trigger] g.nodes.contains(x) && x != id && g.predicted(id, x).finite() && !near.contains(x) implies near.len()
            == k && forall|i: int|
            0 <= i < near.len() ==> g.predicted(id, #[trigger] near[i]).value() <= g.predicted(id, x).value() by {
            let q = choose|q: int|
                0 <= q < all.len() && g.nodes[(#[trigger] all[q]).0] == x && all[q].1 == g.predicted(id, x);
            if q < near.len() {
                assert(near[q] == x);
            }
            assert forall|i: int| 0 <= i < near.len() implies g.predicted(id, #[trigger] near[i]).value()
                <= g.predicted(id, x).value() by {
                assert(all[i].1.value() <= all[q].1.value());
            }
        }
    }
}

} // verus!
