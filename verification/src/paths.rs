//! Paths over measured edges: reachability and minimum-RTT paths, on numbered nodes.

use crate::api::{MeshEdge, MeshEdgeView};
use crate::binary64::Binary64;
use crate::partition;
use crate::roster;
use crate::text;
use vstd::prelude::*;

verus! {

/// The neighbours of node `i`, in order of edges, with the RTT of the edge.
pub open spec fn neighbours(ids: Seq<Seq<char>>, edges: Seq<MeshEdgeView>, i: int) -> Seq<(int, Binary64)>
    decreases edges.len(),
{
    if edges.len() == 0 {
        Seq::empty()
    } else {
        let rest = neighbours(ids, edges.drop_last(), i);
        let e = edges.last();
        match (roster::position(ids, e.a), roster::position(ids, e.b)) {
            (Some(a), Some(b)) => if a == i {
                rest.push((b, e.rtt_ms))
            } else if b == i {
                rest.push((a, e.rtt_ms))
            } else {
                rest
            },
            _ => rest,
        }
    }
}

/// The neighbours of every node.
pub open spec fn adjacency(ids: Seq<Seq<char>>, edges: Seq<MeshEdgeView>) -> Seq<Seq<(int, Binary64)>> {
    Seq::new(ids.len(), |i: int| neighbours(ids, edges, i))
}

/// Neighbours are nodes.
pub open spec fn closed(adj: Seq<Seq<(int, Binary64)>>) -> bool {
    forall|i: int, k: int|
        0 <= i < adj.len() && 0 <= k < adj[i].len() ==> 0 <= (#[trigger] adj[i][k]).0 < adj.len()
}

pub open spec fn adjacent(adj: Seq<Seq<(int, Binary64)>>, x: int, y: int) -> bool {
    exists|k: int| 0 <= k < adj[x].len() && (#[trigger] adj[x][k]).0 == y
}

/// Consecutive nodes are neighbours.
pub open spec fn walk(adj: Seq<Seq<(int, Binary64)>>, path: Seq<int>) -> bool {
    &&& path.len() > 0
    &&& forall|i: int| 0 <= i < path.len() ==> 0 <= #[trigger] path[i] < adj.len()
    &&& forall|i: int| 0 <= i < path.len() - 1 ==> adjacent(adj, #[trigger] path[i], path[i + 1])
}

/// Edges lead from `x` to `y`.
pub open spec fn reaches(adj: Seq<Seq<(int, Binary64)>>, x: int, y: int) -> bool {
    exists|path: Seq<int>| #[trigger] walk(adj, path) && path.first() == x && path.last() == y
}

pub proof fn lemma_reaches_self(adj: Seq<Seq<(int, Binary64)>>, x: int)
    requires
        0 <= x < adj.len(),
    ensures
        reaches(adj, x, x),
{
    assert(walk(adj, seq![x]));
}

pub proof fn lemma_walk_extends(adj: Seq<Seq<(int, Binary64)>>, path: Seq<int>, y: int)
    requires
        walk(adj, path),
        0 <= y < adj.len(),
        adjacent(adj, path.last(), y),
    ensures
        walk(adj, path.push(y)),
{
    let p = path.push(y);
    assert forall|i: int| 0 <= i < p.len() - 1 implies adjacent(adj, #[trigger] p[i], p[i + 1]) by {
        if i < path.len() - 1 {
            assert(adjacent(adj, path[i], path[i + 1]));
        }
    }
}

pub proof fn lemma_reaches_step(adj: Seq<Seq<(int, Binary64)>>, a: int, x: int, y: int)
    requires
        reaches(adj, a, x),
        0 <= y < adj.len(),
        adjacent(adj, x, y),
    ensures
        reaches(adj, a, y),
{
    let path = choose|path: Seq<int>| #[trigger] walk(adj, path) && path.first() == a && path.last() == x;
    lemma_walk_extends(adj, path, y);
}

/// A set that holds `a` and the neighbours of its members holds every node on a walk from `a`.
proof fn lemma_walk_stays(adj: Seq<Seq<(int, Binary64)>>, inside: Set<int>, path: Seq<int>)
    requires
        walk(adj, path),
        inside.contains(path.first()),
        forall|x: int, y: int|
            0 <= x < adj.len() && inside.contains(x) && #[trigger] adjacent(adj, x, y) ==> inside.contains(y),
    ensures
        inside.contains(path.last()),
    decreases path.len(),
{
    if path.len() > 1 {
        let rest = path.drop_last();
        assert forall|i: int| 0 <= i < rest.len() - 1 implies adjacent(adj, #[trigger] rest[i], rest[i + 1]) by {
            assert(adjacent(adj, path[i], path[i + 1]));
        }
        lemma_walk_stays(adj, inside, rest);
        assert(adjacent(adj, path[path.len() - 2], path[path.len() - 1]));
    }
}

pub open spec fn row_view(row: Seq<(usize, Binary64)>) -> Seq<(int, Binary64)> {
    row.map_values(|x: (usize, Binary64)| (x.0 as int, x.1))
}

pub open spec fn rows_view(rows: Seq<Vec<(usize, Binary64)>>) -> Seq<Seq<(int, Binary64)>> {
    rows.map_values(|row: Vec<(usize, Binary64)>| row_view(row@))
}

pub proof fn lemma_neighbours(ids: Seq<Seq<char>>, edges: Seq<MeshEdgeView>, i: int)
    ensures
        forall|k: int|
            0 <= k < neighbours(ids, edges, i).len() ==> 0 <= (#[trigger] neighbours(ids, edges, i)[k]).0 < ids.len(),
    decreases edges.len(),
{
    if edges.len() > 0 {
        lemma_neighbours(ids, edges.drop_last(), i);
        roster::lemma_position(ids, edges.last().a);
        roster::lemma_position(ids, edges.last().b);
        let rest = neighbours(ids, edges.drop_last(), i);
        let all = neighbours(ids, edges, i);
        assert forall|k: int| 0 <= k < all.len() implies 0 <= (#[trigger] all[k]).0 < ids.len() by {
            if k < rest.len() {
                assert(all[k] == rest[k]);
            }
        }
    }
}

pub proof fn lemma_adjacency_closed(ids: Seq<Seq<char>>, edges: Seq<MeshEdgeView>)
    ensures
        closed(adjacency(ids, edges)),
        adjacency(ids, edges).len() == ids.len(),
{
    let adj = adjacency(ids, edges);
    assert forall|i: int, k: int| 0 <= i < adj.len() && 0 <= k < adj[i].len() implies 0 <= (#[trigger] adj[i][k]).0
        < adj.len() by {
        lemma_neighbours(ids, edges, i);
        assert(adj[i][k] == neighbours(ids, edges, i)[k]);
    }
}

/// The positions of an edge's ends, where both are listed.
spec fn ends_are(ends: Option<(usize, usize)>, ids: Seq<Seq<char>>, e: MeshEdgeView) -> bool {
    match (roster::position(ids, e.a), roster::position(ids, e.b)) {
        (Some(a), Some(b)) => match ends {
            Some((x, y)) => x == a && y == b,
            None => false,
        },
        _ => ends is None,
    }
}

/// The neighbours of every node.
pub(crate) fn find_adjacency(ids: &Vec<String>, edges: &Vec<MeshEdge>) -> (r: Vec<Vec<(usize, Binary64)>>)
    ensures
        rows_view(r@) == adjacency(text::texts(ids@), edges@.map_values(|e: MeshEdge| e@)),
{
    let ghost names = text::texts(ids@);
    let ghost all = edges@.map_values(|e: MeshEdge| e@);
    let mut ends: Vec<Option<(usize, usize)>> = Vec::new();
    for n in 0..edges.len()
        invariant
            names == text::texts(ids@),
            all == edges@.map_values(|e: MeshEdge| e@),
            ends.len() == n,
            forall|j: int| 0 <= j < n ==> ends_are(#[trigger] ends@[j], names, all[j]),
    {
        let e = &edges[n];
        proof {
            assert(all[n as int] == e@);
        }
        ends.push(
            match (roster::find(ids, e.a.as_str()), roster::find(ids, e.b.as_str())) {
                (Some(a), Some(b)) => Some((a, b)),
                _ => None,
            },
        );
    }
    let mut r: Vec<Vec<(usize, Binary64)>> = Vec::new();
    for i in 0..ids.len()
        invariant
            names == text::texts(ids@),
            all == edges@.map_values(|e: MeshEdge| e@),
            ends.len() == edges.len(),
            forall|j: int| 0 <= j < ends.len() ==> ends_are(#[trigger] ends@[j], names, all[j]),
            r.len() == i,
            forall|j: int| 0 <= j < i ==> row_view((#[trigger] r@[j])@) == neighbours(names, all, j),
    {
        let mut row: Vec<(usize, Binary64)> = Vec::new();
        proof {
            assert(row_view(row@) =~= neighbours(names, all.take(0), i as int));
        }
        for n in 0..edges.len()
            invariant
                names == text::texts(ids@),
                all == edges@.map_values(|e: MeshEdge| e@),
                ends.len() == edges.len(),
                forall|j: int| 0 <= j < ends.len() ==> ends_are(#[trigger] ends@[j], names, all[j]),
                row_view(row@) == neighbours(names, all.take(n as int), i as int),
        {
            let ghost before = row_view(row@);
            proof {
                assert(all.take(n + 1).drop_last() =~= all.take(n as int));
                assert(all.take(n + 1).last() == edges@[n as int]@);
                assert(all[n as int] == edges@[n as int]@);
            }
            match ends[n] {
                Some((a, b)) => {
                    if a == i {
                        row.push((b, edges[n].rtt_ms));
                        proof {
                            assert(row_view(row@) =~= before.push((b as int, all[n as int].rtt_ms)));
                        }
                    } else if b == i {
                        row.push((a, edges[n].rtt_ms));
                        proof {
                            assert(row_view(row@) =~= before.push((a as int, all[n as int].rtt_ms)));
                        }
                    }
                },
                None => {},
            }
        }
        proof {
            assert(all.take(edges.len() as int) =~= all);
        }
        r.push(row);
    }
    proof {
        assert(rows_view(r@) =~= adjacency(names, all));
    }
    r
}

/// A list of different numbers below `n` is no longer than `n`.
pub proof fn lemma_distinct_bounded(s: Seq<int>, n: nat)
    requires
        s.no_duplicates(),
        forall|i: int| 0 <= i < s.len() ==> 0 <= #[trigger] s[i] < n,
    ensures
        s.len() <= n,
{
    s.unique_seq_to_set();
    let all = vstd::set_lib::set_int_range(0, n as int);
    vstd::set_lib::lemma_int_range(0, n as int);
    assert(s.to_set().subset_of(all));
    vstd::set_lib::lemma_len_subset(s.to_set(), all);
}

/// Whether measured edges lead from `a` to `b`.
pub(crate) fn reachable(adj: &Vec<Vec<(usize, Binary64)>>, a: usize, b: usize) -> (r: bool)
    requires
        closed(rows_view(adj@)),
        a < adj.len(),
        b < adj.len(),
    ensures
        r == reaches(rows_view(adj@), a as int, b as int),
{
    let ghost g = rows_view(adj@);
    if a == b {
        proof {
            lemma_reaches_self(g, a as int);
        }
        return true;
    }
    let mut seen: Vec<bool> = Vec::new();
    for i in 0..adj.len()
        invariant
            seen.len() == i,
            forall|j: int| 0 <= j < i ==> !#[trigger] seen@[j],
    {
        seen.push(false);
    }
    let mut queue: Vec<usize> = Vec::new();
    seen.set(a, true);
    queue.push(a);
    let mut head: usize = 0;
    proof {
        lemma_reaches_self(g, a as int);
        assert(partition::indices(queue@)[0] == a);
    }
    while head < queue.len()
        invariant
            g == rows_view(adj@),
            closed(g),
            a < adj.len(),
            b < adj.len(),
            a != b,
            head <= queue.len(),
            seen.len() == adj.len(),
            seen@[a as int],
            !seen@[b as int],
            partition::indices(queue@).no_duplicates(),
            forall|i: int| 0 <= i < queue.len() ==> #[trigger] queue@[i] < adj.len(),
            forall|i: int| 0 <= i < queue.len() ==> seen@[#[trigger] queue@[i] as int],
            forall|x: int| 0 <= x < seen.len() && #[trigger] seen@[x] ==> partition::indices(queue@).contains(x),
            forall|x: int| 0 <= x < seen.len() && #[trigger] seen@[x] ==> reaches(g, a as int, x),
            forall|i: int, k: int|
                0 <= i < head && 0 <= k < g[queue@[i] as int].len() ==> seen@[(#[trigger] g[queue@[i] as int][k]).0],
        decreases adj.len() - head,
    {
        proof {
            lemma_distinct_bounded(partition::indices(queue@), adj@.len());
        }
        let u: usize = queue[head];
        let row = &adj[u];
        let ghost start = queue@;
        proof {
            assert(g[u as int] == row_view(row@));
        }
        for k in 0..row.len()
            invariant
                g == rows_view(adj@),
                closed(g),
                a < adj.len(),
                b < adj.len(),
                a != b,
                u < adj.len(),
                g[u as int] == row_view(row@),
                head < start.len() <= queue.len(),
                u == start[head as int],
                forall|i: int| 0 <= i < start.len() ==> #[trigger] queue@[i] == start[i],
                seen.len() == adj.len(),
                seen@[a as int],
                seen@[u as int],
                !seen@[b as int],
                partition::indices(queue@).no_duplicates(),
                forall|i: int| 0 <= i < queue.len() ==> #[trigger] queue@[i] < adj.len(),
                forall|i: int| 0 <= i < queue.len() ==> seen@[#[trigger] queue@[i] as int],
                forall|x: int| 0 <= x < seen.len() && #[trigger] seen@[x] ==> partition::indices(queue@).contains(x),
                forall|x: int| 0 <= x < seen.len() && #[trigger] seen@[x] ==> reaches(g, a as int, x),
                forall|i: int, j: int|
                    0 <= i < head && 0 <= j < g[queue@[i] as int].len() ==> seen@[(#[trigger] g[queue@[i] as int][j]).0],
                forall|j: int| 0 <= j < k ==> seen@[(#[trigger] g[u as int][j]).0],
        {
            let to: usize = row[k].0;
            proof {
                assert(g[u as int][k as int].0 == to);
                assert(adjacent(g, u as int, to as int));
                lemma_reaches_step(g, a as int, u as int, to as int);
            }
            if to == b {
                return true;
            }
            if !seen[to] {
                let ghost before = partition::indices(queue@);
                seen.set(to, true);
                queue.push(to);
                proof {
                    let now = partition::indices(queue@);
                    assert(now =~= before.push(to as int));
                    assert(!before.contains(to as int)) by {
                        if before.contains(to as int) {
                            let i = before.index_of(to as int);
                            assert(queue@[i] == to);
                        }
                    }
                    assert forall|x: int| 0 <= x < seen.len() && #[trigger] seen@[x] implies now.contains(x) by {
                        if x == to {
                            assert(now[before.len() as int] == x);
                        } else {
                            assert(before.contains(x));
                            let i = before.index_of(x);
                            assert(now[i] == x);
                        }
                    }
                }
            }
        }
        proof {
            assert forall|i: int, k: int|
                0 <= i < head + 1 && 0 <= k < g[queue@[i] as int].len() implies seen@[(#[trigger] g[queue@[i] as int][k]).0] by {
                if i == head {
                    assert(queue@[i] == u);
                    assert(seen@[g[u as int][k].0]);
                }
            }
        }
        head = head + 1;
    }
    proof {
        if reaches(g, a as int, b as int) {
            let path = choose|path: Seq<int>|
                #[trigger] walk(g, path) && path.first() == a as int && path.last() == b as int;
            let inside = Set::new(|x: int| 0 <= x < seen.len() && seen@[x]);
            assert forall|x: int, y: int|
                0 <= x < g.len() && inside.contains(x) && #[trigger] adjacent(g, x, y) implies inside.contains(y) by {
                let k = choose|k: int| 0 <= k < g[x].len() && (#[trigger] g[x][k]).0 == y;
                assert(partition::indices(queue@).contains(x));
                let i = partition::indices(queue@).index_of(x);
                assert(queue@[i] == x);
                assert(seen@[g[queue@[i] as int][k].0]);
            }
            lemma_walk_stays(g, inside, path);
        }
    }
    false
}

} // verus!
