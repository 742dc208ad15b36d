//! Latency regions: groups of nodes that measured edges within a threshold connect.

use crate::api::{MeshEdge, MeshEdgeView};
use crate::binary64::Binary64;
use crate::partition;
use crate::roster;
use crate::sorting;
use crate::text;
use vstd::prelude::*;

verus! {

/// The link that an edge makes: its ends, where it is within the threshold.
pub open spec fn link_of(ids: Seq<Seq<char>>, e: MeshEdgeView, threshold: Binary64) -> Seq<(int, int)> {
    match (roster::position(ids, e.a), roster::position(ids, e.b)) {
        (Some(i), Some(j)) => if e.rtt_ms.at_most(threshold) { seq![(i, j)] } else { seq![] },
        _ => seq![],
    }
}

/// The links that edges make.
pub open spec fn links(ids: Seq<Seq<char>>, edges: Seq<MeshEdgeView>, threshold: Binary64) -> Seq<(int, int)>
    decreases edges.len(),
{
    if edges.len() == 0 {
        Seq::empty()
    } else {
        links(ids, edges.drop_last(), threshold) + link_of(ids, edges.last(), threshold)
    }
}

/// Every node is at first a region of its own.
pub open spec fn alone(n: nat) -> Seq<int> {
    Seq::new(n, |i: int| i)
}

/// The representative of each node's region.
pub open spec fn region_roots(ids: Seq<Seq<char>>, edges: Seq<MeshEdgeView>, threshold: Binary64) -> Seq<int> {
    partition::united(alone(ids.len()), links(ids, edges, threshold))
}

/// The nodes among the first `n` with a representative.
pub open spec fn members(ids: Seq<Seq<char>>, roots: Seq<int>, root: int, n: nat) -> Seq<Seq<char>>
    decreases n,
{
    if n == 0 {
        Seq::empty()
    } else {
        let rest = members(ids, roots, root, (n - 1) as nat);
        if roots[n - 1] == root {
            rest.push(ids[n - 1])
        } else {
            rest
        }
    }
}

/// Some node before `n` has the representative.
pub open spec fn seen(roots: Seq<int>, root: int, n: int) -> bool {
    exists|j: int| 0 <= j < n && #[trigger] roots[j] == root
}

/// One group of sorted members per representative among the first `n` nodes.
pub open spec fn groups(ids: Seq<Seq<char>>, roots: Seq<int>, n: nat) -> Seq<Seq<Seq<char>>>
    decreases n,
{
    if n == 0 {
        Seq::empty()
    } else {
        let rest = groups(ids, roots, (n - 1) as nat);
        if seen(roots, roots[n - 1], n - 1) {
            rest
        } else {
            rest.push(members(ids, roots, roots[n - 1], ids.len()).sort_by(sorting::text_order()))
        }
    }
}

/// The regions: largest first, each sorted.
pub open spec fn regions(ids: Seq<Seq<char>>, edges: Seq<MeshEdgeView>, threshold: Binary64) -> Seq<Seq<Seq<char>>> {
    groups(ids, region_roots(ids, edges, threshold), ids.len()).sort_by(sorting::list_order())
}

/// The first region from `from` on that holds the node.
pub open spec fn region_at(regions: Seq<Seq<Seq<char>>>, id: Seq<char>, from: int) -> int
    decreases regions.len() - from,
{
    if from < 0 || from >= regions.len() {
        -1
    } else if regions[from].contains(id) {
        from
    } else {
        region_at(regions, id, from + 1)
    }
}

pub proof fn lemma_links_in_range(ids: Seq<Seq<char>>, edges: Seq<MeshEdgeView>, threshold: Binary64)
    ensures
        partition::links_in_range(links(ids, edges, threshold), ids.len()),
    decreases edges.len(),
{
    if edges.len() > 0 {
        lemma_links_in_range(ids, edges.drop_last(), threshold);
        roster::lemma_position(ids, edges.last().a);
        roster::lemma_position(ids, edges.last().b);
    }
}

/// Joins the regions that edges within the threshold connect.
fn find_roots(ids: &Vec<String>, edges: &Vec<MeshEdge>, threshold: Binary64) -> (roots: Vec<usize>)
    ensures
        partition::indices(roots@) == region_roots(
            text::texts(ids@),
            edges@.map_values(|e: MeshEdge| e@),
            threshold,
        ),
        roots.len() == ids.len(),
{
    let ghost names = text::texts(ids@);
    let ghost all = edges@.map_values(|e: MeshEdge| e@);
    let mut roots: Vec<usize> = Vec::new();
    for i in 0..ids.len()
        invariant
            roots.len() == i,
            forall|j: int| 0 <= j < i ==> #[trigger] roots@[j] == j,
    {
        roots.push(i);
    }
    proof {
        assert(partition::indices(roots@) =~= alone(names.len()));
        assert(links(names, all.take(0), threshold) =~= Seq::empty());
    }
    for n in 0..edges.len()
        invariant
            names == text::texts(ids@),
            all == edges@.map_values(|e: MeshEdge| e@),
            roots.len() == ids.len(),
            partition::indices(roots@) == partition::united(
                alone(names.len()),
                links(names, all.take(n as int), threshold),
            ),
    {
        let e = &edges[n];
        let ghost before = links(names, all.take(n as int), threshold);
        let ghost after = links(names, all.take(n + 1), threshold);
        proof {
            assert(all.take(n + 1).drop_last() =~= all.take(n as int));
            assert(all.take(n + 1).last() == e@);
            assert(after == before + link_of(names, e@, threshold));
        }
        match (roster::find(ids, e.a.as_str()), roster::find(ids, e.b.as_str())) {
            (Some(i), Some(j)) => {
                if e.rtt_ms.le(threshold) {
                    partition::join(&mut roots, i, j);
                    proof {
                        assert(after.drop_last() =~= before);
                        assert(after.last() == (i as int, j as int));
                    }
                } else {
                    proof {
                        assert(after =~= before);
                    }
                }
            },
            _ => {
                proof {
                    assert(after =~= before);
                }
            },
        }
    }
    proof {
        assert(all.take(edges.len() as int) =~= all);
    }
    roots
}

fn find_members(ids: &Vec<String>, roots: &Vec<usize>, root: usize) -> (r: Vec<String>)
    requires
        roots.len() == ids.len(),
    ensures
        text::texts(r@) == members(text::texts(ids@), partition::indices(roots@), root as int, ids@.len()),
{
    let ghost names = text::texts(ids@);
    let ghost all = partition::indices(roots@);
    let mut r: Vec<String> = Vec::new();
    proof {
        assert(text::texts(r@) =~= Seq::empty());
    }
    for n in 0..ids.len()
        invariant
            roots.len() == ids.len(),
            names == text::texts(ids@),
            all == partition::indices(roots@),
            text::texts(r@) == members(names, all, root as int, n as nat),
    {
        proof {
            assert(all[n as int] == roots@[n as int]);
        }
        if roots[n] == root {
            let ghost before = text::texts(r@);
            r.push(ids[n].clone());
            proof {
                assert(text::texts(r@) =~= before.push(ids@[n as int]@));
            }
        }
    }
    r
}

/// Latency regions: connected components over measured edges within the threshold. Largest first,
/// each sorted.
pub(crate) fn compute_regions(ids: &Vec<String>, edges: &Vec<MeshEdge>, threshold: Binary64) -> (r: Vec<Vec<String>>)
    ensures
        sorting::lists(r@) == regions(text::texts(ids@), edges@.map_values(|e: MeshEdge| e@), threshold),
{
    let ghost names = text::texts(ids@);
    let roots = find_roots(ids, edges, threshold);
    let ghost all = partition::indices(roots@);
    let mut list: Vec<Vec<String>> = Vec::new();
    proof {
        assert(sorting::lists(list@) =~= Seq::empty());
    }
    for n in 0..ids.len()
        invariant
            roots.len() == ids.len(),
            names == text::texts(ids@),
            all == partition::indices(roots@),
            sorting::lists(list@) == groups(names, all, n as nat),
    {
        let root: usize = roots[n];
        let mut j: usize = 0;
        while j < n && roots[j] != root
            invariant
                j <= n < roots.len(),
                all == partition::indices(roots@),
                forall|k: int| 0 <= k < j ==> #[trigger] all[k] != root,
            decreases n - j,
        {
            proof {
                assert(all[j as int] == roots@[j as int]);
            }
            j = j + 1;
        }
        proof {
            assert(all[n as int] == root);
            if j < n {
                assert(all[j as int] == root);
            }
        }
        if j == n {
            let ghost before = sorting::lists(list@);
            let group = sorting::sort_texts(&find_members(ids, &roots, root));
            list.push(group);
            proof {
                assert(sorting::lists(list@) =~= before.push(text::texts(group@)));
            }
        }
    }
    sorting::sort_lists(&list)
}

} // verus!
