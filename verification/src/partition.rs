//! Partitions by representatives: every element names the representative of its set, and joining
//! two sets renames one of them.

use vstd::prelude::*;

verus! {

/// Every member of `a`'s set joins `b`'s set, whose representative stays.
pub open spec fn joined(roots: Seq<int>, a: int, b: int) -> Seq<int> {
    roots.map_values(|r: int| if r == roots[a] { roots[b] } else { r })
}

/// The representatives after the links have been made in turn.
pub open spec fn united(start: Seq<int>, links: Seq<(int, int)>) -> Seq<int>
    decreases links.len(),
{
    if links.len() == 0 {
        start
    } else {
        let l = links.last();
        joined(united(start, links.drop_last()), l.0, l.1)
    }
}

/// Elements and representatives are positions.
pub open spec fn in_range(roots: Seq<int>) -> bool {
    forall|i: int| 0 <= i < roots.len() ==> 0 <= #[trigger] roots[i] < roots.len()
}

/// Links are between positions.
pub open spec fn links_in_range(links: Seq<(int, int)>, n: nat) -> bool {
    forall|k: int| 0 <= k < links.len() ==> 0 <= (#[trigger] links[k]).0 < n && 0 <= links[k].1 < n
}

/// One step: two elements of one initial set, or the ends of a link.
pub open spec fn related(start: Seq<int>, links: Seq<(int, int)>, x: int, y: int) -> bool {
    ||| start[x] == start[y]
    ||| exists|k: int| 0 <= k < links.len() && (#[trigger] links[k] == (x, y) || links[k] == (y, x))
}

/// A walk of related elements.
pub open spec fn walk(start: Seq<int>, links: Seq<(int, int)>, path: Seq<int>) -> bool {
    &&& path.len() > 0
    &&& forall|i: int| 0 <= i < path.len() ==> 0 <= #[trigger] path[i] < start.len()
    &&& forall|i: int| 0 <= i < path.len() - 1 ==> related(start, links, #[trigger] path[i], path[i + 1])
}

/// Two elements are connected by related elements.
pub open spec fn connected(start: Seq<int>, links: Seq<(int, int)>, x: int, y: int) -> bool {
    exists|path: Seq<int>| #[trigger] walk(start, links, path) && path.first() == x && path.last() == y
}

pub proof fn lemma_connected_step(start: Seq<int>, links: Seq<(int, int)>, x: int, y: int)
    requires
        0 <= x < start.len(),
        0 <= y < start.len(),
        related(start, links, x, y),
    ensures
        connected(start, links, x, y),
{
    let path = seq![x, y];
    assert(walk(start, links, path));
}

pub proof fn lemma_related_symmetric(start: Seq<int>, links: Seq<(int, int)>, x: int, y: int)
    requires
        related(start, links, x, y),
    ensures
        related(start, links, y, x),
{
    if start[x] != start[y] {
        let k = choose|k: int| 0 <= k < links.len() && (#[trigger] links[k] == (x, y) || links[k] == (y, x));
        assert(links[k] == (y, x) || links[k] == (x, y));
    }
}

pub proof fn lemma_connected_symmetric(start: Seq<int>, links: Seq<(int, int)>, x: int, y: int)
    requires
        connected(start, links, x, y),
    ensures
        connected(start, links, y, x),
{
    let path = choose|path: Seq<int>| #[trigger] walk(start, links, path) && path.first() == x && path.last() == y;
    let back = path.reverse();
    assert forall|i: int| 0 <= i < back.len() - 1 implies related(start, links, #[trigger] back[i], back[i + 1]) by {
        let j = path.len() - 2 - i;
        assert(related(start, links, path[j], path[j + 1]));
        lemma_related_symmetric(start, links, path[j], path[j + 1]);
    }
    assert(walk(start, links, back));
}

pub proof fn lemma_connected_transitive(start: Seq<int>, links: Seq<(int, int)>, x: int, y: int, z: int)
    requires
        connected(start, links, x, y),
        connected(start, links, y, z),
    ensures
        connected(start, links, x, z),
{
    let p = choose|path: Seq<int>| #[trigger] walk(start, links, path) && path.first() == x && path.last() == y;
    let q = choose|path: Seq<int>| #[trigger] walk(start, links, path) && path.first() == y && path.last() == z;
    let r = p + q.drop_first();
    assert forall|i: int| 0 <= i < r.len() - 1 implies related(start, links, #[trigger] r[i], r[i + 1]) by {
        if i < p.len() - 1 {
            assert(related(start, links, p[i], p[i + 1]));
        } else {
            let j = i - (p.len() - 1);
            assert(r[i] == q[j]);
            assert(r[i + 1] == q[j + 1]);
            assert(related(start, links, q[j], q[j + 1]));
        }
    }
    assert(walk(start, links, r));
    if q.len() == 1 {
        assert(r =~= p);
    } else {
        assert(r.last() == q.last());
    }
}

/// More links connect more.
proof fn lemma_connected_grows(start: Seq<int>, links: Seq<(int, int)>, x: int, y: int)
    requires
        links.len() > 0,
        connected(start, links.drop_last(), x, y),
    ensures
        connected(start, links, x, y),
{
    let before = links.drop_last();
    let path = choose|path: Seq<int>| #[trigger] walk(start, before, path) && path.first() == x && path.last() == y;
    assert forall|i: int| 0 <= i < path.len() - 1 implies related(start, links, #[trigger] path[i], path[i + 1]) by {
        assert(related(start, before, path[i], path[i + 1]));
        if start[path[i]] != start[path[i + 1]] {
            let k = choose|k: int|
                0 <= k < before.len() && (#[trigger] before[k] == (path[i], path[i + 1]) || before[k] == (
                    path[i + 1],
                    path[i],
                ));
            assert(links[k] == before[k]);
        }
    }
    assert(walk(start, links, path));
}

pub proof fn lemma_united_in_range(start: Seq<int>, links: Seq<(int, int)>)
    requires
        in_range(start),
        links_in_range(links, start.len()),
    ensures
        united(start, links).len() == start.len(),
        in_range(united(start, links)),
    decreases links.len(),
{
    if links.len() > 0 {
        let before = links.drop_last();
        assert forall|k: int| 0 <= k < before.len() implies 0 <= (#[trigger] before[k]).0 < start.len() && 0
            <= before[k].1 < start.len() by {
            assert(before[k] == links[k]);
        }
        lemma_united_in_range(start, before);
        assert(links[links.len() - 1] == links.last());
    }
}

/// Elements of one set are connected.
proof fn lemma_united_sound(start: Seq<int>, links: Seq<(int, int)>, x: int, y: int)
    requires
        in_range(start),
        links_in_range(links, start.len()),
        0 <= x < start.len(),
        0 <= y < start.len(),
        united(start, links)[x] == united(start, links)[y],
    ensures
        connected(start, links, x, y),
    decreases links.len(),
{
    if links.len() == 0 {
        lemma_connected_step(start, links, x, y);
    } else {
        let before = links.drop_last();
        let (a, b) = links.last();
        assert(links[links.len() - 1] == (a, b));
        assert forall|k: int| 0 <= k < before.len() implies 0 <= (#[trigger] before[k]).0 < start.len() && 0
            <= before[k].1 < start.len() by {
            assert(before[k] == links[k]);
        }
        lemma_united_in_range(start, before);
        let roots = united(start, before);
        if roots[x] == roots[y] {
            lemma_united_sound(start, before, x, y);
            lemma_connected_grows(start, links, x, y);
        } else {
            // One of the two was in a's set and the other is in b's.
            lemma_connected_step(start, links, a, b);
            lemma_connected_symmetric(start, links, a, b);
            if roots[x] == roots[a] {
                lemma_united_sound(start, before, x, a);
                lemma_connected_grows(start, links, x, a);
                lemma_united_sound(start, before, b, y);
                lemma_connected_grows(start, links, b, y);
                lemma_connected_transitive(start, links, x, a, b);
                lemma_connected_transitive(start, links, x, b, y);
            } else {
                lemma_united_sound(start, before, x, b);
                lemma_connected_grows(start, links, x, b);
                lemma_united_sound(start, before, a, y);
                lemma_connected_grows(start, links, a, y);
                lemma_connected_transitive(start, links, x, b, a);
                lemma_connected_transitive(start, links, x, a, y);
            }
        }
    }
}

/// Related elements are in one set.
proof fn lemma_united_step(start: Seq<int>, links: Seq<(int, int)>, x: int, y: int)
    requires
        in_range(start),
        links_in_range(links, start.len()),
        0 <= x < start.len(),
        0 <= y < start.len(),
        related(start, links, x, y),
    ensures
        united(start, links)[x] == united(start, links)[y],
    decreases links.len(),
{
    if links.len() > 0 {
        let before = links.drop_last();
        let (a, b) = links.last();
        assert(links[links.len() - 1] == (a, b));
        assert forall|k: int| 0 <= k < before.len() implies 0 <= (#[trigger] before[k]).0 < start.len() && 0
            <= before[k].1 < start.len() by {
            assert(before[k] == links[k]);
        }
        lemma_united_in_range(start, before);
        if start[x] == start[y] {
            lemma_united_step(start, before, x, y);
        } else {
            let k = choose|k: int| 0 <= k < links.len() && (#[trigger] links[k] == (x, y) || links[k] == (y, x));
            if k < before.len() {
                assert(before[k] == links[k]);
                lemma_united_step(start, before, x, y);
            }
        }
    }
}

proof fn lemma_united_walk(start: Seq<int>, links: Seq<(int, int)>, path: Seq<int>)
    requires
        in_range(start),
        links_in_range(links, start.len()),
        walk(start, links, path),
    ensures
        united(start, links)[path.first()] == united(start, links)[path.last()],
    decreases path.len(),
{
    if path.len() > 1 {
        let rest = path.drop_last();
        assert forall|i: int| 0 <= i < rest.len() - 1 implies related(start, links, #[trigger] rest[i], rest[i + 1]) by {
            assert(related(start, links, path[i], path[i + 1]));
        }
        lemma_united_walk(start, links, rest);
        assert(related(start, links, path[path.len() - 2], path[path.len() - 1]));
        lemma_united_step(start, links, path[path.len() - 2], path[path.len() - 1]);
    }
}

/// After all links two elements have one representative exactly where they are connected.
pub proof fn lemma_united_is_connected(start: Seq<int>, links: Seq<(int, int)>, x: int, y: int)
    requires
        in_range(start),
        links_in_range(links, start.len()),
        0 <= x < start.len(),
        0 <= y < start.len(),
    ensures
        (united(start, links)[x] == united(start, links)[y]) == connected(start, links, x, y),
{
    if united(start, links)[x] == united(start, links)[y] {
        lemma_united_sound(start, links, x, y);
    }
    if connected(start, links, x, y) {
        let path = choose|path: Seq<int>| #[trigger] walk(start, links, path) && path.first() == x && path.last() == y;
        lemma_united_walk(start, links, path);
    }
}

/// Representatives only ever come from the initial ones.
pub proof fn lemma_united_from_start(start: Seq<int>, links: Seq<(int, int)>, x: int)
    requires
        links_in_range(links, start.len()),
        0 <= x < start.len(),
    ensures
        united(start, links).len() == start.len(),
        exists|y: int| 0 <= y < start.len() && #[trigger] start[y] == united(start, links)[x],
    decreases links.len(),
{
    if links.len() == 0 {
        assert(start[x] == united(start, links)[x]);
    } else {
        let before = links.drop_last();
        let l = links.last();
        assert(links[links.len() - 1] == l);
        assert forall|k: int| 0 <= k < before.len() implies 0 <= (#[trigger] before[k]).0 < start.len() && 0
            <= before[k].1 < start.len() by {
            assert(before[k] == links[k]);
        }
        lemma_united_from_start(start, before, x);
        lemma_united_from_start(start, before, l.1);
    }
}

/// Positions as mathematical integers.
pub open spec fn indices(s: Seq<usize>) -> Seq<int> {
    s.map_values(|x: usize| x as int)
}

/// Joins the sets of two elements.
pub(crate) fn join(roots: &mut Vec<usize>, a: usize, b: usize)
    requires
        a < old(roots).len(),
        b < old(roots).len(),
    ensures
        final(roots).len() == old(roots).len(),
        indices(final(roots)@) == joined(indices(old(roots)@), a as int, b as int),
{
    let ghost start = indices(roots@);
    let from: usize = roots[a];
    let to: usize = roots[b];
    let mut k: usize = 0;
    while k < roots.len()
        invariant
            k <= roots.len() == start.len(),
            forall|q: int| k <= q < roots.len() ==> #[trigger] roots@[q] == start[q],
            forall|q: int| 0 <= q < k ==> #[trigger] roots@[q] == if start[q] == from { to as int } else { start[q] },
        decreases roots.len() - k,
    {
        if roots[k] == from {
            roots.set(k, to);
        }
        k = k + 1;
    }
    proof {
        assert(indices(roots@) =~= joined(start, a as int, b as int));
    }
}

} // verus!
