//! Minimum-RTT paths on numbered nodes.
//!
//! The search settles nodes in order of distance. Of equally distant nodes it settles the one that
//! was discovered first, so the path is determined by the order of edges.

use crate::binary64::Binary64;
use crate::order;
use crate::partition;
use crate::paths;
use vstd::prelude::*;

verus! {

/// The state of a search.
pub struct Search {
    /// Discovered nodes, in order of discovery.
    pub order: Seq<int>,
    /// The least cost found to each node.
    pub dist: Seq<Option<Binary64>>,
    /// The node before each node on the way found.
    pub prev: Seq<Option<int>>,
    /// Settled nodes, in order.
    pub settled: Seq<int>,
}

pub open spec fn far(d: Option<Binary64>) -> Binary64 {
    match d {
        Some(x) => x,
        None => Binary64::infinity(),
    }
}

impl Search {
    pub open spec fn begin(n: nat, a: int) -> Search {
        Search {
            order: seq![a],
            dist: Seq::new(n, |i: int| if i == a { Some(Binary64::zero()) } else { None }),
            prev: Seq::new(n, |i: int| None),
            settled: Seq::empty(),
        }
    }

    /// The first of the nearest unsettled nodes among the first `n` discovered.
    pub open spec fn closest(self, n: nat) -> Option<int>
        decreases n,
    {
        if n == 0 {
            None
        } else {
            let best = self.closest((n - 1) as nat);
            let x = self.order[n - 1];
            let bar = match best {
                Some(y) => far(self.dist[y]),
                None => Binary64::infinity(),
            };
            if !self.settled.contains(x) && far(self.dist[x]).less(bar) {
                Some(x)
            } else {
                best
            }
        }
    }

    /// The search after trying the way over `u` to a neighbour.
    pub open spec fn tried(self, u: int, base: Binary64, hop: (int, Binary64)) -> Search {
        let (to, w) = hop;
        let cost = base.plus(w);
        if !self.settled.contains(to) && cost.less(far(self.dist[to])) {
            Search {
                order: if self.dist[to] is None { self.order.push(to) } else { self.order },
                dist: self.dist.update(to, Some(cost)),
                prev: self.prev.update(to, Some(u)),
                settled: self.settled,
            }
        } else {
            self
        }
    }

    /// The search after trying the ways over `u` to its first `k` neighbours.
    pub open spec fn tried_all(self, u: int, base: Binary64, row: Seq<(int, Binary64)>, k: nat) -> Search
        decreases k,
    {
        if k == 0 {
            self
        } else {
            self.tried_all(u, base, row, (k - 1) as nat).tried(u, base, row[k - 1])
        }
    }

    pub open spec fn settle(self, u: int, row: Seq<(int, Binary64)>) -> Search {
        (Search { settled: self.settled.push(u), ..self }).tried_all(u, far(self.dist[u]), row, row.len())
    }

    /// The search carried on until `b` is nearest or nothing is left, for at most `fuel` nodes.
    pub open spec fn explore(self, adj: Seq<Seq<(int, Binary64)>>, b: int, fuel: nat) -> Search
        decreases fuel,
    {
        if fuel == 0 {
            self
        } else {
            match self.closest(self.order.len()) {
                Some(u) => if u == b { self } else { self.settle(u, adj[u]).explore(adj, b, (fuel - 1) as nat) },
                None => self,
            }
        }
    }
}

/// The way back from `x` to `a`, read forward; empty where there is none.
pub open spec fn trail(prev: Seq<Option<int>>, a: int, x: int, fuel: nat) -> Seq<int>
    decreases fuel,
{
    if x == a {
        seq![a]
    } else if fuel == 0 {
        Seq::empty()
    } else {
        match prev[x] {
            Some(p) => {
                let t = trail(prev, a, p, (fuel - 1) as nat);
                if t.len() == 0 {
                    t
                } else {
                    t.push(x)
                }
            },
            None => Seq::empty(),
        }
    }
}

/// The finished search from `a` to `b`.
pub open spec fn search(adj: Seq<Seq<(int, Binary64)>>, a: int, b: int) -> Search {
    Search::begin(adj.len(), a).explore(adj, b, adj.len())
}

/// The minimum-RTT path from `a` to `b`; empty where there is none.
pub open spec fn shortest(adj: Seq<Seq<(int, Binary64)>>, a: int, b: int) -> Seq<int> {
    let s = search(adj, a, b);
    if s.dist[b] is None {
        Seq::empty()
    } else {
        trail(s.prev, a, b, adj.len())
    }
}

// ---- execution ----

struct Frontier {
    order: Vec<usize>,
    dist: Vec<Option<Binary64>>,
    prev: Vec<Option<usize>>,
    done: Vec<bool>,
}

spec fn prev_view(s: Seq<Option<usize>>) -> Seq<Option<int>> {
    s.map_values(
        |p: Option<usize>|
            match p {
                Some(x) => Some(x as int),
                None => None,
            },
    )
}

impl Frontier {
    spec fn shows(self, s: Search, n: nat) -> bool {
        &&& partition::indices(self.order@) == s.order
        &&& self.dist@ == s.dist
        &&& prev_view(self.prev@) == s.prev
        &&& self.dist@.len() == n
        &&& self.prev@.len() == n
        &&& self.done@.len() == n
        &&& forall|x: int| 0 <= x < n ==> #[trigger] self.done@[x] == s.settled.contains(x)
        &&& forall|i: int| 0 <= i < self.order@.len() ==> #[trigger] self.order@[i] < n
        &&& forall|x: int| 0 <= x < n && s.prev[x] is Some ==> 0 <= (#[trigger] s.prev[x])->0 < n
    }

    fn find_closest(&self, s: Ghost<Search>, n: Ghost<nat>) -> (r: Option<usize>)
        requires
            self.shows(s@, n@),
        ensures
            match r {
                Some(u) => s@.closest(s@.order.len()) == Some(u as int) && u < n@,
                None => s@.closest(s@.order.len()) is None,
            },
    {
        let mut best: Option<usize> = None;
        let mut bar = Binary64 { bits: 0x7ff0_0000_0000_0000 };
        for i in 0..self.order.len()
            invariant
                self.shows(s@, n@),
                match best {
                    Some(u) => s@.closest(i as nat) == Some(u as int) && u < n@ && bar == far(s@.dist[u as int]),
                    None => s@.closest(i as nat) is None && bar == Binary64::infinity(),
                },
        {
            let x: usize = self.order[i];
            proof {
                assert(s@.order[i as int] == x);
            }
            if !self.done[x] {
                let d = match self.dist[x] {
                    Some(d) => d,
                    None => Binary64 { bits: 0x7ff0_0000_0000_0000 },
                };
                if d.lt(bar) {
                    best = Some(x);
                    bar = d;
                }
            }
        }
        best
    }

    fn settle(&mut self, u: usize, row: &Vec<(usize, Binary64)>, s: Ghost<Search>, n: Ghost<nat>)
        requires
            old(self).shows(s@, n@),
            u < n@,
            forall|k: int| 0 <= k < row.len() ==> (#[trigger] row@[k]).0 < n@,
        ensures
            final(self).shows(s@.settle(u as int, paths::row_view(row@)), n@),
    {
        let base = match self.dist[u] {
            Some(d) => d,
            None => Binary64 { bits: 0x7ff0_0000_0000_0000 },
        };
        let ghost cells = paths::row_view(row@);
        let ghost here = Search { settled: s@.settled.push(u as int), ..s@ };
        self.done.set(u, true);
        proof {
            assert forall|x: int| 0 <= x < n@ implies #[trigger] self.done@[x] == here.settled.contains(x) by {
                if x == u {
                    assert(here.settled[s@.settled.len() as int] == x);
                } else if s@.settled.contains(x) {
                    let i = s@.settled.index_of(x);
                    assert(here.settled[i] == x);
                }
            }
        }
        for k in 0..row.len()
            invariant
                u < n@,
                forall|i: int| 0 <= i < row.len() ==> (#[trigger] row@[i]).0 < n@,
                cells == paths::row_view(row@),
                self.shows(here.tried_all(u as int, base, cells, k as nat), n@),
        {
            let (to, w) = row[k];
            let cost = base.add(w);
            let ghost before = here.tried_all(u as int, base, cells, k as nat);
            proof {
                assert(cells[k as int] == (to as int, w));
            }
            if !self.done[to] {
                let known: bool = self.dist[to].is_some();
                let bar = match self.dist[to] {
                    Some(d) => d,
                    None => Binary64 { bits: 0x7ff0_0000_0000_0000 },
                };
                if cost.lt(bar) {
                    let ghost listed = self.order@;
                    if !known {
                        self.order.push(to);
                    }
                    self.dist.set(to, Some(cost));
                    let ghost ways = self.prev@;
                    self.prev.set(to, Some(u));
                    proof {
                        if !known {
                            assert(partition::indices(self.order@) =~= partition::indices(listed).push(to as int));
                        }
                        assert(prev_view(self.prev@) =~= prev_view(ways).update(to as int, Some(u as int)));
                        let after = before.tried(u as int, base, (to as int, w));
                        assert forall|x: int| 0 <= x < n@ && after.prev[x] is Some implies 0 <= (#[trigger] after.prev[x])->0
                            < n@ by {
                            if x != to {
                                assert(after.prev[x] == before.prev[x]);
                            }
                        }
                    }
                }
            }
        }
    }
}

/// The minimum-RTT path from `a` to `b`; empty where there is none.
pub(crate) fn find_shortest(adj: &Vec<Vec<(usize, Binary64)>>, a: usize, b: usize) -> (r: Vec<usize>)
    requires
        paths::closed(paths::rows_view(adj@)),
        a < adj.len(),
        b < adj.len(),
    ensures
        partition::indices(r@) == shortest(paths::rows_view(adj@), a as int, b as int),
        forall|i: int| 0 <= i < r.len() ==> #[trigger] r@[i] < adj.len(),
{
    let ghost g = paths::rows_view(adj@);
    let ghost n = adj@.len();
    let mut f = Frontier { order: Vec::new(), dist: Vec::new(), prev: Vec::new(), done: Vec::new() };
    f.order.push(a);
    let ghost first = Search::begin(n, a as int);
    for i in 0..adj.len()
        invariant
            n == adj@.len(),
            a < adj.len(),
            first == Search::begin(n, a as int),
            f.order@ == seq![a],
            f.dist.len() == i,
            f.prev.len() == i,
            f.done.len() == i,
            forall|j: int| 0 <= j < i ==> #[trigger] f.dist@[j] == first.dist[j],
            forall|j: int| 0 <= j < i ==> #[trigger] f.prev@[j] is None,
            forall|j: int| 0 <= j < i ==> !#[trigger] f.done@[j],
    {
        f.dist.push(if i == a { Some(Binary64 { bits: 0 }) } else { None });
        f.prev.push(None);
        f.done.push(false);
    }
    let ghost mut s = first;
    proof {
        assert(partition::indices(f.order@) =~= first.order);
        assert(f.dist@ =~= first.dist);
        assert(prev_view(f.prev@) =~= first.prev);
    }
    let mut fuel: usize = adj.len();
    let mut over: bool = false;
    while !over && fuel > 0
        invariant
            g == paths::rows_view(adj@),
            n == adj@.len(),
            paths::closed(g),
            b < adj.len(),
            f.shows(s, n),
            !over ==> search(g, a as int, b as int) == s.explore(g, b as int, fuel as nat),
            over ==> search(g, a as int, b as int) == s,
        decreases fuel, (if over { 0int } else { 1int }),
    {
        match f.find_closest(Ghost(s), Ghost(n)) {
            Some(u) => {
                if u == b {
                    over = true;
                } else {
                    proof {
                        assert(g[u as int] == paths::row_view(adj@[u as int]@));
                        assert forall|k: int| 0 <= k < adj@[u as int].len() implies (#[trigger] adj@[u as int]@[k]).0
                            < n by {
                            assert(g[u as int][k].0 == adj@[u as int]@[k].0);
                        }
                    }
                    f.settle(u, &adj[u], Ghost(s), Ghost(n));
                    proof {
                        s = s.settle(u as int, g[u as int]);
                    }
                    fuel = fuel - 1;
                }
            },
            None => {
                over = true;
            },
        }
    }
    proof {
        assert(s == search(g, a as int, b as int));
    }
    if f.dist[b].is_none() {
        let r: Vec<usize> = Vec::new();
        proof {
            assert(partition::indices(r@) =~= Seq::empty());
        }
        return r;
    }
    let mut back: Vec<usize> = Vec::new();
    let mut cur: usize = b;
    let mut fuel: usize = adj.len();
    let ghost whole = trail(s.prev, a as int, b as int, n);
    proof {
        assert(partition::indices(back@).reverse() =~= Seq::empty());
        assert(whole =~= whole + Seq::<int>::empty());
    }
    while cur != a
        invariant
            g == paths::rows_view(adj@),
            n == adj@.len(),
            s == search(g, a as int, b as int),
            s.dist[b as int] is Some,
            f.shows(s, n),
            cur < n,
            whole == trail(s.prev, a as int, b as int, n),
            ({
                let t = trail(s.prev, a as int, cur as int, fuel as nat);
                if t.len() == 0 {
                    whole.len() == 0
                } else {
                    whole == t + partition::indices(back@).reverse()
                }
            }),
            forall|i: int| 0 <= i < back.len() ==> #[trigger] back@[i] < adj.len(),
        decreases fuel,
    {
        let ghost later = partition::indices(back@).reverse();
        if fuel == 0 {
            let r: Vec<usize> = Vec::new();
            proof {
                assert(partition::indices(r@) =~= whole);
            }
            return r;
        }
        match f.prev[cur] {
            Some(p) => {
                proof {
                    assert(s.prev[cur as int] == Some(p as int));
                    let t = trail(s.prev, a as int, p as int, (fuel - 1) as nat);
                    if t.len() > 0 {
                        assert(t.push(cur as int) + later =~= t + (seq![cur as int] + later));
                    }
                }
                back.push(cur);
                proof {
                    assert(partition::indices(back@).reverse() =~= seq![cur as int] + later);
                }
                cur = p;
                fuel = fuel - 1;
            },
            None => {
                let r: Vec<usize> = Vec::new();
                proof {
                    assert(s.prev[cur as int] is None);
                    assert(partition::indices(r@) =~= whole);
                }
                return r;
            },
        }
    }
    let mut r: Vec<usize> = Vec::new();
    r.push(a);
    let mut i: usize = back.len();
    let ghost rest = partition::indices(back@).reverse();
    proof {
        assert(partition::indices(r@) =~= seq![a as int] + rest.take(0));
    }
    while i > 0
        invariant
            i <= back.len(),
            a < adj.len(),
            rest == partition::indices(back@).reverse(),
            partition::indices(r@) == seq![a as int] + rest.take(back.len() - i),
            forall|j: int| 0 <= j < back.len() ==> #[trigger] back@[j] < adj.len(),
            forall|j: int| 0 <= j < r.len() ==> #[trigger] r@[j] < adj.len(),
        decreases i,
    {
        let ghost before = partition::indices(r@);
        i = i - 1;
        r.push(back[i]);
        proof {
            let k = back.len() - i;
            assert(rest[k - 1] == back@[i as int]);
            assert(rest.take(k) =~= rest.take(k - 1).push(back@[i as int] as int));
            assert(partition::indices(r@) =~= before.push(back@[i as int] as int));
            assert(partition::indices(r@) =~= seq![a as int] + rest.take(k));
        }
    }
    proof {
        assert(rest.take(back.len() as int) =~= rest);
    }
    r
}

// ---- what the search finds ----

/// The node where hops from `a` end; a hop is a position in the list of neighbours.
pub open spec fn end_of(adj: Seq<Seq<(int, Binary64)>>, a: int, hops: Seq<int>) -> int
    decreases hops.len(),
{
    if hops.len() == 0 {
        a
    } else {
        adj[end_of(adj, a, hops.drop_last())][hops.last()].0
    }
}

/// Every hop takes a neighbour that is there.
pub open spec fn route(adj: Seq<Seq<(int, Binary64)>>, a: int, hops: Seq<int>) -> bool
    decreases hops.len(),
{
    hops.len() == 0 || (route(adj, a, hops.drop_last()) && 0 <= hops.last() < adj[end_of(
        adj,
        a,
        hops.drop_last(),
    )].len())
}

/// The RTTs of the hops, added up from the first.
pub open spec fn route_cost(adj: Seq<Seq<(int, Binary64)>>, a: int, hops: Seq<int>) -> Binary64
    decreases hops.len(),
{
    if hops.len() == 0 {
        Binary64::zero()
    } else {
        route_cost(adj, a, hops.drop_last()).plus(adj[end_of(adj, a, hops.drop_last())][hops.last()].1)
    }
}

/// The nodes that hops visit.
pub open spec fn stops(adj: Seq<Seq<(int, Binary64)>>, a: int, hops: Seq<int>) -> Seq<int>
    decreases hops.len(),
{
    if hops.len() == 0 {
        seq![a]
    } else {
        stops(adj, a, hops.drop_last()).push(end_of(adj, a, hops))
    }
}

/// No RTT is negative or a NaN.
pub open spec fn nonnegative(adj: Seq<Seq<(int, Binary64)>>) -> bool {
    forall|i: int, k: int|
        0 <= i < adj.len() && 0 <= k < adj[i].len() ==> Binary64::zero().at_most((#[trigger] adj[i][k]).1)
}

/// The way to `x` comes over `p`.
spec fn over(s: Search, adj: Seq<Seq<(int, Binary64)>>, p: int, x: int) -> bool {
    exists|k: int|
        0 <= k < adj[p].len() && (#[trigger] adj[p][k]).0 == x && far(s.dist[x]) == far(s.dist[p]).plus(adj[p][k].1)
}

spec fn sound(s: Search, adj: Seq<Seq<(int, Binary64)>>, a: int) -> bool {
    &&& s.dist.len() == adj.len()
    &&& s.prev.len() == adj.len()
    &&& 0 <= a < adj.len()
    &&& s.dist[a] == Some(Binary64::zero())
    &&& s.settled.len() > 0 ==> s.settled[0] == a
    &&& s.settled.len() == 0 ==> s.order == seq![a]
    &&& s.settled.no_duplicates()
    &&& forall|i: int| 0 <= i < s.order.len() ==> 0 <= #[trigger] s.order[i] < adj.len() && s.dist[s.order[i]] is Some
    &&& forall|i: int|
        0 <= i < s.settled.len() ==> 0 <= #[trigger] s.settled[i] < adj.len() && s.dist[s.settled[i]] is Some
    &&& forall|x: int|
        0 <= x < adj.len() && (#[trigger] s.dist[x]) is Some ==> s.order.contains(x) && far(s.dist[x]).less(
            Binary64::infinity(),
        )
    &&& forall|x: int| 0 <= x < adj.len() && x != a && (#[trigger] s.dist[x]) is Some ==> s.prev[x] is Some
    &&& forall|x: int|
        0 <= x < adj.len() && (#[trigger] s.prev[x]) is Some ==> x != a && s.dist[x] is Some && s.settled.contains(
            s.prev[x]->0,
        ) && over(s, adj, s.prev[x]->0, x)
    &&& forall|j: int|
        0 <= j < s.settled.len() && s.prev[#[trigger] s.settled[j]] is Some ==> exists|i: int|
            0 <= i < j && s.settled[i] == s.prev[s.settled[j]]->0
}

proof fn lemma_begin_sound(adj: Seq<Seq<(int, Binary64)>>, a: int)
    requires
        0 <= a < adj.len(),
    ensures
        sound(Search::begin(adj.len(), a), adj, a),
{
    let s = Search::begin(adj.len(), a);
    order::lemma_constants();
    order::lemma_finite_bounds(Binary64::zero());
    assert(s.order[0] == a);
}

/// The nearest unsettled node, or that nothing discovered is left.
proof fn lemma_closest(s: Search, adj: Seq<Seq<(int, Binary64)>>, a: int, n: nat)
    requires
        sound(s, adj, a),
        n <= s.order.len(),
    ensures
        match s.closest(n) {
            Some(u) => {
                &&& 0 <= u < adj.len()
                &&& !s.settled.contains(u)
                &&& s.dist[u] is Some
                &&& forall|i: int|
                    0 <= i < n && !s.settled.contains(#[trigger] s.order[i]) ==> far(s.dist[u]).at_most(
                        far(s.dist[s.order[i]]),
                    )
            },
            None => forall|i: int| 0 <= i < n ==> s.settled.contains(#[trigger] s.order[i]),
        },
    decreases n,
{
    if n > 0 {
        lemma_closest(s, adj, a, (n - 1) as nat);
        let x = s.order[n - 1];
        assert(s.dist[x] is Some);
        assert(far(s.dist[x]).less(Binary64::infinity()));
    }
}

/// Trying a neighbour of a settled node keeps the search sound.
proof fn lemma_tried_sound(s: Search, adj: Seq<Seq<(int, Binary64)>>, a: int, u: int, k: int)
    requires
        sound(s, adj, a),
        paths::closed(adj),
        0 <= u < adj.len(),
        s.settled.contains(u),
        0 <= k < adj[u].len(),
    ensures
        sound(s.tried(u, far(s.dist[u]), adj[u][k]), adj, a),
        s.tried(u, far(s.dist[u]), adj[u][k]).settled == s.settled,
        forall|x: int|
            s.settled.contains(x) ==> (#[trigger] s.tried(u, far(s.dist[u]), adj[u][k]).dist[x]) == s.dist[x],
{
    let base = far(s.dist[u]);
    let (to, w) = adj[u][k];
    let t = s.tried(u, base, adj[u][k]);
    assert(0 <= to < adj.len());
    order::lemma_constants();
    order::lemma_finite_bounds(Binary64::infinity());
    if t != s {
        let cost = base.plus(w);
        assert(s.settled.contains(s.settled[0]));
        assert(to != a);
        assert(cost.less(Binary64::infinity())) by {
            if s.dist[to] is Some {
                assert(far(s.dist[to]).less(Binary64::infinity()));
            }
        }
        assert forall|x: int| 0 <= x < adj.len() && (#[trigger] t.dist[x]) is Some implies t.order.contains(x) && far(
            t.dist[x],
        ).less(Binary64::infinity()) by {
            if x == to {
                if s.dist[to] is None {
                    assert(t.order[s.order.len() as int] == to);
                } else {
                    assert(s.order.contains(to));
                }
            } else {
                assert(s.dist[x] is Some);
                assert(s.order.contains(x));
                let i = s.order.index_of(x);
                assert(t.order[i] == x);
            }
        }
        assert forall|x: int| 0 <= x < adj.len() && (#[trigger] t.prev[x]) is Some implies x != a && t.dist[x] is Some
            && t.settled.contains(t.prev[x]->0) && over(t, adj, t.prev[x]->0, x) by {
            if x == to {
                assert(adj[u][k].0 == x && far(t.dist[x]) == far(t.dist[u]).plus(adj[u][k].1));
            } else {
                let p = s.prev[x]->0;
                assert(t.prev[x] == s.prev[x]);
                assert(s.settled.contains(p) && over(s, adj, p, x));
                let h = choose|h: int|
                    0 <= h < adj[p].len() && (#[trigger] adj[p][h]).0 == x && far(s.dist[x]) == far(s.dist[p]).plus(
                        adj[p][h].1,
                    );
                assert(adj[p][h].0 == x && far(t.dist[x]) == far(t.dist[p]).plus(adj[p][h].1));
            }
        }
        assert forall|j: int| 0 <= j < t.settled.len() && t.prev[#[trigger] t.settled[j]] is Some implies exists|i: int|
            0 <= i < j && t.settled[i] == t.prev[t.settled[j]]->0 by {
            assert(s.settled.contains(s.settled[j]));
            assert(t.prev[t.settled[j]] == s.prev[s.settled[j]]);
        }
        assert forall|i: int| 0 <= i < t.settled.len() implies 0 <= #[trigger] t.settled[i] < adj.len()
            && t.dist[t.settled[i]] is Some by {
            assert(s.settled[i] == t.settled[i]);
        }
        assert forall|i: int| 0 <= i < t.order.len() implies 0 <= #[trigger] t.order[i] < adj.len()
            && t.dist[t.order[i]] is Some by {
            if i < s.order.len() {
                assert(t.order[i] == s.order[i]);
            }
        }
        assert forall|x: int| 0 <= x < adj.len() && x != a && (#[trigger] t.dist[x]) is Some implies t.prev[x] is Some by {
            if x != to {
                assert(s.dist[x] is Some);
            }
        }
    }
}

/// The search with one more settled node.
spec fn marked(s: Search, u: int) -> Search {
    Search { settled: s.settled.push(u), ..s }
}

proof fn lemma_marked_sound(s: Search, adj: Seq<Seq<(int, Binary64)>>, a: int, u: int)
    requires
        sound(s, adj, a),
        0 <= u < adj.len(),
        !s.settled.contains(u),
        s.dist[u] is Some,
        s.closest(s.order.len()) == Some(u),
    ensures
        sound(marked(s, u), adj, a),
        marked(s, u).settled.contains(u),
{
    let t = marked(s, u);
    assert(t.settled[s.settled.len() as int] == u);
    if s.settled.len() == 0 {
        assert(s.order.len() == 1);
        assert(s.closest(0) is None);
        assert(s.order[0] == a);
        assert(u == a);
    }
    assert forall|x: int| s.settled.contains(x) implies #[trigger] t.settled.contains(x) by {
        let i = s.settled.index_of(x);
        assert(t.settled[i] == x);
    }
    assert forall|x: int| 0 <= x < adj.len() && (#[trigger] t.prev[x]) is Some implies x != a && t.dist[x] is Some
        && t.settled.contains(t.prev[x]->0) && over(t, adj, t.prev[x]->0, x) by {
        let p = s.prev[x]->0;
        assert(s.prev[x] is Some);
        let h = choose|h: int|
            0 <= h < adj[p].len() && (#[trigger] adj[p][h]).0 == x && far(s.dist[x]) == far(s.dist[p]).plus(
                adj[p][h].1,
            );
        assert(adj[p][h].0 == x && far(t.dist[x]) == far(t.dist[p]).plus(adj[p][h].1));
    }
    assert forall|j: int| 0 <= j < t.settled.len() && t.prev[#[trigger] t.settled[j]] is Some implies exists|i: int|
        0 <= i < j && t.settled[i] == t.prev[t.settled[j]]->0 by {
        if j < s.settled.len() {
            assert(t.settled[j] == s.settled[j]);
            let i = choose|i: int| 0 <= i < j && s.settled[i] == s.prev[s.settled[j]]->0;
            assert(t.settled[i] == s.settled[i]);
        } else {
            let p = s.prev[u]->0;
            assert(s.settled.contains(p));
            let i = s.settled.index_of(p);
            assert(t.settled[i] == p);
        }
    }
    assert forall|i: int| 0 <= i < t.settled.len() implies 0 <= #[trigger] t.settled[i] < adj.len()
        && t.dist[t.settled[i]] is Some by {
        if i < s.settled.len() {
            assert(t.settled[i] == s.settled[i]);
        }
    }
}

proof fn lemma_tried_all_sound(s: Search, adj: Seq<Seq<(int, Binary64)>>, a: int, u: int, k: nat)
    requires
        sound(s, adj, a),
        paths::closed(adj),
        0 <= u < adj.len(),
        s.settled.contains(u),
        k <= adj[u].len(),
    ensures
        sound(s.tried_all(u, far(s.dist[u]), adj[u], k), adj, a),
        s.tried_all(u, far(s.dist[u]), adj[u], k).settled == s.settled,
        forall|x: int|
            s.settled.contains(x) ==> (#[trigger] s.tried_all(u, far(s.dist[u]), adj[u], k).dist[x]) == s.dist[x],
    decreases k,
{
    if k > 0 {
        lemma_tried_all_sound(s, adj, a, u, (k - 1) as nat);
        let t = s.tried_all(u, far(s.dist[u]), adj[u], (k - 1) as nat);
        assert(t.dist[u] == s.dist[u]);
        lemma_tried_sound(t, adj, a, u, k - 1);
    }
}

proof fn lemma_explore_sound(s: Search, adj: Seq<Seq<(int, Binary64)>>, a: int, b: int, fuel: nat)
    requires
        sound(s, adj, a),
        paths::closed(adj),
    ensures
        sound(s.explore(adj, b, fuel), adj, a),
    decreases fuel,
{
    if fuel > 0 {
        lemma_closest(s, adj, a, s.order.len());
        match s.closest(s.order.len()) {
            Some(u) => {
                if u != b {
                    lemma_marked_sound(s, adj, a, u);
                    lemma_tried_all_sound(marked(s, u), adj, a, u, adj[u].len());
                    lemma_explore_sound(s.settle(u, adj[u]), adj, a, b, (fuel - 1) as nat);
                }
            },
            None => {},
        }
    }
}

/// The trail to a discovered node is a route whose cost is the distance found.
proof fn lemma_trail(s: Search, adj: Seq<Seq<(int, Binary64)>>, a: int, x: int, bound: nat, fuel: nat) -> (hops: Seq<
    int,
>)
    requires
        sound(s, adj, a),
        paths::closed(adj),
        0 <= x < adj.len(),
        s.dist[x] is Some,
        bound <= fuel,
        bound <= s.settled.len(),
        x == a || exists|i: int| 0 <= i < bound && #[trigger] s.settled[i] == s.prev[x]->0,
    ensures
        route(adj, a, hops),
        end_of(adj, a, hops) == x,
        stops(adj, a, hops) == trail(s.prev, a, x, fuel),
        route_cost(adj, a, hops) == far(s.dist[x]),
    decreases bound,
{
    if x == a {
        Seq::empty()
    } else {
        assert(s.prev[x] is Some);
        let p = s.prev[x]->0;
        let i = choose|i: int| 0 <= i < bound && #[trigger] s.settled[i] == p;
        if p != a {
            assert(s.dist[p] is Some);
            assert(s.prev[p] is Some);
            assert(s.prev[s.settled[i]] is Some);
        }
        let before = lemma_trail(s, adj, a, p, i as nat, (fuel - 1) as nat);
        let k = choose|k: int|
            0 <= k < adj[p].len() && (#[trigger] adj[p][k]).0 == x && far(s.dist[x]) == far(s.dist[p]).plus(adj[p][k].1);
        let hops = before.push(k);
        assert(hops.drop_last() =~= before);
        hops
    }
}

proof fn lemma_settled_bounded(s: Search, adj: Seq<Seq<(int, Binary64)>>, a: int)
    requires
        sound(s, adj, a),
    ensures
        s.settled.len() <= adj.len(),
{
    paths::lemma_distinct_bounded(s.settled, adj.len());
}

/// A path that is found is a route from `a` to `b`: its stops are the path.
pub proof fn lemma_shortest_is_route(adj: Seq<Seq<(int, Binary64)>>, a: int, b: int) -> (hops: Seq<int>)
    requires
        paths::closed(adj),
        0 <= a < adj.len(),
        0 <= b < adj.len(),
    ensures
        shortest(adj, a, b).len() > 0 ==> route(adj, a, hops) && end_of(adj, a, hops) == b && stops(adj, a, hops)
            == shortest(adj, a, b) && route_cost(adj, a, hops) == far(search(adj, a, b).dist[b]),
        (shortest(adj, a, b).len() == 0) == (search(adj, a, b).dist[b] is None),
{
    let first = Search::begin(adj.len(), a);
    lemma_begin_sound(adj, a);
    lemma_explore_sound(first, adj, a, b, adj.len());
    let s = search(adj, a, b);
    lemma_settled_bounded(s, adj, a);
    if s.dist[b] is Some {
        if b != a {
            assert(s.prev[b] is Some);
            let i = s.settled.index_of(s.prev[b]->0);
            assert(s.settled[i] == s.prev[b]->0);
        }
        let hops = lemma_trail(s, adj, a, b, s.settled.len(), adj.len());
        lemma_stops(adj, a, hops);
        hops
    } else {
        Seq::empty()
    }
}

/// The stops of a route are a walk to its end.
pub proof fn lemma_stops(adj: Seq<Seq<(int, Binary64)>>, a: int, hops: Seq<int>)
    requires
        paths::closed(adj),
        0 <= a < adj.len(),
        route(adj, a, hops),
    ensures
        paths::walk(adj, stops(adj, a, hops)),
        stops(adj, a, hops).first() == a,
        stops(adj, a, hops).last() == end_of(adj, a, hops),
        stops(adj, a, hops).len() == hops.len() + 1,
        0 <= end_of(adj, a, hops) < adj.len(),
    decreases hops.len(),
{
    if hops.len() > 0 {
        lemma_stops(adj, a, hops.drop_last());
        let x = end_of(adj, a, hops.drop_last());
        let y = end_of(adj, a, hops);
        assert(adj[x][hops.last()].0 == y);
        assert(paths::adjacent(adj, x, y));
        paths::lemma_walk_extends(adj, stops(adj, a, hops.drop_last()), y);
    }
}

/// Settled nodes are no farther than what lies beyond them over their edges, and no farther than
/// unsettled nodes.
spec fn tight(s: Search, adj: Seq<Seq<(int, Binary64)>>) -> bool {
    &&& forall|x: int, k: int|
        s.settled.contains(x) && 0 <= k < adj[x].len() ==> far(s.dist[(#[trigger] adj[x][k]).0]).at_most(
            far(s.dist[x]).plus(adj[x][k].1),
        )
    &&& forall|x: int, y: int|
        s.settled.contains(x) && 0 <= y < adj.len() && !s.settled.contains(y) ==> (#[trigger] far(s.dist[x])).at_most(
            #[trigger] far(s.dist[y]),
        )
}

/// While the neighbours of `u` are tried: `u` is the farthest settled node, and its first `n`
/// neighbours are done.
spec fn tightening(s: Search, adj: Seq<Seq<(int, Binary64)>>, u: int, n: nat) -> bool {
    &&& forall|x: int, k: int|
        s.settled.contains(x) && 0 <= k < adj[x].len() && (x != u || k < n) ==> far(
            s.dist[(#[trigger] adj[x][k]).0],
        ).at_most(far(s.dist[x]).plus(adj[x][k].1))
    &&& forall|x: int| s.settled.contains(x) ==> (#[trigger] far(s.dist[x])).at_most(far(s.dist[u]))
    &&& forall|y: int|
        0 <= y < adj.len() && !s.settled.contains(y) ==> far(s.dist[u]).at_most(#[trigger] far(s.dist[y]))
}

proof fn lemma_far(s: Search, adj: Seq<Seq<(int, Binary64)>>, a: int, x: int)
    requires
        sound(s, adj, a),
        0 <= x < adj.len(),
    ensures
        !far(s.dist[x]).nan(),
        far(s.dist[x]).at_most(Binary64::infinity()),
{
    order::lemma_constants();
    if s.dist[x] is Some {
        assert(far(s.dist[x]).less(Binary64::infinity()));
    }
}

/// Distances are never negative.
spec fn grounded(s: Search, n: nat) -> bool {
    forall|x: int| 0 <= x < n ==> Binary64::zero().at_most(#[trigger] far(s.dist[x]))
}

proof fn lemma_tried_tightens(s: Search, adj: Seq<Seq<(int, Binary64)>>, a: int, u: int, n: nat)
    requires
        sound(s, adj, a),
        paths::closed(adj),
        nonnegative(adj),
        grounded(s, adj.len()),
        0 <= u < adj.len(),
        s.settled.contains(u),
        n < adj[u].len(),
        tightening(s, adj, u, n),
    ensures
        tightening(s.tried(u, far(s.dist[u]), adj[u][n as int]), adj, u, n + 1),
        grounded(s.tried(u, far(s.dist[u]), adj[u][n as int]), adj.len()),
{
    let base = far(s.dist[u]);
    let (to, w) = adj[u][n as int];
    let cost = base.plus(w);
    let t = s.tried(u, base, adj[u][n as int]);
    lemma_tried_sound(s, adj, a, u, n as int);
    lemma_far(s, adj, a, u);
    lemma_far(s, adj, a, to);
    order::lemma_constants();
    assert(Binary64::zero().at_most(w));
    assert(Binary64::zero().at_most(base));
    order::lemma_finite_bounds(base);
    order::lemma_plus_nonnegative(base, w);
    assert(base.at_most(cost));
    // Distances only fall, and those of settled nodes stay.
    assert forall|y: int| 0 <= y < adj.len() implies (#[trigger] far(t.dist[y])).at_most(far(s.dist[y])) && base.at_most(
        cost,
    ) && Binary64::zero().at_most(far(t.dist[y])) by {
        lemma_far(s, adj, a, y);
        assert(Binary64::zero().at_most(far(s.dist[y])));
    }
    assert(far(t.dist[to]).at_most(cost)) by {
        if s.settled.contains(to) {
            assert(far(s.dist[to]).at_most(base));
        }
    }
    assert forall|x: int, k: int| t.settled.contains(x) && 0 <= k < adj[x].len() && (x != u || k < n + 1) implies far(
        t.dist[(#[trigger] adj[x][k]).0],
    ).at_most(far(t.dist[x]).plus(adj[x][k].1)) by {
        assert(t.dist[x] == s.dist[x]);
        if x == u && k == n {
        } else {
            let i = s.settled.index_of(x);
            assert(s.settled[i] == x);
            assert(0 <= x < adj.len());
            let y = adj[x][k].0;
            assert(far(s.dist[y]).at_most(far(s.dist[x]).plus(adj[x][k].1)));
            assert(far(t.dist[y]).at_most(far(s.dist[y])));
        }
    }
    assert forall|x: int| t.settled.contains(x) implies (#[trigger] far(t.dist[x])).at_most(far(t.dist[u])) by {
        assert(t.dist[x] == s.dist[x]);
        assert(far(s.dist[x]).at_most(far(s.dist[u])));
        assert(t.dist[u] == s.dist[u]);
    }
    assert forall|y: int| 0 <= y < adj.len() && !t.settled.contains(y) implies far(t.dist[u]).at_most(
        #[trigger] far(t.dist[y]),
    ) by {
        assert(t.dist[u] == s.dist[u]);
        assert(far(s.dist[u]).at_most(far(s.dist[y])));
    }
}

proof fn lemma_tried_all_tightens(s: Search, adj: Seq<Seq<(int, Binary64)>>, a: int, u: int, n: nat)
    requires
        sound(s, adj, a),
        paths::closed(adj),
        nonnegative(adj),
        grounded(s, adj.len()),
        0 <= u < adj.len(),
        s.settled.contains(u),
        n <= adj[u].len(),
        tightening(s, adj, u, 0),
    ensures
        tightening(s.tried_all(u, far(s.dist[u]), adj[u], n), adj, u, n),
        grounded(s.tried_all(u, far(s.dist[u]), adj[u], n), adj.len()),
    decreases n,
{
    if n > 0 {
        let m = (n - 1) as nat;
        lemma_tried_all_tightens(s, adj, a, u, m);
        lemma_tried_all_sound(s, adj, a, u, m);
        let t = s.tried_all(u, far(s.dist[u]), adj[u], m);
        assert(t.dist[u] == s.dist[u]);
        lemma_tried_tightens(t, adj, a, u, m);
    }
}

proof fn lemma_explore_tight(s: Search, adj: Seq<Seq<(int, Binary64)>>, a: int, b: int, fuel: nat)
    requires
        sound(s, adj, a),
        paths::closed(adj),
        nonnegative(adj),
        tight(s, adj),
        grounded(s, adj.len()),
        s.settled.len() + fuel == adj.len(),
    ensures
        ({
            let t = s.explore(adj, b, fuel);
            &&& tight(t, adj)
            &&& grounded(t, adj.len())
            &&& t.closest(t.order.len()) is None || t.closest(t.order.len()) == Some(b)
        }),
    decreases fuel,
{
    lemma_closest(s, adj, a, s.order.len());
    if fuel == 0 {
        // Every node is settled.
        if s.closest(s.order.len()) is Some {
            let u = s.closest(s.order.len())->0;
            let more = s.settled.push(u);
            assert forall|i: int| 0 <= i < more.len() implies 0 <= #[trigger] more[i] < adj.len() by {
                if i < s.settled.len() {
                    assert(more[i] == s.settled[i]);
                }
            }
            assert(more.no_duplicates());
            paths::lemma_distinct_bounded(more, adj.len());
        }
    } else {
        match s.closest(s.order.len()) {
            Some(u) => {
                if u != b {
                    let m = marked(s, u);
                    lemma_marked_sound(s, adj, a, u);
                    assert forall|x: int| m.settled.contains(x) implies s.settled.contains(x) || x == u by {
                        let i = m.settled.index_of(x);
                        if i < s.settled.len() {
                            assert(s.settled[i] == x);
                        }
                    }
                    assert forall|x: int| s.settled.contains(x) implies #[trigger] m.settled.contains(x) by {
                        let i = s.settled.index_of(x);
                        assert(m.settled[i] == x);
                    }
                    lemma_far(s, adj, a, u);
                    assert forall|x: int| m.settled.contains(x) implies (#[trigger] far(m.dist[x])).at_most(
                        far(m.dist[u]),
                    ) by {
                        if x != u {
                            assert(far(s.dist[x]).at_most(far(s.dist[u])));
                        }
                    }
                    assert forall|y: int| 0 <= y < adj.len() && !m.settled.contains(y) implies far(m.dist[u]).at_most(
                        #[trigger] far(m.dist[y]),
                    ) by {
                        lemma_far(s, adj, a, y);
                        order::lemma_constants();
                        if s.dist[y] is Some {
                            assert(s.order.contains(y));
                            let i = s.order.index_of(y);
                            assert(s.order[i] == y);
                        } else {
                            assert(far(s.dist[u]).less(Binary64::infinity()));
                        }
                    }
                    assert(tightening(m, adj, u, 0));
                    lemma_tried_all_sound(m, adj, a, u, adj[u].len());
                    lemma_tried_all_tightens(m, adj, a, u, adj[u].len());
                    let t = s.settle(u, adj[u]);
                    assert(t == m.tried_all(u, far(m.dist[u]), adj[u], adj[u].len()));
                    assert(tight(t, adj)) by {
                        assert forall|x: int, y: int|
                            t.settled.contains(x) && 0 <= y < adj.len() && !t.settled.contains(
                                y,
                            ) implies (#[trigger] far(t.dist[x])).at_most(#[trigger] far(t.dist[y])) by {
                            assert(far(t.dist[x]).at_most(far(t.dist[u])));
                            assert(far(t.dist[u]).at_most(far(t.dist[y])));
                        }
                    }
                    lemma_explore_tight(t, adj, a, b, (fuel - 1) as nat);
                }
            },
            None => {},
        }
    }
}

/// Costs are never negative.
proof fn lemma_route_cost(adj: Seq<Seq<(int, Binary64)>>, a: int, hops: Seq<int>)
    requires
        paths::closed(adj),
        nonnegative(adj),
        0 <= a < adj.len(),
        route(adj, a, hops),
    ensures
        Binary64::zero().at_most(route_cost(adj, a, hops)),
    decreases hops.len(),
{
    order::lemma_constants();
    if hops.len() > 0 {
        let before = hops.drop_last();
        lemma_route_cost(adj, a, before);
        lemma_stops(adj, a, before);
        let c = route_cost(adj, a, before);
        order::lemma_plus_grows_nonnegative(c, c, adj[end_of(adj, a, before)][hops.last()].1);
    }
}

/// Along a route, the first unsettled stop, or else the end, is no farther than the route is long.
proof fn lemma_route_bound(s: Search, adj: Seq<Seq<(int, Binary64)>>, a: int, hops: Seq<int>) -> (z: int)
    requires
        sound(s, adj, a),
        paths::closed(adj),
        nonnegative(adj),
        tight(s, adj),
        grounded(s, adj.len()),
        route(adj, a, hops),
    ensures
        0 <= z < adj.len(),
        z == end_of(adj, a, hops) || !s.settled.contains(z),
        far(s.dist[z]).at_most(route_cost(adj, a, hops)),
    decreases hops.len(),
{
    order::lemma_constants();
    if hops.len() == 0 {
        a
    } else {
        let before = hops.drop_last();
        let c = route_cost(adj, a, before);
        let x = end_of(adj, a, before);
        lemma_stops(adj, a, before);
        lemma_route_cost(adj, a, before);
        let w = adj[x][hops.last()].1;
        assert(Binary64::zero().at_most(w));
        let z = lemma_route_bound(s, adj, a, before);
        order::lemma_finite_bounds(c);
        order::lemma_plus_nonnegative(c, w);
        if z != x || !s.settled.contains(z) {
            z
        } else {
            let y = adj[x][hops.last()].0;
            assert(far(s.dist[y]).at_most(far(s.dist[x]).plus(w)));
            assert(Binary64::zero().at_most(far(s.dist[x])));
            order::lemma_plus_grows_nonnegative(far(s.dist[x]), c, w);
            y
        }
    }
}

/// Where no RTT is negative, no route from `a` to `b` costs less than the distance that the search
/// finds; without a path every route costs infinitely much.
pub proof fn lemma_shortest_is_least(adj: Seq<Seq<(int, Binary64)>>, a: int, b: int, hops: Seq<int>)
    requires
        paths::closed(adj),
        nonnegative(adj),
        0 <= a < adj.len(),
        0 <= b < adj.len(),
        route(adj, a, hops),
        end_of(adj, a, hops) == b,
    ensures
        far(search(adj, a, b).dist[b]).at_most(route_cost(adj, a, hops)),
{
    let first = Search::begin(adj.len(), a);
    order::lemma_constants();
    order::lemma_finite_bounds(Binary64::infinity());
    lemma_begin_sound(adj, a);
    lemma_explore_sound(first, adj, a, b, adj.len());
    lemma_explore_tight(first, adj, a, b, adj.len());
    let s = search(adj, a, b);
    let z = lemma_route_bound(s, adj, a, hops);
    if z != b {
        lemma_closest(s, adj, a, s.order.len());
        lemma_far(s, adj, a, z);
        lemma_far(s, adj, a, b);
        if s.dist[z] is Some {
            assert(s.order.contains(z));
            let i = s.order.index_of(z);
            assert(s.order[i] == z);
        }
    }
}

/// The path of a node to itself is the node.
pub proof fn lemma_shortest_to_itself(adj: Seq<Seq<(int, Binary64)>>, a: int)
    requires
        0 <= a < adj.len(),
    ensures
        shortest(adj, a, a) == seq![a],
{
    let s = Search::begin(adj.len(), a);
    order::lemma_constants();
    order::lemma_finite_bounds(Binary64::zero());
    assert(s.closest(0) is None);
    assert(s.order[0] == a);
    assert(s.closest(1) == Some(a));
    assert(s.explore(adj, a, adj.len()) == s);
}

} // verus!
