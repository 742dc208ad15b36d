//! The order of the pool does not matter to a selection.

use crate::api::{JobSpecView, RejectedHostView, Selection};
use crate::binary64::Binary64;
use crate::candidate::CandidateView;
use crate::elementary::Elementary;
use crate::guarantees;
use crate::latency::LatencyModel;
use crate::order;
use crate::prng;
use crate::redundancy;
use crate::scorer::StaticScore;
use crate::selection::{self, Progress, Setting};
use crate::vendor::GroupKey;
use vstd::prelude::*;
use vstd::relations::*;
use vstd::seq_lib::*;

verus! {

// ---- pools in another order ----

/// No two candidates have one id.
pub open spec fn distinct(pool: Seq<CandidateView>) -> bool {
    forall|i: int, j: int| 0 <= i < j < pool.len() ==> (#[trigger] pool[i]).node_id != (#[trigger] pool[j]).node_id
}

/// The candidates of a pool, each with its score.
pub open spec fn pairs(pool: Seq<CandidateView>, scores: Seq<StaticScore>) -> Seq<(CandidateView, StaticScore)> {
    Seq::new(pool.len(), |i: int| (pool[i], scores[i]))
}

/// One candidate of both settings, with one score.
spec fn twins(a: Setting, b: Setting, i: int, j: int) -> bool {
    &&& 0 <= i < a.pool.len()
    &&& 0 <= j < b.pool.len()
    &&& a.pool[i] == b.pool[j]
    &&& a.scores[i] == b.scores[j]
}

/// Two settings that differ only in the order of the pool.
spec fn mirrored(a: Setting, b: Setting) -> bool {
    &&& a.spec == b.spec
    &&& a.graph == b.graph
    &&& a.count == b.count
    &&& a.m == b.m
    &&& a.pool.len() == b.pool.len() <= u32::MAX
    &&& distinct(a.pool)
    &&& distinct(b.pool)
    &&& forall|i: int| 0 <= i < a.pool.len() ==> #[trigger] in_second(a, b, i)
    &&& forall|j: int| 0 <= j < b.pool.len() ==> #[trigger] in_first(a, b, j)
}

/// The candidate of the first setting is in the second.
spec fn in_second(a: Setting, b: Setting, i: int) -> bool {
    exists|j: int| twins(a, b, i, j)
}

/// The candidate of the second setting is in the first.
spec fn in_first(a: Setting, b: Setting, j: int) -> bool {
    exists|i: int| twins(a, b, i, j)
}

/// Picks of one candidate after the other.
spec fn paired(a: Setting, b: Setting, x: Seq<int>, y: Seq<int>) -> bool {
    &&& x.len() == y.len()
    &&& forall|r: int| 0 <= r < x.len() ==> twins(a, b, #[trigger] x[r], #[trigger] y[r])
}

proof fn lemma_twins_unique(a: Setting, b: Setting, i: int, j: int, k: int)
    requires
        mirrored(a, b),
    ensures
        twins(a, b, i, j) && twins(a, b, k, j) ==> i == k,
        twins(a, b, j, i) && twins(a, b, j, k) ==> i == k,
{
}

// ---- a round ----

proof fn lemma_members(a: Setting, b: Setting, x: Seq<int>, y: Seq<int>)
    requires
        mirrored(a, b),
        paired(a, b, x, y),
    ensures
        a.members(x) == b.members(y),
        forall|id: Seq<char>| a.taken(x, id) == #[trigger] b.taken(y, id),
        forall|c: CandidateView, level: int|
            a.gate(c, a.members(x), level) == #[trigger] b.gate(c, b.members(y), level),
        forall|i: int, j: int| #[trigger] twins(a, b, i, j) ==> a.live_score(x, i) == b.live_score(y, j),
        forall|i: int, j: int, level: int|
            #![trigger twins(a, b, i, j), b.admits(y, level, j)]
            twins(a, b, i, j) ==> a.admits(x, level, i) == b.admits(y, level, j),
{
    assert forall|r: int| 0 <= r < x.len() implies a.members(x)[r] == b.members(y)[r] by {
        assert(twins(a, b, x[r], y[r]));
    }
    assert(a.members(x) =~= b.members(y));
    assert forall|id: Seq<char>| a.taken(x, id) == #[trigger] b.taken(y, id) by {
        if a.taken(x, id) {
            let r = choose|r: int| 0 <= r < x.len() && a.pool[#[trigger] x[r]].node_id == id;
            assert(twins(a, b, x[r], y[r]));
        }
        if b.taken(y, id) {
            let r = choose|r: int| 0 <= r < y.len() && b.pool[#[trigger] y[r]].node_id == id;
            assert(twins(a, b, x[r], y[r]));
        }
    }
}

/// A sequence without duplicates is sorted in one way only.
proof fn lemma_sorted_alike<A>(x: Seq<A>, y: Seq<A>, leq: spec_fn(A, A) -> bool)
    requires
        total_ordering(leq),
        sorted_by(x, leq),
        sorted_by(y, leq),
        x.no_duplicates(),
        y.no_duplicates(),
        forall|e: A| #[trigger] x.contains(e) <==> y.contains(e),
    ensures
        x == y,
{
    lemma_same_multiset(x, y);
    lemma_sorted_unique(x, y, leq);
}

proof fn lemma_same_multiset<A>(x: Seq<A>, y: Seq<A>)
    requires
        x.no_duplicates(),
        y.no_duplicates(),
        forall|e: A| #[trigger] x.contains(e) <==> y.contains(e),
    ensures
        x.to_multiset() == y.to_multiset(),
{
    broadcast use group_to_multiset_ensures;

    x.lemma_multiset_has_no_duplicates();
    y.lemma_multiset_has_no_duplicates();
    assert forall|e: A| #[trigger] x.to_multiset().count(e) == y.to_multiset().count(e) by {
        assert(x.contains(e) <==> x.to_multiset().count(e) > 0);
        assert(y.contains(e) <==> y.to_multiset().count(e) > 0);
    }
    assert(x.to_multiset() =~= y.to_multiset());
}

proof fn lemma_live_ascends(set: Setting, chosen: Seq<int>, level: int, n: nat)
    ensures
        forall|i: int, j: int|
            0 <= i < j < set.live(chosen, level, n).len() ==> (#[trigger] set.live(chosen, level, n)[i]).0 < (
            #[trigger] set.live(chosen, level, n)[j]).0,
        forall|i: int| 0 <= i < set.live(chosen, level, n).len() ==> 0 <= (#[trigger] set.live(chosen, level, n)[i]).0 < n,
    decreases n,
{
    if n > 0 {
        lemma_live_ascends(set, chosen, level, (n - 1) as nat);
        let rest = set.live(chosen, level, (n - 1) as nat);
        let all = set.live(chosen, level, n);
        assert forall|i: int| 0 <= i < all.len() implies 0 <= (#[trigger] all[i]).0 < n by {
            if i < rest.len() {
                assert(all[i] == rest[i]);
            }
        }
        assert forall|i: int, j: int| 0 <= i < j < all.len() implies (#[trigger] all[i]).0 < (#[trigger] all[j]).0 by {
            assert(all[i] == rest[i]);
            if j < rest.len() {
                assert(all[j] == rest[j]);
            }
        }
    }
}

/// A ranking holds each admitted candidate once.
proof fn lemma_ranking(set: Setting, chosen: Seq<int>, level: int)
    ensures
        ({
            let r = set.ranked(chosen, level);
            &&& r.len() == set.live(chosen, level, set.pool.len()).len()
            &&& r.no_duplicates()
            &&& sorted_by(r, set.ranks())
            &&& forall|x: (int, Binary64)|
                #[trigger] r.contains(x) <==> 0 <= x.0 < set.pool.len() && set.admits(chosen, level, x.0) && x.1
                    == set.live_score(chosen, x.0)
        }),
{
    let live = set.live(chosen, level, set.pool.len());
    let r = set.ranked(chosen, level);
    selection::lemma_ranks_total(set);
    live.lemma_sort_by_ensures(set.ranks());
    guarantees::lemma_ranked(set, chosen, level);
    lemma_live_ascends(set, chosen, level, set.pool.len());
    assert(live.no_duplicates());
    live.lemma_multiset_has_no_duplicates();
    r.lemma_multiset_has_no_duplicates_conv();
    assert forall|x: (int, Binary64)| #[trigger] r.contains(x) <==> 0 <= x.0 < set.pool.len() && set.admits(
        chosen,
        level,
        x.0,
    ) && x.1 == set.live_score(chosen, x.0) by {
        if r.contains(x) {
            assert(live.contains(x));
            let j = choose|j: int| 0 <= j < live.len() && live[j] == x;
            guarantees::lemma_live_entry(set, chosen, level, set.pool.len(), j);
        }
        if 0 <= x.0 < set.pool.len() && set.admits(chosen, level, x.0) && x.1 == set.live_score(chosen, x.0) {
            guarantees::lemma_live_complete(set, chosen, level, set.pool.len(), x.0);
        }
    }
}

/// The candidate of the first setting that is the `j`-th of the second.
spec fn twin(a: Setting, b: Setting, j: int) -> int {
    choose|i: int| twins(a, b, i, j)
}

/// Rankings of one candidate after the other, with one score.
spec fn ranked_alike(a: Setting, b: Setting, r: Seq<(int, Binary64)>, s: Seq<(int, Binary64)>) -> bool {
    &&& r.len() == s.len()
    &&& forall|k: int|
        0 <= k < r.len() ==> twins(a, b, (#[trigger] r[k]).0, (#[trigger] s[k]).0) && r[k].1 == s[k].1
}

proof fn lemma_ranked_alike(a: Setting, b: Setting, x: Seq<int>, y: Seq<int>, level: int)
    requires
        mirrored(a, b),
        paired(a, b, x, y),
    ensures
        ranked_alike(a, b, a.ranked(x, level), b.ranked(y, level)),
{
    let r = a.ranked(x, level);
    let s = b.ranked(y, level);
    let f = |e: (int, Binary64)| (twin(a, b, e.0), e.1);
    let t = s.map_values(f);
    lemma_members(a, b, x, y);
    lemma_ranking(a, x, level);
    lemma_ranking(b, y, level);
    selection::lemma_ranks_total(a);
    assert forall|k: int| 0 <= k < s.len() implies twins(a, b, (#[trigger] t[k]).0, s[k].0) by {
        assert(s.contains(s[k]));
        assert(in_first(a, b, s[k].0));
    }
    assert forall|i: int, j: int| 0 <= i < j < t.len() implies (a.ranks())(#[trigger] t[i], #[trigger] t[j]) by {
        assert((b.ranks())(s[i], s[j]));
        assert(twins(a, b, t[i].0, s[i].0) && twins(a, b, t[j].0, s[j].0));
        if s[i].0 == s[j].0 {
            assert(s.contains(s[i]) && s.contains(s[j]));
            assert(s[i] == s[j]);
        }
    }
    assert(sorted_by(t, a.ranks()));
    assert(t.no_duplicates()) by {
        assert forall|i: int, j: int| 0 <= i < t.len() && 0 <= j < t.len() && i != j implies t[i] != t[j] by {
            assert(twins(a, b, t[i].0, s[i].0) && twins(a, b, t[j].0, s[j].0));
            assert(s.contains(s[i]) && s.contains(s[j]));
            if t[i] == t[j] {
                lemma_twins_unique(a, b, s[i].0, t[i].0, s[j].0);
                assert(s[i] == s[j]);
            }
        }
    }
    assert forall|e: (int, Binary64)| #[trigger] r.contains(e) <==> t.contains(e) by {
        if r.contains(e) {
            assert(in_second(a, b, e.0));
            let j = choose|j: int| twins(a, b, e.0, j);
            assert(twins(a, b, e.0, j));
            assert(b.admits(y, level, j));
            assert(s.contains((j, e.1)));
            let k = choose|k: int| 0 <= k < s.len() && s[k] == (j, e.1);
            assert(twins(a, b, t[k].0, s[k].0));
            lemma_twins_unique(a, b, e.0, j, t[k].0);
            assert(t[k] == e);
        }
        if t.contains(e) {
            let k = choose|k: int| 0 <= k < t.len() && t[k] == e;
            assert(twins(a, b, t[k].0, s[k].0));
            assert(s.contains(s[k]));
            assert(b.admits(y, level, s[k].0));
        }
    }
    lemma_sorted_alike(r, t, a.ranks());
}

proof fn lemma_level_alike(a: Setting, b: Setting, x: Seq<int>, y: Seq<int>, level: int)
    requires
        mirrored(a, b),
        paired(a, b, x, y),
    ensures
        a.level_from(x, level) == b.level_from(y, level),
    decreases 4 - level,
{
    if level <= 3 {
        lemma_ranked_alike(a, b, x, y, level);
        lemma_ranking(a, x, level);
        lemma_ranking(b, y, level);
        lemma_level_alike(a, b, x, y, level + 1);
    }
}

proof fn lemma_top_alike(a: Setting, b: Setting, r: Seq<(int, Binary64)>, s: Seq<(int, Binary64)>)
    requires
        ranked_alike(a, b, r, s),
    ensures
        selection::top_score(r) == selection::top_score(s),
    decreases r.len(),
{
    if r.len() > 0 {
        let k = r.len() - 1;
        assert(twins(a, b, r[k].0, s[k].0) && r[k].1 == s[k].1);
        assert forall|k: int| 0 <= k < r.drop_last().len() implies twins(
            a,
            b,
            (#[trigger] r.drop_last()[k]).0,
            (#[trigger] s.drop_last()[k]).0,
        ) && r.drop_last()[k].1 == s.drop_last()[k].1 by {
            assert(twins(a, b, r[k].0, s[k].0));
        }
        lemma_top_alike(a, b, r.drop_last(), s.drop_last());
    }
}

proof fn lemma_ties_alike(
    a: Setting,
    b: Setting,
    r: Seq<(int, Binary64)>,
    s: Seq<(int, Binary64)>,
    window: Binary64,
    n: nat,
)
    requires
        ranked_alike(a, b, r, s),
        n <= r.len(),
    ensures
        paired(a, b, selection::near_ties(r, window, n), selection::near_ties(s, window, n)),
    decreases n,
{
    if n > 0 {
        lemma_ties_alike(a, b, r, s, window, (n - 1) as nat);
        assert(twins(a, b, r[n - 1].0, s[n - 1].0));
        assert(twins(a, b, r[0].0, s[0].0));
    }
}

proof fn lemma_pick_alike(a: Setting, b: Setting, r: Seq<(int, Binary64)>, s: Seq<(int, Binary64)>, rand: u32)
    requires
        mirrored(a, b),
        ranked_alike(a, b, r, s),
        0 < r.len() <= u32::MAX,
    ensures
        twins(a, b, a.pick(r, rand).0, b.pick(s, rand).0),
        a.pick(r, rand).1 == b.pick(s, rand).1,
{
    assert(twins(a, b, r[0].0, s[0].0));
    if a.spec.selection == Some(Selection::Weighted) {
        let v = selection::softmax_weights(r, a.spec, a.m);
        let w = selection::softmax_weights(s, b.spec, b.m);
        lemma_top_alike(a, b, r, s);
        assert forall|k: int| 0 <= k < v.len() implies v[k] == w[k] by {
            assert(twins(a, b, r[k].0, s[k].0) && r[k].1 == s[k].1);
        }
        assert(v =~= w);
        guarantees::lemma_used_up(v, prng::drawn(prng::advance(rand)).times(selection::total_weight(v)), 0);
        let i = selection::sampled(v, rand).0;
        assert(twins(a, b, r[i].0, s[i].0));
    } else {
        let window = selection::tie_window(a.spec);
        let x = selection::near_ties(r, window, r.len());
        let y = selection::near_ties(s, window, s.len());
        lemma_ties_alike(a, b, r, s, window, r.len());
        guarantees::lemma_near_ties(r, window, r.len());
        if x.len() > 1 {
            let d = prng::advance(rand);
            prng::lemma_drawn_position(d, x.len() as int);
            let j = prng::drawn(d).times(Binary64::fraction(x.len() as int, 1)).floor();
            assert(twins(a, b, x[j], y[j]));
        }
    }
}

/// A candidate that the unrelaxed caps hold back.
spec fn blocked(set: Setting, chosen: Seq<int>, k: int) -> bool {
    !set.taken(chosen, set.pool[k].node_id) && set.gate(set.pool[k], set.members(chosen), 0) is Some
}

proof fn lemma_noted(set: Setting, chosen: Seq<int>, held: Map<Seq<char>, bool>, n: nat)
    requires
        distinct(set.pool),
        n <= set.pool.len(),
    ensures
        forall|id: Seq<char>|
            #[trigger] set.noted(chosen, held, n).contains_key(id) <==> held.contains_key(id) || exists|k: int|
                0 <= k < n && (#[trigger] set.pool[k]).node_id == id && blocked(set, chosen, k),
        forall|id: Seq<char>|
            held.contains_key(id) ==> #[trigger] set.noted(chosen, held, n)[id] == held[id],
        forall|k: int|
            0 <= k < n && blocked(set, chosen, k) && !held.contains_key(set.pool[k].node_id) ==> set.noted(
                chosen,
                held,
                n,
            )[(#[trigger] set.pool[k]).node_id] == (set.gate(set.pool[k], set.members(chosen), 0) == Some(
                GroupKey::Operator,
            )),
    decreases n,
{
    if n > 0 {
        let m = (n - 1) as nat;
        lemma_noted(set, chosen, held, m);
        let before = set.noted(chosen, held, m);
        let all = set.noted(chosen, held, n);
        let c = set.pool[n - 1];
        assert forall|id: Seq<char>| #[trigger] all.contains_key(id) <==> held.contains_key(id) || exists|k: int|
            0 <= k < n && (#[trigger] set.pool[k]).node_id == id && blocked(set, chosen, k) by {
            assert(before.contains_key(id) <==> held.contains_key(id) || exists|k: int|
                0 <= k < m && (#[trigger] set.pool[k]).node_id == id && blocked(set, chosen, k));
            if all.contains_key(id) && !before.contains_key(id) {
                assert(set.pool[n - 1].node_id == id && blocked(set, chosen, n - 1));
            }
            if exists|k: int| 0 <= k < n && (#[trigger] set.pool[k]).node_id == id && blocked(set, chosen, k) {
                let k = choose|k: int| 0 <= k < n && (#[trigger] set.pool[k]).node_id == id && blocked(set, chosen, k);
                if k < m {
                    assert(before.contains_key(id));
                }
            }
        }
        assert forall|id: Seq<char>| held.contains_key(id) implies #[trigger] all[id] == held[id] by {
            assert(before.contains_key(id));
            assert(before[id] == held[id]);
        }
        assert forall|k: int|
            0 <= k < n && blocked(set, chosen, k) && !held.contains_key(set.pool[k].node_id) implies all[(
        #[trigger] set.pool[k]).node_id] == (set.gate(set.pool[k], set.members(chosen), 0) == Some(GroupKey::Operator)) by {
            let id = set.pool[k].node_id;
            if k < m {
                assert(before.contains_key(id));
                assert(c.node_id != id);
            } else {
                assert(!before.contains_key(id)) by {
                    if before.contains_key(id) {
                        let j = choose|j: int|
                            0 <= j < m && (#[trigger] set.pool[j]).node_id == id && blocked(set, chosen, j);
                        assert(set.pool[j].node_id != set.pool[k].node_id);
                    }
                }
            }
        }
    }
}

proof fn lemma_noted_alike(a: Setting, b: Setting, x: Seq<int>, y: Seq<int>, held: Map<Seq<char>, bool>)
    requires
        mirrored(a, b),
        paired(a, b, x, y),
    ensures
        a.noted(x, held, a.pool.len()) == b.noted(y, held, b.pool.len()),
{
    let p = a.noted(x, held, a.pool.len());
    let q = b.noted(y, held, b.pool.len());
    lemma_members(a, b, x, y);
    lemma_noted(a, x, held, a.pool.len());
    lemma_noted(b, y, held, b.pool.len());
    assert forall|id: Seq<char>| #[trigger] p.contains_key(id) == q.contains_key(id) && (p.contains_key(id) ==> p[id]
        == q[id]) by {
        if !held.contains_key(id) {
            if p.contains_key(id) {
                let i = choose|i: int| 0 <= i < a.pool.len() && (#[trigger] a.pool[i]).node_id == id && blocked(a, x, i);
                assert(in_second(a, b, i));
                let j = choose|j: int| twins(a, b, i, j);
                assert(twins(a, b, i, j));
                assert(b.gate(b.pool[j], b.members(y), 0) == a.gate(a.pool[i], a.members(x), 0));
                assert(b.pool[j].node_id == id && blocked(b, y, j));
            } else if q.contains_key(id) {
                let j = choose|j: int| 0 <= j < b.pool.len() && (#[trigger] b.pool[j]).node_id == id && blocked(b, y, j);
                assert(in_first(a, b, j));
                let i = choose|i: int| twins(a, b, i, j);
                assert(twins(a, b, i, j));
                assert(b.gate(b.pool[j], b.members(y), 0) == a.gate(a.pool[i], a.members(x), 0));
                assert(a.pool[i].node_id == id && blocked(a, x, i));
            }
        }
    }
    assert(p =~= q);
}

// ---- every state ----

spec fn in_step(a: Setting, b: Setting, p: Progress, q: Progress) -> bool {
    &&& paired(a, b, p.chosen, q.chosen)
    &&& p.rand == q.rand
    &&& p.loosest == q.loosest
    &&& p.held == q.held
}

proof fn lemma_run_alike(a: Setting, b: Setting, p: Progress, q: Progress)
    requires
        mirrored(a, b),
        in_step(a, b, p, q),
    ensures
        in_step(a, b, a.run(p), b.run(q)),
    decreases a.count - p.chosen.len(),
{
    if a.unfinished(p) {
        lemma_noted_alike(a, b, p.chosen, q.chosen, p.held);
        lemma_level_alike(a, b, p.chosen, q.chosen, 0);
        match a.level_from(p.chosen, 0) {
            Some(level) => {
                let r = a.ranked(p.chosen, level);
                let s = b.ranked(q.chosen, level);
                guarantees::lemma_level_from(a, p.chosen, 0);
                lemma_ranked_alike(a, b, p.chosen, q.chosen, level);
                lemma_ranking(a, p.chosen, level);
                guarantees::lemma_live_len(a, p.chosen, level, a.pool.len());
                lemma_pick_alike(a, b, r, s, p.rand);
                let (i, rand) = a.pick(r, p.rand);
                let (j, same) = b.pick(s, q.rand);
                let held = a.noted(p.chosen, p.held, a.pool.len());
                let loosest = if level > p.loosest { level } else { p.loosest };
                lemma_run_alike(
                    a,
                    b,
                    Progress { chosen: p.chosen.push(i), rand, loosest, held: held.remove(a.pool[i].node_id) },
                    Progress { chosen: q.chosen.push(j), rand, loosest, held: held.remove(b.pool[j].node_id) },
                );
            },
            None => {},
        }
    }
}

/// What is listed as rejected, each candidate once.
proof fn lemma_rejected(set: Setting, p: Progress, n: nat)
    requires
        distinct(set.pool),
        n <= set.pool.len(),
    ensures
        set.rejected(p, n).no_duplicates(),
        forall|e: RejectedHostView|
            #[trigger] set.rejected(p, n).contains(e) <==> exists|k: int|
                0 <= k < n && (#[trigger] set.pool[k]).node_id == e.node_id && !set.taken(p.chosen, e.node_id) && e.reason
                    == set.reason(p.held, k),
    decreases n,
{
    if n > 0 {
        let m = (n - 1) as nat;
        lemma_rejected(set, p, m);
        let rest = set.rejected(p, m);
        let all = set.rejected(p, n);
        let id = set.pool[n - 1].node_id;
        let new = RejectedHostView { node_id: id, reason: set.reason(p.held, n - 1) };
        assert forall|e: RejectedHostView| #[trigger] all.contains(e) <==> exists|k: int|
            0 <= k < n && (#[trigger] set.pool[k]).node_id == e.node_id && !set.taken(p.chosen, e.node_id) && e.reason
                == set.reason(p.held, k) by {
            assert(rest.contains(e) <==> exists|k: int|
                0 <= k < m && (#[trigger] set.pool[k]).node_id == e.node_id && !set.taken(p.chosen, e.node_id) && e.reason
                    == set.reason(p.held, k));
            if all.contains(e) {
                let i = choose|i: int| 0 <= i < all.len() && all[i] == e;
                if i < rest.len() {
                    assert(rest[i] == e);
                    assert(rest.contains(e));
                } else {
                    assert(set.pool[n - 1].node_id == e.node_id);
                }
            }
            if exists|k: int|
                0 <= k < n && (#[trigger] set.pool[k]).node_id == e.node_id && !set.taken(p.chosen, e.node_id) && e.reason
                    == set.reason(p.held, k) {
                let k = choose|k: int|
                    0 <= k < n && (#[trigger] set.pool[k]).node_id == e.node_id && !set.taken(p.chosen, e.node_id)
                        && e.reason == set.reason(p.held, k);
                if k < m {
                    assert(rest.contains(e));
                    let i = choose|i: int| 0 <= i < rest.len() && rest[i] == e;
                    assert(all[i] == e);
                } else {
                    assert(all[all.len() - 1] == e);
                }
            }
        }
        assert(!rest.contains(new)) by {
            if rest.contains(new) {
                let k = choose|k: int|
                    0 <= k < m && (#[trigger] set.pool[k]).node_id == new.node_id && !set.taken(p.chosen, new.node_id)
                        && new.reason == set.reason(p.held, k);
                assert(set.pool[k].node_id != set.pool[n - 1].node_id);
            }
        }
        assert(all.no_duplicates()) by {
            assert forall|i: int, j: int| 0 <= i < all.len() && 0 <= j < all.len() && i != j implies all[i] != all[j] by {
                if i < rest.len() && j < rest.len() {
                    assert(rest[i] != rest[j]);
                } else if i < rest.len() {
                    assert(rest.contains(rest[i]));
                } else {
                    assert(rest.contains(rest[j]));
                }
            }
        }
    }
}

proof fn lemma_rejected_alike(a: Setting, b: Setting, p: Progress, q: Progress)
    requires
        mirrored(a, b),
        in_step(a, b, p, q),
    ensures
        a.rejected(p, a.pool.len()).to_multiset() == b.rejected(q, b.pool.len()).to_multiset(),
{
    let x = a.rejected(p, a.pool.len());
    let y = b.rejected(q, b.pool.len());
    lemma_members(a, b, p.chosen, q.chosen);
    lemma_rejected(a, p, a.pool.len());
    lemma_rejected(b, q, b.pool.len());
    assert forall|e: RejectedHostView| #[trigger] x.contains(e) <==> y.contains(e) by {
        assert(a.taken(p.chosen, e.node_id) == b.taken(q.chosen, e.node_id));
        if x.contains(e) {
            let i = choose|i: int|
                0 <= i < a.pool.len() && (#[trigger] a.pool[i]).node_id == e.node_id && !a.taken(p.chosen, e.node_id)
                    && e.reason == a.reason(p.held, i);
            assert(in_second(a, b, i));
            let j = choose|j: int| twins(a, b, i, j);
            assert(twins(a, b, i, j));
            assert(b.pool[j].node_id == e.node_id);
        }
        if y.contains(e) {
            let j = choose|j: int|
                0 <= j < b.pool.len() && (#[trigger] b.pool[j]).node_id == e.node_id && !b.taken(q.chosen, e.node_id)
                    && e.reason == b.reason(q.held, j);
            assert(in_first(a, b, j));
            let i = choose|i: int| twins(a, b, i, j);
            assert(twins(a, b, i, j));
            assert(a.pool[i].node_id == e.node_id);
        }
    }
    lemma_same_multiset(x, y);
}

// ---- the law ----

/// The best trust is nothing, or that of a candidate.
proof fn lemma_best_is_someones(pool: Seq<CandidateView>, spec: JobSpecView, m: spec_fn(Elementary, Binary64) -> Binary64)
    ensures
        redundancy::best_trust(pool, spec, m) == Binary64::zero() || redundancy::best_trust(pool, spec, m).value() > 0
            && exists|i: int|
            0 <= i < pool.len() && redundancy::coarse_trust(#[trigger] pool[i], spec, m) == redundancy::best_trust(
                pool,
                spec,
                m,
            ),
    decreases pool.len(),
{
    order::lemma_constants();
    if pool.len() > 0 {
        let rest = pool.drop_last();
        lemma_best_is_someones(rest, spec, m);
        redundancy::lemma_best_trust(rest, spec, m);
        let old = redundancy::best_trust(rest, spec, m);
        let new = redundancy::best_trust(pool, spec, m);
        if new == old {
            if old != Binary64::zero() {
                let i = choose|i: int| 0 <= i < rest.len() && redundancy::coarse_trust(#[trigger] rest[i], spec, m) == old;
                assert(pool[i] == rest[i]);
            }
        } else {
            assert(pool[pool.len() - 1] == pool.last());
            redundancy::lemma_best_trust(pool, spec, m);
        }
    }
}

proof fn lemma_best_at_most(
    pool: Seq<CandidateView>,
    other: Seq<CandidateView>,
    spec: JobSpecView,
    m: spec_fn(Elementary, Binary64) -> Binary64,
)
    requires
        forall|i: int| 0 <= i < pool.len() ==> other.contains(#[trigger] pool[i]),
    ensures
        redundancy::best_trust(pool, spec, m).value() <= redundancy::best_trust(other, spec, m).value(),
{
    let best = redundancy::best_trust(pool, spec, m);
    order::lemma_constants();
    lemma_best_is_someones(pool, spec, m);
    redundancy::lemma_best_trust(other, spec, m);
    if best != Binary64::zero() {
        let i = choose|i: int| 0 <= i < pool.len() && redundancy::coarse_trust(#[trigger] pool[i], spec, m) == best;
        assert(other.contains(pool[i]));
        let j = choose|j: int| 0 <= j < other.len() && other[j] == pool[i];
        assert(redundancy::coarse_trust(other[j], spec, m).at_most(redundancy::best_trust(other, spec, m)));
    }
}

proof fn lemma_best_alike(
    pool: Seq<CandidateView>,
    other: Seq<CandidateView>,
    spec: JobSpecView,
    m: spec_fn(Elementary, Binary64) -> Binary64,
)
    requires
        forall|i: int| 0 <= i < pool.len() ==> other.contains(#[trigger] pool[i]),
        forall|i: int| 0 <= i < other.len() ==> pool.contains(#[trigger] other[i]),
    ensures
        redundancy::best_trust(pool, spec, m) == redundancy::best_trust(other, spec, m),
{
    let x = redundancy::best_trust(pool, spec, m);
    let y = redundancy::best_trust(other, spec, m);
    order::lemma_constants();
    lemma_best_at_most(pool, other, spec, m);
    lemma_best_at_most(other, pool, spec, m);
    lemma_best_is_someones(pool, spec, m);
    lemma_best_is_someones(other, spec, m);
    redundancy::lemma_best_trust(pool, spec, m);
    redundancy::lemma_best_trust(other, spec, m);
    if x.value() > 0 {
        order::lemma_same_value(x, y);
    }
}

/// A selection does not depend on the order of the pool: with the same candidates, of distinct ids, and
/// the same score for each, the targets are the same in the same order, as are the relaxations, the
/// shortfall and the count aimed for, and the same hosts are rejected for the same reasons.
pub proof fn lemma_pool_order_does_not_matter(
    pool: Seq<CandidateView>,
    scores: Seq<StaticScore>,
    other: Seq<CandidateView>,
    other_scores: Seq<StaticScore>,
    spec: JobSpecView,
    graph: Option<LatencyModel>,
    seed: u32,
    m: spec_fn(Elementary, Binary64) -> Binary64,
)
    requires
        pool.len() <= u32::MAX,
        distinct(pool),
        distinct(other),
        pairs(pool, scores).to_multiset() == pairs(other, other_scores).to_multiset(),
    ensures
        ({
            let r = selection::selected(pool, spec, graph, seed, scores, m);
            let s = selection::selected(other, spec, graph, seed, other_scores, m);
            &&& r.targets == s.targets
            &&& r.relaxed == s.relaxed
            &&& r.shortfall == s.shortfall
            &&& r.effective_k == s.effective_k
            &&& r.rejected.to_multiset() == s.rejected.to_multiset()
        }),
{
    broadcast use group_to_multiset_ensures;

    let x = pairs(pool, scores);
    let y = pairs(other, other_scores);
    assert(x.to_multiset().len() == x.len() && y.to_multiset().len() == y.len());
    assert forall|i: int| 0 <= i < x.len() implies y.contains(#[trigger] x[i]) by {
        assert(x.contains(x[i]));
        assert(y.to_multiset().count(x[i]) > 0);
    }
    assert forall|j: int| 0 <= j < y.len() implies x.contains(#[trigger] y[j]) by {
        assert(y.contains(y[j]));
        assert(x.to_multiset().count(y[j]) > 0);
    }
    assert forall|i: int| 0 <= i < pool.len() implies other.contains(#[trigger] pool[i]) by {
        assert(y.contains(x[i]));
        let j = choose|j: int| 0 <= j < y.len() && y[j] == x[i];
        assert(other[j] == pool[i]);
    }
    assert forall|j: int| 0 <= j < other.len() implies pool.contains(#[trigger] other[j]) by {
        assert(x.contains(y[j]));
        let i = choose|i: int| 0 <= i < x.len() && x[i] == y[j];
        assert(pool[i] == other[j]);
    }
    lemma_best_alike(pool, other, spec, m);
    let count = redundancy::effective_count(pool, spec, m);
    let a = selection::setting_of(pool, spec, graph, scores, count, m);
    let b = selection::setting_of(other, spec, graph, other_scores, count, m);
    assert forall|i: int| 0 <= i < a.pool.len() implies #[trigger] in_second(a, b, i) by {
        assert(y.contains(x[i]));
        let j = choose|j: int| 0 <= j < y.len() && y[j] == x[i];
        assert(twins(a, b, i, j));
    }
    assert forall|j: int| 0 <= j < b.pool.len() implies #[trigger] in_first(a, b, j) by {
        assert(x.contains(y[j]));
        let i = choose|i: int| 0 <= i < x.len() && x[i] == y[j];
        assert(twins(a, b, i, j));
    }
    lemma_run_alike(a, b, a.start(seed), b.start(seed));
    let p = a.run(a.start(seed));
    let q = b.run(b.start(seed));
    lemma_rejected_alike(a, b, p, q);
    assert forall|r: int| 0 <= r < p.chosen.len() implies a.target(p.chosen, r) == b.target(q.chosen, r) by {
        assert(twins(a, b, p.chosen[r], q.chosen[r]));
    }
    assert(a.outcome(p).targets =~= b.outcome(q).targets);
}

} // verus!
