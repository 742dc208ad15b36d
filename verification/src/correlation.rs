//! What the correlation groups, the caps and the diversity penalty promise.

use crate::api::JobSpecView;
use crate::binary64::{self, Binary64};
use crate::candidate::CandidateView;
use crate::order;
use crate::partition;
use crate::roster;
use crate::selection;
use crate::text;
use crate::vendor::{self, LinkKey};
use vstd::prelude::*;

verus! {

// ---- clusters ----

/// Two candidates share a value in a name space.
pub open spec fn share_value(a: CandidateView, b: CandidateView, key: LinkKey) -> bool {
    &&& vendor::link_value(vendor::groups_of(a), key) is Some
    &&& vendor::link_value(vendor::groups_of(a), key) == vendor::link_value(vendor::groups_of(b), key)
}

/// Two candidates are of one node, or share an operator, a real network or a real region.
pub open spec fn correlated(a: CandidateView, b: CandidateView) -> bool {
    ||| a.node_id == b.node_id
    ||| share_value(a, b, LinkKey::Operator)
    ||| share_value(a, b, LinkKey::Asn)
    ||| share_value(a, b, LinkKey::Region)
}

/// A chain of candidates, each correlated with the next.
pub open spec fn chain(pool: Seq<CandidateView>, path: Seq<int>) -> bool {
    &&& path.len() > 0
    &&& forall|k: int| 0 <= k < path.len() ==> 0 <= #[trigger] path[k] < pool.len()
    &&& forall|k: int| 0 <= k < path.len() - 1 ==> correlated(pool[#[trigger] path[k]], pool[path[k + 1]])
}

/// Two candidates are joined by a chain.
pub open spec fn chained(pool: Seq<CandidateView>, i: int, j: int) -> bool {
    exists|path: Seq<int>| #[trigger] chain(pool, path) && path.first() == i && path.last() == j
}

/// Every link of a candidate is among the links of the pool.
proof fn lemma_link_is_made(pool: Seq<CandidateView>, i: int, key: LinkKey, n: nat) -> (k: int)
    requires
        0 <= i < n <= pool.len(),
        vendor::value_at(pool, i, key) is Some,
    ensures
        0 <= k < vendor::cluster_links(pool, n).len(),
        vendor::cluster_links(pool, n)[k] == (vendor::first_with(pool, key, vendor::value_at(pool, i, key)->0, 0), i),
    decreases n,
{
    let rest = vendor::cluster_links(pool, (n - 1) as nat);
    if i < n - 1 {
        lemma_link_is_made(pool, i, key, (n - 1) as nat)
    } else {
        let o = vendor::link_of(pool, n - 1, LinkKey::Operator);
        let a = vendor::link_of(pool, n - 1, LinkKey::Asn);
        match key {
            LinkKey::Operator => rest.len() as int,
            LinkKey::Asn => (rest.len() + o.len()) as int,
            LinkKey::Region => (rest.len() + o.len() + a.len()) as int,
        }
    }
}

/// The ends of a link of the pool are correlated.
proof fn lemma_link_correlates(pool: Seq<CandidateView>, n: nat, k: int)
    requires
        n <= pool.len(),
        0 <= k < vendor::cluster_links(pool, n).len(),
    ensures
        ({
            let l = vendor::cluster_links(pool, n)[k];
            0 <= l.0 < pool.len() && 0 <= l.1 < pool.len() && correlated(pool[l.0], pool[l.1])
        }),
    decreases n,
{
    let rest = vendor::cluster_links(pool, (n - 1) as nat);
    let i = n - 1;
    let o = vendor::link_of(pool, i, LinkKey::Operator);
    let a = vendor::link_of(pool, i, LinkKey::Asn);
    if k < rest.len() {
        lemma_link_correlates(pool, (n - 1) as nat, k);
    } else {
        let key = if k < rest.len() + o.len() {
            LinkKey::Operator
        } else if k < rest.len() + o.len() + a.len() {
            LinkKey::Asn
        } else {
            LinkKey::Region
        };
        let v = vendor::value_at(pool, i, key);
        assert(v is Some);
        assert(vendor::cluster_links(pool, n)[k] == (vendor::first_with(pool, key, v->0, 0), i));
        vendor::lemma_first_with(pool, key, v->0, 0, i);
        assert(share_value(pool[vendor::first_with(pool, key, v->0, 0)], pool[i], key));
    }
}

/// Correlated candidates are connected by the links.
proof fn lemma_correlated_is_connected(pool: Seq<CandidateView>, i: int, j: int)
    requires
        0 <= i < pool.len(),
        0 <= j < pool.len(),
        correlated(pool[i], pool[j]),
    ensures
        partition::connected(vendor::own_roots(pool), vendor::cluster_links(pool, pool.len()), i, j),
{
    let start = vendor::own_roots(pool);
    let links = vendor::cluster_links(pool, pool.len());
    if pool[i].node_id == pool[j].node_id {
        assert(start[i] == start[j]);
        partition::lemma_connected_step(start, links, i, j);
    } else {
        let key = if share_value(pool[i], pool[j], LinkKey::Operator) {
            LinkKey::Operator
        } else if share_value(pool[i], pool[j], LinkKey::Asn) {
            LinkKey::Asn
        } else {
            LinkKey::Region
        };
        assert(share_value(pool[i], pool[j], key));
        let v = vendor::value_at(pool, i, key)->0;
        let f = vendor::first_with(pool, key, v, 0);
        vendor::lemma_first_with(pool, key, v, 0, i);
        let a = lemma_link_is_made(pool, i, key, pool.len());
        let b = lemma_link_is_made(pool, j, key, pool.len());
        assert(links[a] == (f, i));
        assert(links[b] == (f, j));
        assert(partition::related(start, links, i, f));
        assert(partition::related(start, links, f, j));
        partition::lemma_connected_step(start, links, i, f);
        partition::lemma_connected_step(start, links, f, j);
        partition::lemma_connected_transitive(start, links, i, f, j);
    }
}

proof fn lemma_chain_is_connected(pool: Seq<CandidateView>, path: Seq<int>)
    requires
        chain(pool, path),
    ensures
        partition::connected(
            vendor::own_roots(pool),
            vendor::cluster_links(pool, pool.len()),
            path.first(),
            path.last(),
        ),
    decreases path.len(),
{
    let start = vendor::own_roots(pool);
    let links = vendor::cluster_links(pool, pool.len());
    if path.len() == 1 {
        assert(correlated(pool[path[0]], pool[path[0]]));
        lemma_correlated_is_connected(pool, path[0], path[0]);
    } else {
        let rest = path.drop_last();
        assert forall|k: int| 0 <= k < rest.len() - 1 implies correlated(pool[#[trigger] rest[k]], pool[rest[k + 1]]) by {
            assert(correlated(pool[path[k]], pool[path[k + 1]]));
        }
        lemma_chain_is_connected(pool, rest);
        let n = path.len() - 2;
        assert(correlated(pool[path[n]], pool[path[n + 1]]));
        lemma_correlated_is_connected(pool, path[n], path[n + 1]);
        partition::lemma_connected_transitive(start, links, path.first(), path[n], path.last());
    }
}

proof fn lemma_connected_is_chained(pool: Seq<CandidateView>, i: int, j: int)
    requires
        partition::connected(vendor::own_roots(pool), vendor::cluster_links(pool, pool.len()), i, j),
    ensures
        chained(pool, i, j),
{
    let start = vendor::own_roots(pool);
    let links = vendor::cluster_links(pool, pool.len());
    let path = choose|path: Seq<int>|
        #[trigger] partition::walk(start, links, path) && path.first() == i && path.last() == j;
    assert forall|k: int| 0 <= k < path.len() - 1 implies correlated(pool[#[trigger] path[k]], pool[path[k + 1]]) by {
        let x = path[k];
        let y = path[k + 1];
        assert(partition::related(start, links, x, y));
        if start[x] == start[y] {
            vendor::lemma_first_id(pool, pool[x].node_id, 0, x);
            vendor::lemma_first_id(pool, pool[y].node_id, 0, y);
        } else {
            let l = choose|l: int| 0 <= l < links.len() && (#[trigger] links[l] == (x, y) || links[l] == (y, x));
            lemma_link_correlates(pool, pool.len(), l);
        }
    }
    assert(chain(pool, path));
}

/// A cluster is the broadest correlation bucket: two candidates bear one cluster label exactly where a
/// chain joins them in which each candidate shares an operator, a real network or a real region with
/// the next.
pub proof fn lemma_clusters_are_chains(pool: Seq<CandidateView>, i: int, j: int)
    requires
        0 <= i < pool.len(),
        0 <= j < pool.len(),
    ensures
        vendor::cluster_label(pool, i) == vendor::cluster_label(pool, j) <==> chained(pool, i, j),
{
    let start = vendor::own_roots(pool);
    let links = vendor::cluster_links(pool, pool.len());
    vendor::lemma_own_roots(pool);
    vendor::lemma_cluster_links(pool, pool.len());
    let roots = vendor::cluster_roots(pool);
    partition::lemma_united_is_connected(start, links, i, j);
    partition::lemma_united_from_start(start, links, i);
    partition::lemma_united_from_start(start, links, j);
    let x = choose|y: int| 0 <= y < start.len() && #[trigger] start[y] == roots[i];
    let y = choose|y: int| 0 <= y < start.len() && #[trigger] start[y] == roots[j];
    vendor::lemma_first_id(pool, pool[x].node_id, 0, x);
    vendor::lemma_first_id(pool, pool[y].node_id, 0, y);
    assert(roots[i] == roots[j] <==> vendor::cluster_label(pool, i) == vendor::cluster_label(pool, j));
    if roots[i] == roots[j] {
        lemma_connected_is_chained(pool, i, j);
    }
    if chained(pool, i, j) {
        let path = choose|path: Seq<int>| #[trigger] chain(pool, path) && path.first() == i && path.last() == j;
        lemma_chain_is_connected(pool, path);
    }
}

/// A node has one label, however often it occurs in the pool.
pub proof fn lemma_one_node_one_label(pool: Seq<CandidateView>, i: int)
    requires
        0 <= i < pool.len(),
    ensures
        vendor::cluster_label(pool, i) == vendor::cluster_label(pool, vendor::first_id(pool, pool[i].node_id, 0)),
        vendor::clusters(pool).contains((pool[i].node_id, vendor::cluster_label(pool, i))),
{
    let id = pool[i].node_id;
    let f = vendor::first_id(pool, id, 0);
    let names = roster::first_occurrences(vendor::ids_of(pool));
    vendor::lemma_first_id(pool, id, 0, i);
    assert(chain(pool, seq![i, f]));
    lemma_clusters_are_chains(pool, i, f);
    roster::lemma_first_occurrences(vendor::ids_of(pool));
    assert(vendor::ids_of(pool)[i] == id);
    assert(names.contains(id));
    let k = choose|k: int| 0 <= k < names.len() && names[k] == id;
    assert(vendor::clusters(pool)[k] == (id, vendor::cluster_label(pool, i)));
}

// ---- region keys ----

/// The key of a region is a signal, and that of a node without a region is none.
pub proof fn lemma_only_regions_are_real(index: int, node_id: Seq<char>)
    ensures
        vendor::region_is_real(vendor::region_key(index, node_id)) <==> index >= 0,
{
    reveal_strlit("r");
    reveal_strlit("r?:");
    let key = vendor::region_key(index, node_id);
    if index >= 0 {
        text::lemma_decimal_digits(index as nat);
        assert(key[1] == text::decimal(index as nat)[0]);
        if text::has_prefix(key, "r?:"@) {
            assert(key.take(3)[1] == '?');
        }
    } else {
        assert(key.take(3) =~= "r?:"@);
    }
}

/// Different regions have different keys.
pub proof fn lemma_regions_have_distinct_keys(i: int, j: int, a: Seq<char>, b: Seq<char>)
    requires
        i >= 0,
        j >= 0,
        vendor::region_key(i, a) == vendor::region_key(j, b),
    ensures
        i == j,
{
    reveal_strlit("r");
    let x = vendor::region_key(i, a);
    let y = vendor::region_key(j, b);
    assert(x.skip(1) =~= text::decimal(i as nat));
    assert(y.skip(1) =~= text::decimal(j as nat));
    text::lemma_decimal_injective(i as nat, j as nat);
}

// ---- caps ----

/// A cap is at least one and at most the replicas that there are to place.
pub proof fn lemma_cap_is_between(effective_k: u32, max_share: Binary64)
    ensures
        1 <= vendor::group_cap(effective_k, max_share),
        vendor::group_cap(effective_k, max_share) <= if effective_k > 0 { effective_k as int } else { 1 },
{
    let n = if effective_k > 0 { effective_k as int } else { 1 };
    let k = Binary64::fraction(n, 1);
    let share = if max_share.finite() { max_share } else { Binary64::fraction(34, 100) };
    let s = if Binary64::one().less(share) { Binary64::one() } else { share };
    let u = binary64::one_unit();
    order::lemma_constants();
    order::lemma_whole_number(n);
    order::lemma_fraction_at_most_one(34, 100);
    if !share.at_most(Binary64::zero()) {
        order::lemma_times_shrinks(k, s);
        let v = k.times(s).value();
        assert(-((-v) / u) <= n) by (nonlinear_arith)
            requires
                v <= n * u,
                u > 0,
        ;
    }
}

/// A larger share never lowers the cap.
pub proof fn lemma_cap_grows_with_the_share(effective_k: u32, share: Binary64, larger: Binary64)
    requires
        share.finite(),
        larger.finite(),
        share.at_most(larger),
    ensures
        vendor::group_cap(effective_k, share) <= vendor::group_cap(effective_k, larger),
{
    let n = if effective_k > 0 { effective_k as int } else { 1 };
    let k = Binary64::fraction(n, 1);
    let a = if Binary64::one().less(share) { Binary64::one() } else { share };
    let b = if Binary64::one().less(larger) { Binary64::one() } else { larger };
    let u = binary64::one_unit();
    order::lemma_constants();
    order::lemma_whole_number(n);
    lemma_cap_is_between(effective_k, larger);
    if !share.at_most(Binary64::zero()) {
        order::lemma_times_grows(a, b, k);
        let x = k.times(a).value();
        let y = k.times(b).value();
        assert(-((-x) / u) <= -((-y) / u)) by (nonlinear_arith)
            requires
                x <= y,
                u > 0,
        ;
    }
}

// ---- the diversity penalty ----

/// A host that shares no group with what is chosen, of a payer without recent placements, bears no
/// penalty; the first pick of such a payer is one.
pub proof fn lemma_independent_hosts_bear_no_penalty(
    c: CandidateView,
    chosen: Seq<CandidateView>,
    spec: JobSpecView,
)
    requires
        chosen.len() <= u32::MAX,
        vendor::sharing_any(c, chosen) == 0,
        spec.recent_placements is None,
    ensures
        vendor::penalty(c, chosen, spec).value() == 0,
{
    order::lemma_constants();
    order::lemma_whole_number(0);
    if chosen.len() > 0 {
        let n = chosen.len() as int;
        order::lemma_whole_number(n);
        let zero = Binary64::fraction(0, 1);
        let len = Binary64::fraction(n, 1);
        let u = binary64::one_unit();
        assert(n * u > 0) by (nonlinear_arith)
            requires
                n > 0,
                u > 0,
        ;
        order::lemma_over(zero, len);
        order::lemma_rounded_exact(Binary64::zero(), len.value());
        assert(Binary64::zero().value() * len.value() == 0) by (nonlinear_arith)
            requires
                Binary64::zero().value() == 0,
        ;
        order::lemma_over_at_most_one(zero, len);
    }
    let load = vendor::group_load(c, chosen);
    order::lemma_plus(load, Binary64::zero());
    order::lemma_rounded_exact(Binary64::zero(), 1);
}

/// Sharing more is penalised no less: of two candidates whose operators the payer has used alike, the
/// one that shares groups with more of what is chosen bears at least the penalty of the other.
pub proof fn lemma_penalty_grows_with_sharing(
    c: CandidateView,
    d: CandidateView,
    chosen: Seq<CandidateView>,
    spec: JobSpecView,
)
    requires
        chosen.len() <= u32::MAX,
        vendor::sharing_any(c, chosen) <= vendor::sharing_any(d, chosen),
        vendor::recent_load(c, spec) == vendor::recent_load(d, spec),
    ensures
        vendor::penalty(c, chosen, spec).at_most(vendor::penalty(d, chosen, spec)),
{
    order::lemma_constants();
    selection::lemma_loads(c, chosen, spec);
    selection::lemma_loads(d, chosen, spec);
    if chosen.len() > 0 {
        let n = chosen.len() as int;
        let u = binary64::one_unit();
        selection::lemma_sharing_any_bounded(c, chosen);
        selection::lemma_sharing_any_bounded(d, chosen);
        order::lemma_whole_number(n);
        order::lemma_whole_number(vendor::sharing_any(c, chosen) as int);
        order::lemma_whole_number(vendor::sharing_any(d, chosen) as int);
        order::lemma_fraction_grows(
            vendor::sharing_any(c, chosen) as int,
            vendor::sharing_any(d, chosen) as int,
            1,
        );
        assert(n * u > 0) by (nonlinear_arith)
            requires
                n > 0,
                u > 0,
        ;
        assert(vendor::sharing_any(c, chosen) * u >= 0) by (nonlinear_arith)
            requires
                u > 0,
        ;
        order::lemma_over_grows(
            Binary64::fraction(vendor::sharing_any(c, chosen) as int, 1),
            Binary64::fraction(vendor::sharing_any(d, chosen) as int, 1),
            Binary64::fraction(n, 1),
        );
    }
    order::lemma_plus_grows(
        vendor::group_load(c, chosen),
        vendor::group_load(d, chosen),
        vendor::recent_load(c, spec),
    );
}

} // verus!
