//! Groups, caps and penalties, counted.

use crate::accuracy::{self, grain};
use crate::api::{self, GroupsView, JobSpecView};
use crate::binary64::{self, Binary64};
use crate::bounds::{self, unit};
use crate::candidate::CandidateView;
use crate::counting::{self, sum_of};
use crate::order;
use crate::selection;
use crate::vendor::{self, Caps, GroupKey};
use vstd::prelude::*;

verus! {

/// Two sets of groups are alike under a key: the same operator, the same known network, the same known
/// region, the same cluster.
pub open spec fn alike(g: GroupsView, h: GroupsView, key: GroupKey) -> bool {
    match key {
        GroupKey::Operator => g.operator == h.operator,
        GroupKey::Asn => g.asn == h.asn && g.asn != "unknown"@,
        GroupKey::Region => g.region == h.region && !(g.region.len() >= 3 && g.region.take(3) == "r?:"@),
        GroupKey::Cluster => g.cluster == h.cluster,
    }
}

/// How many of the chosen are alike under a key.
pub open spec fn peers(g: GroupsView, chosen: Seq<CandidateView>, key: GroupKey) -> nat {
    chosen.filter(|o: CandidateView| o.groups matches Some(h) && alike(g, h, key)).len()
}

/// How many of the chosen are alike under any key.
pub open spec fn relatives(g: GroupsView, chosen: Seq<CandidateView>) -> nat {
    chosen.filter(
        |o: CandidateView|
            o.groups matches Some(h) && (alike(g, h, GroupKey::Operator) || alike(g, h, GroupKey::Asn) || alike(
                g,
                h,
                GroupKey::Region,
            ) || alike(g, h, GroupKey::Cluster)),
    ).len()
}

proof fn lemma_shares(c: CandidateView, other: CandidateView, g: GroupsView, key: GroupKey)
    requires
        c.groups == Some(g),
    ensures
        vendor::shares(c, other, key) <==> (other.groups matches Some(h) && alike(g, h, key)),
{
    reveal_strlit("r?:");
}

/// Sharing a group is counted over the chosen.
pub proof fn lemma_sharing_is_a_count(c: CandidateView, chosen: Seq<CandidateView>, g: GroupsView, key: GroupKey)
    requires
        c.groups == Some(g),
    ensures
        vendor::sharing(c, chosen, key) == peers(g, chosen, key),
        vendor::sharing_any(c, chosen) == relatives(g, chosen),
    decreases chosen.len(),
{
    let p = |o: CandidateView| o.groups matches Some(h) && alike(g, h, key);
    let q = |o: CandidateView|
        o.groups matches Some(h) && (alike(g, h, GroupKey::Operator) || alike(g, h, GroupKey::Asn) || alike(
            g,
            h,
            GroupKey::Region,
        ) || alike(g, h, GroupKey::Cluster));
    if chosen.len() == 0 {
        counting::lemma_count_bounded(chosen, p);
        counting::lemma_count_bounded(chosen, q);
    } else {
        lemma_sharing_is_a_count(c, chosen.drop_last(), g, key);
        counting::lemma_count_last(chosen, p);
        counting::lemma_count_last(chosen, q);
        let o = chosen.last();
        lemma_shares(c, o, g, key);
        lemma_shares(c, o, g, GroupKey::Operator);
        lemma_shares(c, o, g, GroupKey::Asn);
        lemma_shares(c, o, g, GroupKey::Region);
        lemma_shares(c, o, g, GroupKey::Cluster);
    }
}

/// A cap is broken where one more host of the same group would pass it: counted over the chosen, for the
/// operator, a known network, a known region and the cluster, in this order; and before all, where
/// operators are to be distinct, by any host of the same operator.
pub proof fn lemma_violations_are_counted(c: CandidateView, chosen: Seq<CandidateView>, caps: Caps, g: GroupsView)
    requires
        c.groups == Some(g),
    ensures
        ({
            let v = vendor::violation(c, chosen, caps);
            let over = |key: GroupKey| peers(g, chosen, key) + 1 > caps.per_group;
            let operator = over(GroupKey::Operator) || (caps.require_distinct_operator && peers(
                g,
                chosen,
                GroupKey::Operator,
            ) > 0);
            let asn = g.asn != "unknown"@ && over(GroupKey::Asn);
            let region = !(g.region.len() >= 3 && g.region.take(3) == "r?:"@) && over(GroupKey::Region);
            let cluster = over(GroupKey::Cluster);
            &&& v == Some(GroupKey::Operator) <==> operator
            &&& v == Some(GroupKey::Asn) <==> !operator && asn
            &&& v == Some(GroupKey::Region) <==> !operator && !asn && region
            &&& v == Some(GroupKey::Cluster) <==> !operator && !asn && !region && cluster
            &&& v is None <==> !operator && !asn && !region && !cluster
        }),
{
    reveal_strlit("r?:");
    lemma_sharing_is_a_count(c, chosen, g, GroupKey::Operator);
    lemma_sharing_is_a_count(c, chosen, g, GroupKey::Asn);
    lemma_sharing_is_a_count(c, chosen, g, GroupKey::Region);
    lemma_sharing_is_a_count(c, chosen, g, GroupKey::Cluster);
    assert(vendor::violation(c, chosen, caps) is Some ==> {
        let k = vendor::violation(c, chosen, caps)->0;
        k == GroupKey::Operator || k == GroupKey::Asn || k == GroupKey::Region || k == GroupKey::Cluster
    });
}

/// A loosened cap holds nobody back, and the others do as ever; that operators are to be distinct cannot
/// be loosened. A host without groups passes.
pub proof fn lemma_gates_are_counted(
    c: CandidateView,
    chosen: Seq<CandidateView>,
    caps: Caps,
    loose: Set<GroupKey>,
    g: GroupsView,
)
    ensures
        c.groups is None ==> selection::gated(c, chosen, caps, loose) is None,
        c.groups == Some(g) ==> {
            let v = selection::gated(c, chosen, caps, loose);
            let over = |key: GroupKey| !loose.contains(key) && peers(g, chosen, key) + 1 > caps.per_group;
            let operator = over(GroupKey::Operator) || (caps.require_distinct_operator && peers(
                g,
                chosen,
                GroupKey::Operator,
            ) > 0);
            let asn = g.asn != "unknown"@ && over(GroupKey::Asn);
            let region = !(g.region.len() >= 3 && g.region.take(3) == "r?:"@) && over(GroupKey::Region);
            let cluster = over(GroupKey::Cluster);
            &&& v == Some(GroupKey::Operator) <==> operator
            &&& v == Some(GroupKey::Asn) <==> !operator && asn
            &&& v == Some(GroupKey::Region) <==> !operator && !asn && region
            &&& v == Some(GroupKey::Cluster) <==> !operator && !asn && !region && cluster
            &&& v is None <==> !operator && !asn && !region && !cluster
        },
{
    reveal_strlit("r?:");
    if c.groups == Some(g) {
        lemma_sharing_is_a_count(c, chosen, g, GroupKey::Operator);
        lemma_sharing_is_a_count(c, chosen, g, GroupKey::Asn);
        lemma_sharing_is_a_count(c, chosen, g, GroupKey::Region);
        lemma_sharing_is_a_count(c, chosen, g, GroupKey::Cluster);
    }
}

/// The cap on a group is the share of the replicas, rounded up to a whole number; the share counts to
/// within one part in 2^52. It is one for a share that is not positive, all of them from a share of one
/// on, and a share that is no number counts as 0.34.
pub proof fn lemma_cap_in_numbers(effective_k: u32, share: Binary64)
    ensures
        ({
            let u = binary64::one_unit();
            let k = if effective_k > 0 { effective_k as int } else { 1 };
            let cap = vendor::group_cap(effective_k, share);
            let s = share.value();
            &&& share.finite() && s <= 0 ==> cap == 1
            &&& share.finite() && s >= u ==> cap == k
            &&& share.finite() && unit(-900) <= s < u ==> {
                &&& 1 <= cap <= k
                &&& cap * u * 0x10_0000_0000_0000 >= k * s * 0xf_ffff_ffff_ffff
                &&& (cap - 1) * u * 0x10_0000_0000_0000 < k * s * 0x10_0000_0000_0001
            }
            &&& !share.finite() ==> cap == vendor::group_cap(effective_k, Binary64::fraction(34, 100))
        }),
{
    let u = binary64::one_unit();
    let n = if effective_k > 0 { effective_k as int } else { 1int };
    let k = Binary64::fraction(n, 1);
    let s = share.value();
    order::lemma_constants();
    order::lemma_whole_number(n);
    accuracy::lemma_grain();
    accuracy::lemma_proper_fraction(34, 100);
    assert(n * u >= u) by (nonlinear_arith)
        requires
            n >= 1,
            u > 0,
    ;
    if share.finite() && s >= u {
        let one = Binary64::one();
        let t = if one.less(share) { one } else { share };
        assert(t.value() == u);
        order::lemma_times(k, t);
        order::lemma_rounded_exact(k, u);
        let v = k.times(t).value();
        assert(v == n * u);
        assert(-((-v) / u) == n) by (nonlinear_arith)
            requires
                v == n * u,
                u > 0,
        ;
    }
    if share.finite() && unit(-900) <= s < u {
        bounds::lemma_unit(-900, -900);
        crate::correlation::lemma_cap_is_between(effective_k, share);
        let p = k.times(share);
        let v = p.value();
        order::lemma_times(k, share);
        order::lemma_times_shrinks(k, share);
        assert(n * u <= 0xffff_ffff * u) by (nonlinear_arith)
            requires
                n <= 0xffff_ffff,
                u > 0,
        ;
        let exact = (n * u) * s;
        assert(exact >= 0 && exact <= unit(32) * u) by {
            bounds::lemma_unit(32, 32);
            vstd::arithmetic::power2::lemma_pow2_adds(32, 1074);
            vstd::arithmetic::power2::lemma2_to64();
            assert((n * u) * s <= (0x1_0000_0000 * u) * u) by (nonlinear_arith)
                requires
                    0 <= n <= 0xffff_ffff,
                    0 < s < u,
            ;
            assert((n * u) * s >= 0) by (nonlinear_arith)
                requires
                    n >= 0,
                    u > 0,
                    s > 0,
            ;
        }
        bounds::lemma_rounded_at_most(exact, u, 32);
        crate::rounding::lemma_error(exact, u);
        assert(exact == (n * s) * u) by (nonlinear_arith)
            requires
                exact == (n * u) * s,
        ;
        let ns = n * s;
        assert(ns >= s) by (nonlinear_arith)
            requires
                ns == n * s,
                n >= 1,
                s > 0,
        ;
        assert(s >= 0x20_0000_0000_0000) by {
            bounds::lemma_unit(-1021, -900);
            vstd::arithmetic::power2::lemma2_to64_rest();
        }
        let e = ns - v;
        assert(exact - v * u == e * u) by (nonlinear_arith)
            requires
                exact == ns * u,
                e == ns - v,
        ;
        assert(-ns <= e * 0x10_0000_0000_0000 <= ns) by {
            if -u <= 2 * (exact - v * u) <= u {
                assert(-1 <= 2 * e <= 1) by (nonlinear_arith)
                    requires
                        -u <= 2 * (e * u) <= u,
                        u > 0,
                ;
            } else {
                assert(-v <= e * 0x20_0000_0000_0000 <= v) by (nonlinear_arith)
                    requires
                        -(v * u) <= (e * u) * 0x20_0000_0000_0000 <= v * u,
                        u > 0,
                ;
            }
        }
        let cap = vendor::group_cap(effective_k, share);
        let c = -((-v) / u);
        assert((c - 1) * u < v <= c * u) by (nonlinear_arith)
            requires
                c == -((-v) / u),
                u > 0,
        ;
        assert(v > 0);
        assert(c >= 1) by (nonlinear_arith)
            requires
                v <= c * u,
                v > 0,
                u > 0,
        ;
        assert(c <= 0xffff_ffff) by (nonlinear_arith)
            requires
                (c - 1) * u < v,
                v <= 0xffff_ffff * u,
                u > 0,
        ;
        assert(cap == c);
        assert(cap * u * 0x10_0000_0000_0000 >= v * 0x10_0000_0000_0000 && (cap - 1) * u * 0x10_0000_0000_0000 < v
            * 0x10_0000_0000_0000) by (nonlinear_arith)
            requires
                (cap - 1) * u < v <= cap * u,
        ;
        assert(n * s * 0xf_ffff_ffff_ffff == ns * 0xf_ffff_ffff_ffff && n * s * 0x10_0000_0000_0001 == ns
            * 0x10_0000_0000_0001) by (nonlinear_arith)
            requires
                ns == n * s,
        ;
    }
}

// ---- penalty ----

/// A count that is finite and positive, and else nothing.
spec fn worth() -> spec_fn((Seq<char>, Binary64)) -> int {
    |e: (Seq<char>, Binary64)| if e.1.finite() && e.1.value() > 0 { e.1.value() } else { 0 }
}

proof fn lemma_recent_sum(recent: Seq<(Seq<char>, Binary64)>)
    requires
        recent.len() <= u32::MAX,
        sum_of(recent, worth()) <= unit(900),
    ensures
        ({
            let total = vendor::recent_total(recent);
            let t = sum_of(recent, worth());
            let n = recent.len() as int;
            &&& total.finite()
            &&& 0 <= t
            &&& 0 <= total.value() <= 2 * t
            &&& -(2 * (n * t)) <= (total.value() - t) * 0x20_0000_0000_0000 <= 2 * (n * t)
            &&& forall|i: int|
                0 <= i < recent.len() && (#[trigger] recent[i]).1.finite() ==> recent[i].1.value() <= total.value()
        }),
    decreases recent.len(),
{
    order::lemma_constants();
    counting::lemma_sum_last(recent, worth());
    if recent.len() > 0 {
        let rest = recent.drop_last();
        let x = recent.last().1;
        let t = sum_of(rest, worth());
        let n = rest.len() as int;
        lemma_recent_sum(rest);
        let total = vendor::recent_total(rest);
        if x.positive() {
            accuracy::lemma_running_sum(total, x, t, n);
        } else {
            assert((n + 1) * t >= n * t) by (nonlinear_arith)
                requires
                    t >= 0,
                    n >= 0,
            ;
        }
        assert forall|i: int|
            0 <= i < recent.len() && (#[trigger] recent[i]).1.finite() implies recent[i].1.value()
            <= vendor::recent_total(recent).value() by {
            if i < rest.len() {
                assert(rest[i] == recent[i]);
            }
        }
    }
}

proof fn lemma_lookup_unique(s: Seq<(Seq<char>, Binary64)>, key: Seq<char>)
    ensures
        match api::lookup(s, key) {
            Some(v) => exists|j: int| 0 <= j < s.len() && #[trigger] s[j] == (key, v),
            None => forall|j: int| 0 <= j < s.len() ==> (#[trigger] s[j]).0 != key,
        },
    decreases s.len(),
{
    if s.len() > 0 {
        if s[0].0 == key {
            assert(s[0] == (key, s[0].1));
        } else {
            let rest = s.drop_first();
            lemma_lookup_unique(rest, key);
            match api::lookup(rest, key) {
                Some(v) => {
                    let j = choose|j: int| 0 <= j < rest.len() && #[trigger] rest[j] == (key, v);
                    assert(s[j + 1] == (key, v));
                },
                None => {
                    assert forall|j: int| 0 <= j < s.len() implies (#[trigger] s[j]).0 != key by {
                        if j > 0 {
                            assert(rest[j - 1] == s[j]);
                        }
                    }
                },
            }
        }
    }
}

/// The penalty of a host is the part of the chosen that it shares a group with, within one part in 2^53,
/// where the payer has placed nothing lately; nothing for the first pick.
pub proof fn lemma_penalty_for_what_is_chosen(
    c: CandidateView,
    chosen: Seq<CandidateView>,
    spec: JobSpecView,
    g: GroupsView,
)
    requires
        c.groups == Some(g),
        chosen.len() <= u32::MAX,
        spec.recent_placements is None,
    ensures
        ({
            let u = binary64::one_unit();
            let n = chosen.len() as int;
            let p = vendor::penalty(c, chosen, spec);
            &&& p.finite()
            &&& n == 0 ==> p.value() == 0
            &&& -(u * n) <= (p.value() * n - relatives(g, chosen) * u) * 0x20_0000_0000_0000 <= u * n
        }),
{
    let u = binary64::one_unit();
    let n = chosen.len() as int;
    order::lemma_constants();
    accuracy::lemma_grain();
    lemma_sharing_is_a_count(c, chosen, g, GroupKey::Operator);
    selection::lemma_loads(c, chosen, spec);
    let load = vendor::group_load(c, chosen);
    let p = vendor::penalty(c, chosen, spec);
    accuracy::lemma_plus_close(load, Binary64::zero(), 0);
    order::lemma_plus(load, Binary64::zero());
    order::lemma_rounded_exact(load, 1);
    assert(p.value() == load.value());
    let r = relatives(g, chosen) as int;
    if n > 0 {
        selection::lemma_sharing_any_bounded(c, chosen);
        order::lemma_whole_number(r);
        order::lemma_whole_number(n);
        let a = Binary64::fraction(r, 1);
        let b = Binary64::fraction(n, 1);
        assert(n * u > 0 && r * u >= 0 && (r * u) * u <= u * (n * u)) by (nonlinear_arith)
            requires
                0 <= r <= n,
                n > 0,
                u > 0,
        ;
        accuracy::lemma_over_close(a, b, 0);
        let g1 = grain();
        assert(-(g1 * n) <= load.value() * n - r * u <= g1 * n) by (nonlinear_arith)
            requires
                -(g1 * (n * u)) <= load.value() * (n * u) - (r * u) * u <= g1 * (n * u),
                u > 0,
        ;
        assert(u * n == 0x20_0000_0000_0000 * (g1 * n)) by (nonlinear_arith)
            requires
                u == 0x20_0000_0000_0000 * g1,
        ;
    } else {
        counting::lemma_count_bounded(
            chosen,
            |o: CandidateView|
                o.groups matches Some(h) && (alike(g, h, GroupKey::Operator) || alike(g, h, GroupKey::Asn) || alike(
                    g,
                    h,
                    GroupKey::Region,
                ) || alike(g, h, GroupKey::Cluster)),
        );
        assert(p.value() * n - r * u == 0) by (nonlinear_arith)
            requires
                n == 0,
                r == 0,
        ;
    }
}

/// The first pick pays for what went to its operator lately: its share of the payer's recent placements,
/// counting those that are finite and positive, within two parts in 2^53 for each of them.
pub proof fn lemma_penalty_for_what_went_before(
    c: CandidateView,
    spec: JobSpecView,
    g: GroupsView,
    recent: Seq<(Seq<char>, Binary64)>,
    j: int,
)
    requires
        c.groups == Some(g),
        spec.recent_placements == Some(recent),
        recent.len() <= u32::MAX,
        forall|i: int, k: int| 0 <= i < k < recent.len() ==> (#[trigger] recent[i]).0 != (#[trigger] recent[k]).0,
        sum_of(
            recent,
            |e: (Seq<char>, Binary64)| if e.1.finite() && e.1.value() > 0 { e.1.value() } else { 0 },
        ) <= unit(900),
        0 <= j < recent.len(),
        recent[j].1.finite(),
        recent[j].1.value() > 0,
    ensures
        ({
            let u = binary64::one_unit();
            let p = vendor::penalty(c, Seq::empty(), spec);
            let total = sum_of(
                recent,
                |e: (Seq<char>, Binary64)| if e.1.finite() && e.1.value() > 0 { e.1.value() } else { 0 },
            );
            let slack = (2 * recent.len() + 2) * (u * total);
            &&& p.finite()
            &&& recent[j].0 == g.operator ==> -slack <= (p.value() * total - recent[j].1.value() * u)
                * 0x20_0000_0000_0000 <= slack
            &&& (forall|i: int| 0 <= i < recent.len() ==> (#[trigger] recent[i]).0 != g.operator) ==> p.value() == 0
        }),
{
    let u = binary64::one_unit();
    let f = |e: (Seq<char>, Binary64)| if e.1.finite() && e.1.value() > 0 { e.1.value() } else { 0 };
    assert(f =~= worth());
    let n = recent.len() as int;
    order::lemma_constants();
    accuracy::lemma_grain();
    lemma_recent_sum(recent);
    lemma_lookup_unique(recent, g.operator);
    let none = Seq::<CandidateView>::empty();
    selection::lemma_loads(c, none, spec);
    let load = vendor::recent_load(c, spec);
    let p = vendor::penalty(c, none, spec);
    accuracy::lemma_plus_close(Binary64::zero(), load, 0);
    order::lemma_plus(Binary64::zero(), load);
    order::lemma_rounded_exact(load, 1);
    assert(p.value() == load.value());
    if recent[j].0 == g.operator {
        let v = api::lookup(recent, g.operator)->0;
        let k = choose|k: int| 0 <= k < recent.len() && #[trigger] recent[k] == (g.operator, v);
        assert(k == j);
        let mine = recent[j].1;
        let d = vendor::recent_total(recent);
        let t = sum_of(recent, f);
        assert(mine.value() <= d.value());
        accuracy::lemma_share_of_total(mine, d, t, n);
        let h = grain() * t;
        assert((2 * n + 2) * (u * t) == 0x20_0000_0000_0000 * ((2 * n + 2) * h)) by (nonlinear_arith)
            requires
                u == 0x20_0000_0000_0000 * grain(),
                h == grain() * t,
        ;
    }
}

/// The penalty adds up: what a host pays for the chosen and what it pays for recent placements, within
/// one part in 2^52.
pub proof fn lemma_penalty_adds_up(c: CandidateView, chosen: Seq<CandidateView>, spec: JobSpecView)
    requires
        chosen.len() <= u32::MAX,
    ensures
        ({
            let u = binary64::one_unit();
            let p = vendor::penalty(c, chosen, spec);
            let now = vendor::penalty(c, chosen, JobSpecView { recent_placements: None, ..spec });
            let before = vendor::penalty(c, Seq::empty(), spec);
            &&& p.finite() && now.finite() && before.finite()
            &&& 0 <= now.value() <= u && 0 <= before.value() <= u
            &&& -u <= (p.value() - now.value() - before.value()) * 0x10_0000_0000_0000 <= u
        }),
{
    let none = Seq::<CandidateView>::empty();
    let bare = JobSpecView { recent_placements: None, ..spec };
    order::lemma_constants();
    accuracy::lemma_grain();
    selection::lemma_loads(c, chosen, spec);
    let a = vendor::group_load(c, chosen);
    let b = vendor::recent_load(c, spec);
    accuracy::lemma_plus_close(a, b, 1);
    accuracy::lemma_plus_close(a, Binary64::zero(), 0);
    order::lemma_plus(a, Binary64::zero());
    order::lemma_rounded_exact(a, 1);
    accuracy::lemma_plus_close(Binary64::zero(), b, 0);
    order::lemma_plus(Binary64::zero(), b);
    order::lemma_rounded_exact(b, 1);
}

} // verus!
