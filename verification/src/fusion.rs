//! Fusing directed latency observations into undirected edges.

use crate::api::{MeshEdge, MeshEdgeView};
use crate::binary64::Binary64;
use crate::roster;
use crate::text;
use vstd::prelude::*;

verus! {

/// The key of an undirected pair: both ids, the smaller one first.
pub open spec fn key_of(a: Seq<char>, b: Seq<char>) -> Seq<char> {
    if text::lex_less(a, b) {
        a + " "@ + b
    } else {
        b + " "@ + a
    }
}

/// The key of an undirected pair does not depend on the order of its ends.
pub proof fn lemma_key_symmetric(a: Seq<char>, b: Seq<char>)
    ensures
        key_of(a, b) == key_of(b, a),
{
    text::lemma_lex_asymmetric(a, b);
    text::lemma_lex_total(a, b);
}

/// The key of an undirected pair.
pub fn pair_key(a: &str, b: &str) -> (r: String)
    ensures
        r@ == key_of(a@, b@),
{
    let first: bool = text::before(a, b);
    let mut r: String = if first { a.to_owned() } else { b.to_owned() };
    r.append(" ");
    r.append(if first { b } else { a });
    r
}

/// An edge under assembly.
pub struct FusedView {
    pub a: Seq<char>,
    pub b: Seq<char>,
    pub rtt_ms: Binary64,
    pub samples: int,
    pub last_seen_secs: u64,
    /// The sum of round-trip times, each times its number of samples.
    pub weighted: Binary64,
}

/// An observation that relates two different nodes.
pub open spec fn relates(o: MeshEdgeView) -> bool {
    o.a.len() > 0 && o.b.len() > 0 && o.a != o.b
}

/// The samples of an observation, at least one.
pub open spec fn weight_of(o: MeshEdgeView) -> int {
    if o.samples > 1 {
        o.samples as int
    } else {
        1
    }
}

/// The first position from `from` on whose edge has the key.
pub open spec fn fused_at(fused: Seq<FusedView>, key: Seq<char>, from: int) -> Option<int>
    decreases fused.len() - from,
{
    if from < 0 || from >= fused.len() {
        None
    } else if key_of(fused[from].a, fused[from].b) == key {
        Some(from)
    } else {
        fused_at(fused, key, from + 1)
    }
}

/// The edge that a first observation makes.
pub open spec fn fresh(o: MeshEdgeView) -> FusedView {
    FusedView {
        a: if text::lex_less(o.a, o.b) { o.a } else { o.b },
        b: if text::lex_less(o.a, o.b) { o.b } else { o.a },
        rtt_ms: o.rtt_ms,
        samples: weight_of(o),
        last_seen_secs: o.last_seen_secs,
        weighted: o.rtt_ms.times(Binary64::fraction(weight_of(o), 1)),
    }
}

/// The edge with one more observation: the mean of the round-trip times, weighted by samples.
pub open spec fn extended(e: FusedView, o: MeshEdgeView) -> FusedView {
    let samples = e.samples + weight_of(o);
    let weighted = e.weighted.plus(o.rtt_ms.times(Binary64::fraction(weight_of(o), 1)));
    FusedView {
        a: e.a,
        b: e.b,
        rtt_ms: weighted.over(Binary64::fraction(samples, 1)),
        samples,
        last_seen_secs: if o.last_seen_secs > e.last_seen_secs { o.last_seen_secs } else { e.last_seen_secs },
        weighted,
    }
}

/// The edges that the first `n` observations fuse into, in order of first observation.
pub open spec fn fused(obs: Seq<MeshEdgeView>, n: nat) -> Seq<FusedView>
    decreases n,
{
    if n == 0 {
        Seq::empty()
    } else {
        let before = fused(obs, (n - 1) as nat);
        let o = obs[n - 1];
        if !relates(o) {
            before
        } else {
            match fused_at(before, key_of(o.a, o.b), 0) {
                Some(i) => before.update(i, extended(before[i], o)),
                None => before.push(fresh(o)),
            }
        }
    }
}

/// The nodes that the first `n` observations name, in order of first mention.
pub open spec fn observed(obs: Seq<MeshEdgeView>, n: nat) -> Seq<Seq<char>>
    decreases n,
{
    if n == 0 {
        Seq::empty()
    } else {
        let before = observed(obs, (n - 1) as nat);
        let o = obs[n - 1];
        if relates(o) {
            roster::with_id(roster::with_id(before, o.a), o.b)
        } else {
            before
        }
    }
}

/// The samples of every fused edge fit the counter.
pub open spec fn countable(obs: Seq<MeshEdgeView>) -> bool {
    forall|i: int| 0 <= i < fused(obs, obs.len()).len() ==> (#[trigger] fused(obs, obs.len())[i]).samples <= u64::MAX
}

pub proof fn lemma_fused_at(fused: Seq<FusedView>, key: Seq<char>, from: int)
    requires
        0 <= from,
    ensures
        match fused_at(fused, key, from) {
            Some(i) => from <= i < fused.len() && key_of(fused[i].a, fused[i].b) == key,
            None => forall|i: int|
                from <= i < fused.len() ==> key_of((#[trigger] fused[i]).a, fused[i].b) != key,
        },
    decreases fused.len() - from,
{
    if from < fused.len() && key_of(fused[from].a, fused[from].b) != key {
        lemma_fused_at(fused, key, from + 1);
    }
}

/// Later observations only add edges and samples.
proof fn lemma_fused_grows(obs: Seq<MeshEdgeView>, n: nat, m: nat, i: int)
    requires
        n <= m <= obs.len(),
        0 <= i < fused(obs, n).len(),
    ensures
        i < fused(obs, m).len(),
        fused(obs, n)[i].samples <= fused(obs, m)[i].samples,
    decreases m - n,
{
    if n < m {
        lemma_fused_grows(obs, n, (m - 1) as nat, i);
        let o = obs[m - 1];
        if relates(o) {
            lemma_fused_at(fused(obs, (m - 1) as nat), key_of(o.a, o.b), 0);
        }
    }
}

/// Keys occur once, ends are different observed nodes, the smaller one first.
pub open spec fn well_fused(f: Seq<FusedView>, ids: Seq<Seq<char>>) -> bool {
    &&& forall|i: int| 0 <= i < f.len() ==> {
        let e = #[trigger] f[i];
        ids.contains(e.a) && ids.contains(e.b) && text::lex_less(e.a, e.b) && e.samples >= 1
    }
    &&& forall|i: int, j: int|
        0 <= i < j < f.len() ==> key_of((#[trigger] f[i]).a, f[i].b) != key_of((#[trigger] f[j]).a, f[j].b)
}

pub proof fn lemma_well_fused(obs: Seq<MeshEdgeView>, n: nat)
    requires
        n <= obs.len(),
    ensures
        well_fused(fused(obs, n), observed(obs, n)),
        roster::distinct(observed(obs, n)),
    decreases n,
{
    if n > 0 {
        let m = (n - 1) as nat;
        lemma_well_fused(obs, m);
        let o = obs[n - 1];
        let ids = observed(obs, m);
        if relates(o) {
            let key = key_of(o.a, o.b);
            roster::lemma_with_id(ids, o.a);
            roster::lemma_with_id(roster::with_id(ids, o.a), o.b);
            lemma_fused_at(fused(obs, m), key, 0);
            text::lemma_lex_total(o.a, o.b);
            let f = fused(obs, n);
            let new = observed(obs, n);
            assert(new.contains(o.a));
            match fused_at(fused(obs, m), key, 0) {
                Some(i) => {
                    assert forall|k: int| 0 <= k < f.len() implies {
                        let e = #[trigger] f[k];
                        new.contains(e.a) && new.contains(e.b) && text::lex_less(e.a, e.b) && e.samples >= 1
                    } by {
                        let e = fused(obs, m)[k];
                        assert(ids.contains(e.a) && ids.contains(e.b));
                    }
                    assert forall|j: int, k: int| 0 <= j < k < f.len() implies key_of((#[trigger] f[j]).a, f[j].b)
                        != key_of((#[trigger] f[k]).a, f[k].b) by {
                        let g = fused(obs, m);
                        assert(key_of(g[j].a, g[j].b) != key_of(g[k].a, g[k].b));
                    }
                },
                None => {
                    lemma_key_symmetric(o.a, o.b);
                    assert forall|k: int| 0 <= k < f.len() implies {
                        let e = #[trigger] f[k];
                        new.contains(e.a) && new.contains(e.b) && text::lex_less(e.a, e.b) && e.samples >= 1
                    } by {
                        if k < fused(obs, m).len() {
                            let e = fused(obs, m)[k];
                            assert(ids.contains(e.a) && ids.contains(e.b));
                        }
                    }
                    assert forall|j: int, k: int| 0 <= j < k < f.len() implies key_of((#[trigger] f[j]).a, f[j].b)
                        != key_of((#[trigger] f[k]).a, f[k].b) by {
                        let g = fused(obs, m);
                        if k < g.len() {
                            assert(key_of(g[j].a, g[j].b) != key_of(g[k].a, g[k].b));
                        }
                    }
                },
            }
        }
    }
}

/// An edge under assembly.
struct Merged {
    a: String,
    b: String,
    rtt_ms: Binary64,
    samples: u64,
    last_seen_secs: u64,
    weighted: Binary64,
}

spec fn merged_view(m: Merged) -> FusedView {
    FusedView {
        a: m.a@,
        b: m.b@,
        rtt_ms: m.rtt_ms,
        samples: m.samples as int,
        last_seen_secs: m.last_seen_secs,
        weighted: m.weighted,
    }
}

spec fn merged_views(s: Seq<Merged>) -> Seq<FusedView> {
    s.map_values(|m: Merged| merged_view(m))
}

fn find_merged(merged: &Vec<Merged>, key: &str) -> (r: Option<usize>)
    ensures
        match r {
            Some(i) => fused_at(merged_views(merged@), key@, 0) == Some(i as int) && i < merged.len(),
            None => fused_at(merged_views(merged@), key@, 0) is None,
        },
{
    let ghost all = merged_views(merged@);
    let mut i: usize = 0;
    while i < merged.len()
        invariant
            i <= merged.len(),
            all == merged_views(merged@),
            fused_at(all, key@, 0) == fused_at(all, key@, i as int),
        decreases merged.len() - i,
    {
        proof {
            assert(all[i as int] == merged_view(merged@[i as int]));
        }
        if text::same(pair_key(merged[i].a.as_str(), merged[i].b.as_str()).as_str(), key) {
            return Some(i);
        }
        i = i + 1;
    }
    None
}

/// The fused edge as the map carries it.
pub open spec fn edge_of(f: FusedView) -> MeshEdgeView {
    MeshEdgeView {
        a: f.a,
        b: f.b,
        rtt_ms: f.rtt_ms,
        samples: f.samples as u64,
        last_seen_secs: f.last_seen_secs,
    }
}

/// The undirected edges that observations fuse into.
pub open spec fn fused_edges(obs: Seq<MeshEdgeView>) -> Seq<MeshEdgeView> {
    fused(obs, obs.len()).map_values(|f: FusedView| edge_of(f))
}

/// Fuses directed observations into undirected edges. Observations of one pair fuse into the mean
/// of their round-trip times, weighted by samples. Also lists the nodes that are named.
pub(crate) fn fuse(observations: &[MeshEdge]) -> (r: (Vec<String>, Vec<MeshEdge>))
    requires
        countable(observations@.map_values(|e: MeshEdge| e@)),
    ensures
        ({
            let obs = observations@.map_values(|e: MeshEdge| e@);
            &&& text::texts(r.0@) == observed(obs, obs.len())
            &&& r.1@.map_values(|e: MeshEdge| e@) == fused_edges(obs)
        }),
{
    let ghost obs = observations@.map_values(|e: MeshEdge| e@);
    let mut nodes: Vec<String> = Vec::new();
    let mut merged: Vec<Merged> = Vec::new();
    proof {
        assert(text::texts(nodes@) =~= observed(obs, 0));
        assert(merged_views(merged@) =~= fused(obs, 0));
    }
    for n in 0..observations.len()
        invariant
            obs == observations@.map_values(|e: MeshEdge| e@),
            countable(obs),
            text::texts(nodes@) == observed(obs, n as nat),
            merged_views(merged@) == fused(obs, n as nat),
    {
        let o = &observations[n];
        proof {
            assert(obs[n as int] == o@);
        }
        if !o.a.as_str().is_empty() && !o.b.as_str().is_empty() && o.a != o.b {
            roster::enroll(&mut nodes, &o.a);
            roster::enroll(&mut nodes, &o.b);
            let key = pair_key(o.a.as_str(), o.b.as_str());
            let samples: u64 = if o.samples > 1 { o.samples } else { 1 };
            let ghost before = merged_views(merged@);
            match find_merged(&merged, key.as_str()) {
                None => {
                    let first: bool = text::before(o.a.as_str(), o.b.as_str());
                    let m = Merged {
                        a: if first { o.a.clone() } else { o.b.clone() },
                        b: if first { o.b.clone() } else { o.a.clone() },
                        rtt_ms: o.rtt_ms,
                        samples,
                        last_seen_secs: o.last_seen_secs,
                        weighted: o.rtt_ms.mul(Binary64::from_u64(samples)),
                    };
                    merged.push(m);
                    proof {
                        assert(merged_views(merged@) =~= before.push(merged_view(m)));
                        assert(merged_view(m) == fresh(o@));
                    }
                },
                Some(i) => {
                    proof {
                        let next = fused(obs, (n + 1) as nat);
                        assert(next[i as int] == extended(before[i as int], o@));
                        lemma_fused_grows(obs, (n + 1) as nat, obs.len(), i as int);
                        assert(fused(obs, obs.len())[i as int].samples <= u64::MAX);
                        assert(before[i as int] == merged_view(merged@[i as int]));
                    }
                    let total: u64 = merged[i].samples + samples;
                    let weighted = merged[i].weighted.add(o.rtt_ms.mul(Binary64::from_u64(samples)));
                    let m = Merged {
                        a: merged[i].a.clone(),
                        b: merged[i].b.clone(),
                        rtt_ms: weighted.div(Binary64::from_u64(total)),
                        samples: total,
                        last_seen_secs: if o.last_seen_secs > merged[i].last_seen_secs {
                            o.last_seen_secs
                        } else {
                            merged[i].last_seen_secs
                        },
                        weighted,
                    };
                    merged.set(i, m);
                    proof {
                        assert(merged_views(merged@) =~= before.update(i as int, merged_view(m)));
                    }
                },
            }
        }
    }
    let mut edges: Vec<MeshEdge> = Vec::new();
    for i in 0..merged.len()
        invariant
            merged_views(merged@) == fused(obs, obs.len()),
            edges.len() == i,
            forall|j: int| 0 <= j < i ==> (#[trigger] edges@[j])@ == edge_of(merged_view(merged@[j])),
    {
        let m = &merged[i];
        edges.push(
            MeshEdge {
                a: m.a.clone(),
                b: m.b.clone(),
                rtt_ms: m.rtt_ms,
                samples: m.samples,
                last_seen_secs: m.last_seen_secs,
            },
        );
    }
    proof {
        assert forall|j: int| 0 <= j < edges.len() implies (#[trigger] edges@[j])@ == fused_edges(obs)[j] by {
            assert(merged_views(merged@)[j] == merged_view(merged@[j]));
        }
        assert(edges@.map_values(|e: MeshEdge| e@) =~= fused_edges(obs));
    }
    (nodes, edges)
}

// ---- samples ----

/// The samples of the first `n` observations of a pair, each at least one.
pub open spec fn samples_of(obs: Seq<MeshEdgeView>, key: Seq<char>, n: nat) -> int
    decreases n,
{
    if n == 0 {
        0
    } else {
        let o = obs[n - 1];
        samples_of(obs, key, (n - 1) as nat) + if relates(o) && key_of(o.a, o.b) == key {
            weight_of(o)
        } else {
            0
        }
    }
}

/// A fused edge has the samples of all observations of its pair, and every observation that relates two
/// nodes has its edge.
pub proof fn lemma_fused_samples(obs: Seq<MeshEdgeView>, n: nat)
    requires
        n <= obs.len(),
    ensures
        forall|i: int|
            0 <= i < fused(obs, n).len() ==> (#[trigger] fused(obs, n)[i]).samples == samples_of(
                obs,
                key_of(fused(obs, n)[i].a, fused(obs, n)[i].b),
                n,
            ),
        forall|j: int|
            0 <= j < n && relates(#[trigger] obs[j]) ==> fused_at(fused(obs, n), key_of(obs[j].a, obs[j].b), 0) is Some,
        forall|k: Seq<char>|
            fused_at(fused(obs, n), k, 0) is None ==> #[trigger] samples_of(obs, k, n) == 0,
    decreases n,
{
    if n > 0 {
        let m = (n - 1) as nat;
        lemma_fused_samples(obs, m);
        lemma_well_fused(obs, m);
        lemma_well_fused(obs, n);
        let o = obs[n - 1];
        let before = fused(obs, m);
        let f = fused(obs, n);
        let key = key_of(o.a, o.b);
        lemma_key_symmetric(o.a, o.b);
        if relates(o) {
            lemma_fused_at(before, key, 0);
            text::lemma_lex_total(o.a, o.b);
            assert forall|i: int| 0 <= i < f.len() implies (#[trigger] f[i]).samples == samples_of(
                obs,
                key_of(f[i].a, f[i].b),
                n,
            ) by {
                if i < before.len() {
                    assert(before[i].samples == samples_of(obs, key_of(before[i].a, before[i].b), m));
                } else {
                    assert(key_of(f[i].a, f[i].b) == key);
                    assert(samples_of(obs, key, m) == 0);
                }
            }
            assert forall|k: Seq<char>| fused_at(f, k, 0) is None implies #[trigger] samples_of(obs, k, n) == 0 by {
                lemma_fused_at(f, k, 0);
                lemma_fused_at(before, k, 0);
                assert forall|i: int| 0 <= i < before.len() implies key_of((#[trigger] before[i]).a, before[i].b) != k by {
                    assert(key_of(f[i].a, f[i].b) != k);
                }
                assert(k != key) by {
                    match fused_at(before, key, 0) {
                        Some(i) => {
                            assert(key_of(f[i].a, f[i].b) == key);
                        },
                        None => {
                            assert(key_of(f[before.len() as int].a, f[before.len() as int].b) == key);
                        },
                    }
                }
                assert(samples_of(obs, k, m) == 0);
            }
            assert forall|j: int| 0 <= j < n && relates(#[trigger] obs[j]) implies fused_at(
                f,
                key_of(obs[j].a, obs[j].b),
                0,
            ) is Some by {
                let k = key_of(obs[j].a, obs[j].b);
                lemma_fused_at(f, k, 0);
                lemma_fused_at(before, k, 0);
                if j < n - 1 {
                    let i = fused_at(before, k, 0)->0;
                    assert(key_of(f[i].a, f[i].b) == k);
                } else {
                    match fused_at(before, key, 0) {
                        Some(i) => {
                            assert(key_of(f[i].a, f[i].b) == key);
                        },
                        None => {
                            assert(key_of(f[before.len() as int].a, f[before.len() as int].b) == key);
                        },
                    }
                }
            }
        } else {
            assert forall|k: Seq<char>| fused_at(f, k, 0) is None implies #[trigger] samples_of(obs, k, n) == 0 by {
                assert(samples_of(obs, k, m) == 0);
            }
        }
    }
}

/// Counting is a matter of the observations of each pair.
proof fn lemma_countable(obs: Seq<MeshEdgeView>)
    ensures
        countable(obs) <==> forall|j: int|
            0 <= j < obs.len() && relates(#[trigger] obs[j]) ==> samples_of(obs, key_of(obs[j].a, obs[j].b), obs.len())
                <= u64::MAX,
{
    let f = fused(obs, obs.len());
    lemma_fused_samples(obs, obs.len());
    if countable(obs) {
        assert forall|j: int| 0 <= j < obs.len() && relates(#[trigger] obs[j]) implies samples_of(
            obs,
            key_of(obs[j].a, obs[j].b),
            obs.len(),
        ) <= u64::MAX by {
            let k = key_of(obs[j].a, obs[j].b);
            lemma_fused_at(f, k, 0);
            let i = fused_at(f, k, 0)->0;
            assert(f[i].samples <= u64::MAX);
        }
    }
    if forall|j: int|
        0 <= j < obs.len() && relates(#[trigger] obs[j]) ==> samples_of(obs, key_of(obs[j].a, obs[j].b), obs.len())
            <= u64::MAX {
        assert forall|i: int| 0 <= i < f.len() implies (#[trigger] f[i]).samples <= u64::MAX by {
            let k = key_of(f[i].a, f[i].b);
            lemma_well_fused(obs, obs.len());
            if samples_of(obs, k, obs.len()) > 0 {
                let j = lemma_observed_pair(obs, k, obs.len());
                assert(relates(obs[j]));
            }
        }
    }
}

/// Samples come from some observation.
proof fn lemma_observed_pair(obs: Seq<MeshEdgeView>, key: Seq<char>, n: nat) -> (j: int)
    requires
        n <= obs.len(),
        samples_of(obs, key, n) > 0,
    ensures
        0 <= j < n,
        relates(obs[j]),
        key_of(obs[j].a, obs[j].b) == key,
    decreases n,
{
    let o = obs[n - 1];
    if relates(o) && key_of(o.a, o.b) == key {
        n - 1
    } else {
        lemma_observed_pair(obs, key, (n - 1) as nat)
    }
}

fn does_relate(o: &MeshEdge) -> (r: bool)
    ensures
        r == relates(o@),
{
    !o.a.as_str().is_empty() && !o.b.as_str().is_empty() && o.a != o.b
}

/// Whether the samples of every fused edge fit the counter.
pub fn are_countable(observations: &[MeshEdge]) -> (r: bool)
    ensures
        r == countable(observations@.map_values(|e: MeshEdge| e@)),
{
    let ghost obs = observations@.map_values(|e: MeshEdge| e@);
    proof {
        lemma_countable(obs);
    }
    for j in 0..observations.len()
        invariant
            obs == observations@.map_values(|e: MeshEdge| e@),
            countable(obs) <==> forall|k: int|
                0 <= k < obs.len() && relates(#[trigger] obs[k]) ==> samples_of(
                    obs,
                    key_of(obs[k].a, obs[k].b),
                    obs.len(),
                ) <= u64::MAX,
            forall|k: int|
                0 <= k < j && relates(#[trigger] obs[k]) ==> samples_of(obs, key_of(obs[k].a, obs[k].b), obs.len())
                    <= u64::MAX,
    {
        proof {
            assert(obs[j as int] == observations@[j as int]@);
        }
        if does_relate(&observations[j]) {
            let key = pair_key(observations[j].a.as_str(), observations[j].b.as_str());
            let mut total: u128 = 0;
            for i in 0..observations.len()
                invariant
                    obs == observations@.map_values(|e: MeshEdge| e@),
                    total == samples_of(obs, key@, i as nat),
                    total <= i * 0xffff_ffff_ffff_ffff,
            {
                let o = &observations[i];
                proof {
                    assert(obs[i as int] == o@);
                    assert((i + 1) * 0xffff_ffff_ffff_ffff <= u128::MAX);
                }
                if does_relate(o) && text::same(pair_key(o.a.as_str(), o.b.as_str()).as_str(), key.as_str()) {
                    total = total + if o.samples > 1 { o.samples as u128 } else { 1 };
                }
            }
            if total > 0xffff_ffff_ffff_ffff {
                proof {
                    assert(relates(obs[j as int]));
                }
                return false;
            }
        }
    }
    true
}

} // verus!
