//! Vendor diversity: correlation groups, concentration caps and the diversity penalty.
//!
//! Keeps a job, and a payer's recent jobs, from piling onto one operator or one correlated cluster.
//! `asn` and `region` only count where they are real signals, so hosts without one are not taken to
//! be correlated with each other.

use crate::api::{self, Groups, GroupsView, JobSpec, JobSpecView};
use crate::binary64::Binary64;
use crate::candidate::{self, Candidate, CandidateView};
use crate::latency::{self, LatencyModel, LatencyView};
use crate::partition;
use crate::roster;
use crate::scorer;
use crate::text;
use vstd::prelude::*;

verus! {

/// The grouping value of a key that cannot be derived.
pub const UNKNOWN: &'static str = "unknown";

// ---- grouping keys ----

/// The network provider: what follows the first `asn:` tag that has something after it.
pub open spec fn asn_of(tags: Seq<Seq<char>>) -> Seq<char>
    decreases tags.len(),
{
    if tags.len() == 0 {
        UNKNOWN@
    } else {
        let a = text::trimmed(tags[0].skip(4));
        if text::starts_like(tags[0], "asn:"@) && a.len() > 0 {
            a
        } else {
            asn_of(tags.drop_first())
        }
    }
}

/// A text without white space around it, where that leaves anything.
pub open spec fn stated(s: Option<Seq<char>>) -> Option<Seq<char>> {
    match s {
        Some(t) => if text::trimmed(t).len() > 0 { Some(text::trimmed(t)) } else { None },
        None => None,
    }
}

/// The controller of a host: the recorded owner, else the recorded operator, else the node itself.
pub open spec fn operator_of(c: CandidateView) -> Seq<char> {
    let recorded = match c.history {
        Some(h) => match stated(h.owner) {
            Some(o) => Some(o),
            None => stated(h.operator),
        },
        None => None,
    };
    match recorded {
        Some(o) => o,
        None => if c.node_id.len() == 0 { UNKNOWN@ } else { c.node_id },
    }
}

/// The key of a latency region; one of its own for a node without a region.
pub open spec fn region_key(index: int, node_id: Seq<char>) -> Seq<char> {
    if index >= 0 {
        "r"@ + text::decimal(index as nat)
    } else {
        "r?:"@ + node_id
    }
}

/// The grouping keys of one candidate.
pub open spec fn keys_of(c: CandidateView, graph: Option<LatencyModel>) -> GroupsView {
    let operator = operator_of(c);
    let asn = asn_of(c.capacity.tags);
    let index = match graph {
        Some(g) => (g.region)(c.node_id),
        None => -1,
    };
    let region = region_key(index, c.node_id);
    GroupsView { operator, asn, region, cluster: operator + "|"@ + asn + "|"@ + region }
}

fn find_asn(tags: &Vec<String>) -> (r: String)
    ensures
        r@ == asn_of(text::texts(tags@)),
{
    let ghost all = text::texts(tags@);
    let mut i: usize = 0;
    proof {
        assert(all.skip(0) =~= all);
        reveal_strlit("asn:");
    }
    while i < tags.len()
        invariant
            i <= tags.len(),
            all == text::texts(tags@),
            asn_of(all) == asn_of(all.skip(i as int)),
            "asn:"@.len() == 4,
        decreases tags.len() - i,
    {
        proof {
            assert(all.skip(i as int)[0] == tags@[i as int]@);
            assert(all.skip(i as int).drop_first() =~= all.skip(i + 1));
        }
        if text::begins_like(tags[i].as_str(), "asn:") {
            let a = text::trim_from(tags[i].as_str(), 4);
            if !a.as_str().is_empty() {
                return a;
            }
        }
        i = i + 1;
    }
    UNKNOWN.to_owned()
}

fn state(s: &Option<String>) -> (r: Option<String>)
    ensures
        text::opt_text(r) == stated(text::opt_text(*s)),
{
    match s {
        Some(t) => {
            let u = text::trim(t.as_str());
            if u.as_str().is_empty() {
                None
            } else {
                Some(u)
            }
        },
        None => None,
    }
}

fn find_operator(candidate: &Candidate) -> (r: String)
    ensures
        r@ == operator_of(candidate@),
{
    match &candidate.history {
        Some(h) => {
            match state(&h.owner) {
                Some(o) => {
                    return o;
                },
                None => {},
            }
            match state(&h.operator) {
                Some(o) => {
                    return o;
                },
                None => {},
            }
        },
        None => {},
    }
    if candidate.node_id.as_str().is_empty() {
        UNKNOWN.to_owned()
    } else {
        candidate.node_id.clone()
    }
}

/// The grouping keys of one candidate. A node without a latency region gets a region key of its
/// own, so that two such nodes never share one.
pub fn group_keys<G: LatencyView>(candidate: &Candidate, graph: Option<&G>) -> (r: Groups)
    ensures
        r@ == keys_of(candidate@, latency::model_of(graph)),
{
    let operator = find_operator(candidate);
    let asn = find_asn(&candidate.capacity.tags);
    let index: i64 = match graph {
        Some(g) => g.region_of(candidate.node_id.as_str()),
        None => -1,
    };
    let mut region: String = if index >= 0 { "r".to_owned() } else { "r?:".to_owned() };
    if index >= 0 {
        text::append_decimal(&mut region, index as u64);
    } else {
        region.append(candidate.node_id.as_str());
    }
    let mut cluster = operator.clone();
    cluster.append("|");
    cluster.append(asn.as_str());
    cluster.append("|");
    cluster.append(region.as_str());
    Groups { operator, asn, region, cluster }
}

// ---- clusters ----

/// The value by which a candidate is joined with others, in each of the three name spaces: the
/// operator, a real network, a real region.
#[derive(Debug, Clone, Copy, PartialEq, Eq, Structural)]
pub enum LinkKey {
    Operator,
    Asn,
    Region,
}

pub open spec fn region_is_real(region: Seq<char>) -> bool {
    !text::has_prefix(region, "r?:"@)
}

/// The value under which a candidate is indexed in a name space, where it has one.
pub open spec fn link_value(g: GroupsView, key: LinkKey) -> Option<Seq<char>> {
    match key {
        LinkKey::Operator => if g.operator.len() > 0 { Some(g.operator) } else { None },
        LinkKey::Asn => if g.asn != UNKNOWN@ && g.asn.len() > 0 { Some(g.asn) } else { None },
        LinkKey::Region => if region_is_real(g.region) && g.region.len() > 0 { Some(g.region) } else { None },
    }
}

/// The groups of a candidate, from its own facts where it is not tagged yet.
pub open spec fn groups_of(c: CandidateView) -> GroupsView {
    match c.groups {
        Some(g) => g,
        None => keys_of(c, None),
    }
}

pub open spec fn value_at(pool: Seq<CandidateView>, i: int, key: LinkKey) -> Option<Seq<char>> {
    link_value(groups_of(pool[i]), key)
}

/// The first position from `from` on whose candidate has the value.
pub open spec fn first_with(pool: Seq<CandidateView>, key: LinkKey, value: Seq<char>, from: int) -> int
    decreases pool.len() - from,
{
    if from >= pool.len() || value_at(pool, from, key) == Some(value) {
        from
    } else {
        first_with(pool, key, value, from + 1)
    }
}

/// The first position whose candidate has the given id.
pub open spec fn first_id(pool: Seq<CandidateView>, id: Seq<char>, from: int) -> int
    decreases pool.len() - from,
{
    if from >= pool.len() || pool[from].node_id == id {
        from
    } else {
        first_id(pool, id, from + 1)
    }
}

/// The link of candidate `i` with the first one that has its value.
pub open spec fn link_of(pool: Seq<CandidateView>, i: int, key: LinkKey) -> Seq<(int, int)> {
    match value_at(pool, i, key) {
        Some(v) => seq![(first_with(pool, key, v, 0), i)],
        None => seq![],
    }
}

/// The links of the first `n` candidates.
pub open spec fn cluster_links(pool: Seq<CandidateView>, n: nat) -> Seq<(int, int)>
    decreases n,
{
    if n == 0 {
        Seq::empty()
    } else {
        cluster_links(pool, (n - 1) as nat) + link_of(pool, n - 1, LinkKey::Operator) + link_of(
            pool,
            n - 1,
            LinkKey::Asn,
        ) + link_of(pool, n - 1, LinkKey::Region)
    }
}

/// At first each id is a set of its own, represented by its first position.
pub open spec fn own_roots(pool: Seq<CandidateView>) -> Seq<int> {
    Seq::new(pool.len(), |i: int| first_id(pool, pool[i].node_id, 0))
}

/// The representative of each candidate's set.
pub open spec fn cluster_roots(pool: Seq<CandidateView>) -> Seq<int> {
    partition::united(own_roots(pool), cluster_links(pool, pool.len()))
}

/// The cluster label of a candidate: the id of the representative of its set.
pub open spec fn cluster_label(pool: Seq<CandidateView>, i: int) -> Seq<char> {
    pool[cluster_roots(pool)[i]].node_id
}

pub proof fn lemma_first_id(pool: Seq<CandidateView>, id: Seq<char>, from: int, i: int)
    requires
        0 <= from <= i < pool.len(),
        pool[i].node_id == id,
    ensures
        from <= first_id(pool, id, from) <= i,
        pool[first_id(pool, id, from)].node_id == id,
    decreases i - from,
{
    if pool[from].node_id != id {
        lemma_first_id(pool, id, from + 1, i);
    }
}

pub proof fn lemma_first_with(pool: Seq<CandidateView>, key: LinkKey, value: Seq<char>, from: int, i: int)
    requires
        0 <= from <= i < pool.len(),
        value_at(pool, i, key) == Some(value),
    ensures
        from <= first_with(pool, key, value, from) <= i,
        value_at(pool, first_with(pool, key, value, from), key) == Some(value),
    decreases i - from,
{
    if value_at(pool, from, key) != Some(value) {
        lemma_first_with(pool, key, value, from + 1, i);
    }
}

pub proof fn lemma_cluster_links(pool: Seq<CandidateView>, n: nat)
    requires
        n <= pool.len(),
    ensures
        partition::links_in_range(cluster_links(pool, n), pool.len()),
    decreases n,
{
    if n > 0 {
        lemma_cluster_links(pool, (n - 1) as nat);
        let i = n - 1;
        lemma_link_of(pool, i, LinkKey::Operator);
        lemma_link_of(pool, i, LinkKey::Asn);
        lemma_link_of(pool, i, LinkKey::Region);
    }
}

proof fn lemma_link_of(pool: Seq<CandidateView>, i: int, key: LinkKey)
    requires
        0 <= i < pool.len(),
    ensures
        partition::links_in_range(link_of(pool, i, key), pool.len()),
{
    match value_at(pool, i, key) {
        Some(v) => {
            lemma_first_with(pool, key, v, 0, i);
        },
        None => {},
    }
}

pub proof fn lemma_own_roots(pool: Seq<CandidateView>)
    ensures
        partition::in_range(own_roots(pool)),
{
    assert forall|i: int| 0 <= i < pool.len() implies 0 <= #[trigger] own_roots(pool)[i] < pool.len() by {
        lemma_first_id(pool, pool[i].node_id, 0, i);
    }
}

/// The groups of a candidate, from its own facts where it is not tagged yet.
fn groups_or_keys(c: &Candidate) -> (r: Groups)
    ensures
        r@ == groups_of(c@),
{
    match &c.groups {
        Some(g) => g.clone(),
        None => group_keys::<NoLatency>(c, None),
    }
}

/// A latency source that is never there.
struct NoLatency;

impl LatencyView for NoLatency {
    open spec fn model(&self) -> LatencyModel {
        LatencyModel {
            measured: |a: Seq<char>, b: Seq<char>| None,
            predicted: |a: Seq<char>, b: Seq<char>| Binary64::infinity(),
            region: |a: Seq<char>| -1,
        }
    }

    fn measured_rtt(&self, a: &str, b: &str) -> (r: Option<Binary64>) {
        None
    }

    fn predicted_rtt(&self, a: &str, b: &str) -> (r: Binary64) {
        Binary64 { bits: 0x7ff0_0000_0000_0000 }
    }

    fn region_of(&self, node: &str) -> (r: i64) {
        -1
    }
}

/// Compares the values of two tagged candidates in a name space; false where the first has none.
fn same_value(a: &Groups, b: &Groups, key: LinkKey) -> (r: bool)
    ensures
        r == (link_value(a@, key) is Some && link_value(a@, key) == link_value(b@, key)),
{
    match key {
        LinkKey::Operator => !a.operator.as_str().is_empty() && a.operator == b.operator,
        LinkKey::Asn => !text::same(a.asn.as_str(), UNKNOWN) && !a.asn.as_str().is_empty() && a.asn == b.asn,
        LinkKey::Region => !text::begins_with(a.region.as_str(), "r?:") && !a.region.as_str().is_empty() && a.region
            == b.region,
    }
}

/// Joins candidate `i` with the first one that has its value.
fn link(
    groups: &Vec<Groups>,
    roots: &mut Vec<usize>,
    i: usize,
    key: LinkKey,
    pool: Ghost<Seq<CandidateView>>,
    links: Ghost<Seq<(int, int)>>,
)
    requires
        groups.len() == pool@.len(),
        old(roots).len() == pool@.len(),
        i < pool@.len(),
        forall|j: int| 0 <= j < pool@.len() ==> (#[trigger] groups@[j])@ == groups_of(pool@[j]),
        partition::indices(old(roots)@) == partition::united(own_roots(pool@), links@),
    ensures
        final(roots).len() == pool@.len(),
        partition::indices(final(roots)@) == partition::united(
            own_roots(pool@),
            links@ + link_of(pool@, i as int, key),
        ),
{
    let ghost start = partition::indices(roots@);
    let ghost value = value_at(pool@, i as int, key);
    let mut j: usize = 0;
    while j < i && !same_value(&groups[i], &groups[j], key)
        invariant
            j <= i < pool@.len(),
            groups.len() == pool@.len(),
            forall|k: int| 0 <= k < pool@.len() ==> (#[trigger] groups@[k])@ == groups_of(pool@[k]),
            value == value_at(pool@, i as int, key),
            value is Some ==> first_with(pool@, key, value->0, 0) == first_with(pool@, key, value->0, j as int),
        decreases i - j,
    {
        j = j + 1;
    }
    proof {
        let more = links@ + link_of(pool@, i as int, key);
        if value is Some {
            assert(first_with(pool@, key, value->0, 0) == j);
            assert(more.drop_last() =~= links@);
            assert(more.last() == (j as int, i as int));
            if j == i {
                assert(partition::joined(start, i as int, i as int) =~= start);
            }
        } else {
            assert(more =~= links@);
            assert(j == i);
        }
    }
    if j < i {
        partition::join(roots, j, i);
    }
}

/// The representative of each candidate's set.
fn cluster_root_indices(candidates: &[Candidate]) -> (roots: Vec<usize>)
    ensures
        partition::indices(roots@) == cluster_roots(candidate::pool_view(candidates@)),
{
    let ghost pool = candidate::pool_view(candidates@);
    let mut groups: Vec<Groups> = Vec::new();
    let mut roots: Vec<usize> = Vec::new();
    for i in 0..candidates.len()
        invariant
            pool == candidate::pool_view(candidates@),
            groups.len() == i,
            roots.len() == i,
            forall|j: int| 0 <= j < i ==> (#[trigger] groups@[j])@ == groups_of(pool[j]),
            forall|j: int| 0 <= j < i ==> #[trigger] roots@[j] == first_id(pool, pool[j].node_id, 0),
    {
        groups.push(groups_or_keys(&candidates[i]));
        let mut j: usize = 0;
        while j < i && candidates[j].node_id != candidates[i].node_id
            invariant
                j <= i < candidates.len(),
                pool == candidate::pool_view(candidates@),
                first_id(pool, pool[i as int].node_id, 0) == first_id(pool, pool[i as int].node_id, j as int),
            decreases i - j,
        {
            j = j + 1;
        }
        roots.push(j);
    }
    proof {
        assert(partition::indices(roots@) =~= own_roots(pool));
    }
    for i in 0..candidates.len()
        invariant
            pool == candidate::pool_view(candidates@),
            groups.len() == pool.len(),
            roots.len() == pool.len(),
            forall|j: int| 0 <= j < pool.len() ==> (#[trigger] groups@[j])@ == groups_of(pool[j]),
            partition::indices(roots@) == partition::united(own_roots(pool), cluster_links(pool, i as nat)),
    {
        let ghost mut done = cluster_links(pool, i as nat);
        link(&groups, &mut roots, i, LinkKey::Operator, Ghost(pool), Ghost(done));
        proof {
            done = done + link_of(pool, i as int, LinkKey::Operator);
        }
        link(&groups, &mut roots, i, LinkKey::Asn, Ghost(pool), Ghost(done));
        proof {
            done = done + link_of(pool, i as int, LinkKey::Asn);
        }
        link(&groups, &mut roots, i, LinkKey::Region, Ghost(pool), Ghost(done));
    }
    roots
}

/// The cluster label of each candidate.
fn cluster_labels(candidates: &[Candidate]) -> (r: Vec<String>)
    ensures
        r.len() == candidates@.len(),
        forall|i: int|
            0 <= i < r.len() ==> (#[trigger] r@[i])@ == cluster_label(candidate::pool_view(candidates@), i),
{
    let ghost pool = candidate::pool_view(candidates@);
    let roots = cluster_root_indices(candidates);
    proof {
        lemma_own_roots(pool);
        lemma_cluster_links(pool, pool.len());
        partition::lemma_united_in_range(own_roots(pool), cluster_links(pool, pool.len()));
    }
    let mut r: Vec<String> = Vec::new();
    for i in 0..candidates.len()
        invariant
            pool == candidate::pool_view(candidates@),
            partition::indices(roots@) == cluster_roots(pool),
            cluster_roots(pool).len() == pool.len(),
            partition::in_range(cluster_roots(pool)),
            r.len() == i,
            forall|j: int| 0 <= j < i ==> (#[trigger] r@[j])@ == cluster_label(pool, j),
    {
        proof {
            assert(cluster_roots(pool)[i as int] == roots@[i as int]);
        }
        let root: usize = roots[i];
        r.push(candidates[root].node_id.clone());
    }
    r
}

/// The ids of a pool.
pub open spec fn ids_of(pool: Seq<CandidateView>) -> Seq<Seq<char>> {
    pool.map_values(|c: CandidateView| c.node_id)
}

/// The nodes of a pool, each once, with their cluster labels.
pub open spec fn clusters(pool: Seq<CandidateView>) -> Seq<(Seq<char>, Seq<char>)> {
    roster::first_occurrences(ids_of(pool)).map_values(
        |id: Seq<char>| (id, cluster_label(pool, first_id(pool, id, 0))),
    )
}

/// Pairs of texts as sequences of characters.
pub open spec fn text_pairs(s: Seq<(String, String)>) -> Seq<(Seq<char>, Seq<char>)> {
    s.map_values(|x: (String, String)| (x.0@, x.1@))
}

/// Gives each node among the candidates a cluster label, each node once, in order of first occurrence.
/// Candidates of one node, and candidates that share an operator, a real network or a real region, are
/// in one cluster, transitively; the label is the id of one of its members.
pub fn cluster_of(candidates: &[Candidate]) -> (r: Vec<(String, String)>)
    ensures
        text_pairs(r@) == clusters(candidate::pool_view(candidates@)),
        forall|i: int, j: int| 0 <= i < j < r.len() ==> (#[trigger] r@[i]).0@ != (#[trigger] r@[j]).0@,
{
    let ghost pool = candidate::pool_view(candidates@);
    let ghost all = ids_of(pool);
    let labels = cluster_labels(candidates);
    let mut ids: Vec<String> = Vec::new();
    let mut r: Vec<(String, String)> = Vec::new();
    proof {
        assert(text::texts(ids@) =~= roster::first_occurrences(all.take(0)));
    }
    for i in 0..candidates.len()
        invariant
            pool == candidate::pool_view(candidates@),
            all == ids_of(pool),
            labels.len() == pool.len(),
            forall|j: int| 0 <= j < pool.len() ==> (#[trigger] labels@[j])@ == cluster_label(pool, j),
            text::texts(ids@) == roster::first_occurrences(all.take(i as int)),
            r.len() == ids.len(),
            forall|j: int|
                0 <= j < r.len() ==> (#[trigger] r@[j]).0@ == ids@[j]@ && r@[j].1@ == cluster_label(
                    pool,
                    first_id(pool, ids@[j]@, 0),
                ),
    {
        let id = &candidates[i].node_id;
        let ghost before = text::texts(ids@);
        proof {
            assert(pool[i as int] == candidates@[i as int]@);
            assert(all.take(i + 1).drop_last() =~= all.take(i as int));
            assert(all.take(i + 1).last() == id@);
            roster::lemma_position(before, id@);
        }
        if roster::find(&ids, id.as_str()).is_none() {
            proof {
                let f = first_id(pool, id@, 0);
                lemma_first_id(pool, id@, 0, i as int);
                roster::lemma_first_occurrences(all.take(i as int));
                if f < i {
                    assert(all.take(i as int)[f] == id@);
                }
                assert(f == i);
            }
            ids.push(id.clone());
            r.push((id.clone(), labels[i].clone()));
            proof {
                assert(text::texts(ids@) =~= before.push(id@));
            }
        }
    }
    proof {
        assert(all.take(candidates.len() as int) =~= all);
        roster::lemma_first_occurrences(all);
        let names = roster::first_occurrences(all);
        assert forall|j: int| 0 <= j < r.len() implies (#[trigger] r@[j]).0@ == names[j] by {
            assert(text::texts(ids@)[j] == names[j]);
        }
        assert(text_pairs(r@) =~= clusters(pool));
    }
    r
}

/// The candidate with its grouping keys.
pub open spec fn keyed(c: CandidateView, graph: Option<LatencyModel>) -> CandidateView {
    CandidateView { groups: Some(keys_of(c, graph)), ..c }
}

/// The pool with grouping keys.
pub open spec fn keyed_pool(pool: Seq<CandidateView>, graph: Option<LatencyModel>) -> Seq<CandidateView> {
    pool.map_values(|c: CandidateView| keyed(c, graph))
}

/// The pool with grouping keys and cluster labels.
pub open spec fn tagged(pool: Seq<CandidateView>, graph: Option<LatencyModel>) -> Seq<CandidateView> {
    Seq::new(
        pool.len(),
        |i: int|
            CandidateView {
                groups: Some(
                    GroupsView { cluster: cluster_label(keyed_pool(pool, graph), i), ..keys_of(pool[i], graph) },
                ),
                ..pool[i]
            },
    )
}

/// Attaches groups to every candidate, with cluster labels over the whole pool.
pub fn tag_candidates<G: LatencyView>(candidates: Vec<Candidate>, graph: Option<&G>) -> (r: Vec<Candidate>)
    ensures
        candidate::pool_view(r@) == tagged(candidate::pool_view(candidates@), latency::model_of(graph)),
{
    let ghost pool = candidate::pool_view(candidates@);
    let ghost model = latency::model_of(graph);
    let mut out: Vec<Candidate> = candidates;
    let mut i: usize = 0;
    while i < out.len()
        invariant
            i <= out.len() == pool.len(),
            model == latency::model_of(graph),
            forall|j: int| 0 <= j < i ==> (#[trigger] out@[j])@ == keyed(pool[j], model),
            forall|j: int| i <= j < out.len() ==> (#[trigger] out@[j])@ == pool[j],
        decreases out.len() - i,
    {
        let mut c = out[i].clone();
        let keys = group_keys(&c, graph);
        c.groups = Some(keys);
        out.set(i, c);
        i = i + 1;
    }
    proof {
        assert(candidate::pool_view(out@) =~= keyed_pool(pool, model));
    }
    let labels = cluster_labels(out.as_slice());
    let mut i: usize = 0;
    while i < out.len()
        invariant
            i <= out.len() == pool.len(),
            labels.len() == pool.len(),
            forall|j: int| 0 <= j < pool.len() ==> (#[trigger] labels@[j])@ == cluster_label(keyed_pool(pool, model), j),
            forall|j: int| 0 <= j < i ==> (#[trigger] out@[j])@ == tagged(pool, model)[j],
            forall|j: int| i <= j < out.len() ==> (#[trigger] out@[j])@ == keyed(pool[j], model),
        decreases out.len() - i,
    {
        let mut c = out[i].clone();
        proof {
            assert(out@[i as int]@ == keyed(pool[i as int], model));
        }
        let g = match &c.groups {
            Some(g) => Groups {
                operator: g.operator.clone(),
                asn: g.asn.clone(),
                region: g.region.clone(),
                cluster: labels[i].clone(),
            },
            None => group_keys(&c, graph),
        };
        c.groups = Some(g);
        out.set(i, c);
        i = i + 1;
    }
    proof {
        assert(candidate::pool_view(out@) =~= tagged(pool, model));
    }
    out
}

// ---- caps ----

/// The largest number of hosts that one group may hold: the share of the replicas, rounded up, at
/// least one.
pub open spec fn group_cap(effective_k: u32, max_share: Binary64) -> int {
    let k = Binary64::fraction(if effective_k > 0 { effective_k as int } else { 1 }, 1);
    let share = if max_share.finite() { max_share } else { Binary64::fraction(34, 100) };
    let cap = k.times(if Binary64::one().less(share) { Binary64::one() } else { share }).ceiling();
    if share.at_most(Binary64::zero()) || cap < 1 {
        1
    } else if cap > u32::MAX {
        u32::MAX as int
    } else {
        cap
    }
}

/// The largest number of hosts that one group may hold. A non-finite share counts as 0.34, a
/// non-positive one gives 1, one above 1 counts as 1.
pub fn per_group_cap(effective_k: u32, max_share: Binary64) -> (r: u32)
    ensures
        r == group_cap(effective_k, max_share),
{
    let k = Binary64::from_u64(if effective_k > 0 { effective_k as u64 } else { 1 });
    let one = Binary64 { bits: 0x3ff0_0000_0000_0000 };
    let share = if max_share.is_finite() { max_share } else { Binary64::ratio(34, 100) };
    if share.le(Binary64 { bits: 0 }) {
        return 1;
    }
    let share = if one.lt(share) { one } else { share };
    let cap: u32 = k.mul(share).ceil_to_u32();
    if cap < 1 {
        1
    } else {
        cap
    }
}

/// The correlation groups that a hard cap can fire on.
#[derive(Debug, Clone, Copy, PartialEq, Eq, Structural)]
pub enum GroupKey {
    Operator,
    Asn,
    Region,
    Cluster,
}

impl GroupKey {
    pub open spec fn name(self) -> Seq<char> {
        match self {
            GroupKey::Operator => "operator"@,
            GroupKey::Asn => "asn"@,
            GroupKey::Region => "region"@,
            GroupKey::Cluster => "cluster"@,
        }
    }

    /// The wire string for this key.
    pub fn as_str(&self) -> (r: &'static str)
        ensures
            r@ == self.name(),
    {
        match self {
            GroupKey::Operator => "operator",
            GroupKey::Asn => "asn",
            GroupKey::Region => "region",
            GroupKey::Cluster => "cluster",
        }
    }
}

/// Whether the key of a candidate is a signal at all.
pub open spec fn counts(g: GroupsView, key: GroupKey) -> bool {
    match key {
        GroupKey::Asn => g.asn != UNKNOWN@,
        GroupKey::Region => region_is_real(g.region),
        _ => true,
    }
}

/// Whether `other` shares the group of `c` under a key that is a signal for `c`.
pub open spec fn shares(c: CandidateView, other: CandidateView, key: GroupKey) -> bool {
    match (c.groups, other.groups) {
        (Some(g), Some(h)) => counts(g, key) && match key {
            GroupKey::Operator => h.operator == g.operator,
            GroupKey::Asn => h.asn == g.asn,
            GroupKey::Region => h.region == g.region,
            GroupKey::Cluster => h.cluster == g.cluster,
        },
        _ => false,
    }
}

pub open spec fn shares_any(c: CandidateView, other: CandidateView) -> bool {
    shares(c, other, GroupKey::Operator) || shares(c, other, GroupKey::Asn) || shares(c, other, GroupKey::Region)
        || shares(c, other, GroupKey::Cluster)
}

/// How many of `chosen` share the group of `c`.
pub open spec fn sharing(c: CandidateView, chosen: Seq<CandidateView>, key: GroupKey) -> nat
    decreases chosen.len(),
{
    if chosen.len() == 0 {
        0
    } else {
        sharing(c, chosen.drop_last(), key) + if shares(c, chosen.last(), key) {
            1nat
        } else {
            0nat
        }
    }
}

/// How many of `chosen` share any group of `c`.
pub open spec fn sharing_any(c: CandidateView, chosen: Seq<CandidateView>) -> nat
    decreases chosen.len(),
{
    if chosen.len() == 0 {
        0
    } else {
        sharing_any(c, chosen.drop_last()) + if shares_any(c, chosen.last()) {
            1nat
        } else {
            0nat
        }
    }
}

/// The views of chosen candidates.
pub open spec fn chosen_view(chosen: Seq<&Candidate>) -> Seq<CandidateView> {
    chosen.map_values(|c: &Candidate| c@)
}

/// How many of the chosen share each group with a candidate.
pub(crate) struct GroupCounts {
    pub operator: u32,
    pub asn: u32,
    pub region: u32,
    pub cluster: u32,
    /// How many share at least one.
    pub any: u32,
}

pub(crate) fn group_counts(candidate: &Candidate, chosen: &[&Candidate]) -> (r: GroupCounts)
    requires
        chosen@.len() <= u32::MAX,
    ensures
        r.operator == sharing(candidate@, chosen_view(chosen@), GroupKey::Operator),
        r.asn == sharing(candidate@, chosen_view(chosen@), GroupKey::Asn),
        r.region == sharing(candidate@, chosen_view(chosen@), GroupKey::Region),
        r.cluster == sharing(candidate@, chosen_view(chosen@), GroupKey::Cluster),
        r.any == sharing_any(candidate@, chosen_view(chosen@)),
        r.operator <= chosen@.len(),
        r.asn <= chosen@.len(),
        r.region <= chosen@.len(),
        r.cluster <= chosen@.len(),
        r.any <= chosen@.len(),
{
    let ghost all = chosen_view(chosen@);
    let ghost c = candidate@;
    let mut r = GroupCounts { operator: 0, asn: 0, region: 0, cluster: 0, any: 0 };
    for i in 0..chosen.len()
        invariant
            all == chosen_view(chosen@),
            c == candidate@,
            chosen@.len() <= u32::MAX,
            r.operator <= i,
            r.asn <= i,
            r.region <= i,
            r.cluster <= i,
            r.any <= i,
            r.operator == sharing(c, all.take(i as int), GroupKey::Operator),
            r.asn == sharing(c, all.take(i as int), GroupKey::Asn),
            r.region == sharing(c, all.take(i as int), GroupKey::Region),
            r.cluster == sharing(c, all.take(i as int), GroupKey::Cluster),
            r.any == sharing_any(c, all.take(i as int)),
    {
        proof {
            assert(all.take(i + 1).drop_last() =~= all.take(i as int));
            assert(all.take(i + 1).last() == chosen@[i as int]@);
        }
        match (&candidate.groups, &chosen[i].groups) {
            (Some(g), Some(h)) => {
                let operator: bool = h.operator == g.operator;
                let asn: bool = !text::same(g.asn.as_str(), UNKNOWN) && h.asn == g.asn;
                let region: bool = !text::begins_with(g.region.as_str(), "r?:") && h.region == g.region;
                let cluster: bool = h.cluster == g.cluster;
                if operator {
                    r.operator = r.operator + 1;
                }
                if asn {
                    r.asn = r.asn + 1;
                }
                if region {
                    r.region = r.region + 1;
                }
                if cluster {
                    r.cluster = r.cluster + 1;
                }
                if operator || asn || region || cluster {
                    r.any = r.any + 1;
                }
            },
            _ => {},
        }
    }
    proof {
        assert(all.take(chosen.len() as int) =~= all);
    }
    r
}

// ---- penalty ----

/// The sum of the counts that are finite and positive.
pub open spec fn recent_total(recent: Seq<(Seq<char>, Binary64)>) -> Binary64
    decreases recent.len(),
{
    if recent.len() == 0 {
        Binary64::zero()
    } else {
        let t = recent_total(recent.drop_last());
        if recent.last().1.positive() {
            t.plus(recent.last().1)
        } else {
            t
        }
    }
}

/// The share of the payer's recent placements that went to the candidate's operator.
pub open spec fn recent_load(c: CandidateView, spec: JobSpecView) -> Binary64 {
    match spec.recent_placements {
        Some(recent) => {
            let total = recent_total(recent);
            let operator = match c.groups {
                Some(g) => g.operator,
                None => operator_of(c),
            };
            match api::lookup(recent, operator) {
                Some(mine) => if Binary64::zero().less(total) && mine.positive() {
                    mine.over(total)
                } else {
                    Binary64::zero()
                },
                None => Binary64::zero(),
            }
        },
        None => Binary64::zero(),
    }
}

/// The share of the chosen that share any group with the candidate.
pub open spec fn group_load(c: CandidateView, chosen: Seq<CandidateView>) -> Binary64 {
    if chosen.len() == 0 {
        Binary64::zero()
    } else {
        Binary64::fraction(sharing_any(c, chosen) as int, 1).over(Binary64::fraction(chosen.len() as int, 1))
    }
}

/// The diversity penalty: correlation with what is chosen, plus correlation with recent jobs.
pub open spec fn penalty(c: CandidateView, chosen: Seq<CandidateView>, spec: JobSpecView) -> Binary64 {
    group_load(c, chosen).plus(recent_load(c, spec))
}

fn find_recent_load(candidate: &Candidate, spec: &JobSpec) -> (r: Binary64)
    ensures
        r == recent_load(candidate@, spec@),
{
    let zero = Binary64 { bits: 0 };
    match &spec.recent_placements {
        Some(recent) => {
            let mut total = zero;
            let n: usize = recent.len();
            for i in 0..n
                invariant
                    n == recent@.len(),
                    total == recent_total(recent@.take(i as int)),
            {
                proof {
                    assert(recent@.take(i + 1).drop_last() =~= recent@.take(i as int));
                }
                let v = recent.count(i);
                if scorer::is_positive(v) {
                    total = total.add(v);
                }
            }
            proof {
                assert(recent@.take(n as int) =~= recent@);
            }
            if !zero.lt(total) {
                return zero;
            }
            let operator = match &candidate.groups {
                Some(g) => g.operator.clone(),
                None => find_operator(candidate),
            };
            match recent.get(operator.as_str()) {
                Some(mine) => {
                    if scorer::is_positive(mine) {
                        mine.div(total)
                    } else {
                        zero
                    }
                },
                None => zero,
            }
        },
        None => zero,
    }
}

/// The diversity penalty of a candidate, roughly in `[0, 2]`. Zero for the first pick of a payer
/// without recent placements.
pub fn diversity_penalty(candidate: &Candidate, chosen: &[&Candidate], spec: &JobSpec) -> (r: Binary64)
    requires
        chosen@.len() <= u32::MAX,
    ensures
        r == penalty(candidate@, chosen_view(chosen@), spec@),
{
    let counts = group_counts(candidate, chosen);
    let load = if chosen.len() > 0 {
        Binary64::from_u64(counts.any as u64).div(Binary64::from_u64(chosen.len() as u64))
    } else {
        Binary64 { bits: 0 }
    };
    load.add(find_recent_load(candidate, spec))
}

// ---- hard caps ----

/// What [`violates_cap`] enforces.
#[derive(Debug, Clone, Copy)]
pub struct Caps {
    /// Most chosen hosts per group; `u32::MAX` for no cap.
    pub per_group: u32,
    /// No two replicas of one operator.
    pub require_distinct_operator: bool,
}

/// One more host in the group would pass the cap.
pub open spec fn full(c: CandidateView, chosen: Seq<CandidateView>, key: GroupKey, per_group: u32) -> bool {
    sharing(c, chosen, key) + 1 > per_group
}

/// Whether the key of a candidate is a signal; false where the candidate is not tagged.
pub open spec fn signals(c: CandidateView, key: GroupKey) -> bool {
    match c.groups {
        Some(g) => counts(g, key),
        None => false,
    }
}

/// The first constraint that adding `c` would break.
pub open spec fn violation(c: CandidateView, chosen: Seq<CandidateView>, caps: Caps) -> Option<GroupKey> {
    if caps.require_distinct_operator && sharing(c, chosen, GroupKey::Operator) > 0 {
        Some(GroupKey::Operator)
    } else if full(c, chosen, GroupKey::Operator, caps.per_group) {
        Some(GroupKey::Operator)
    } else if signals(c, GroupKey::Asn) && full(c, chosen, GroupKey::Asn, caps.per_group) {
        Some(GroupKey::Asn)
    } else if signals(c, GroupKey::Region) && full(c, chosen, GroupKey::Region, caps.per_group) {
        Some(GroupKey::Region)
    } else if full(c, chosen, GroupKey::Cluster, caps.per_group) {
        Some(GroupKey::Cluster)
    } else {
        None
    }
}

/// The group key whose constraint adding `candidate` to `chosen` would break, or `None` if the
/// candidate is admissible. The distinct-operator gate comes first; it does not depend on counts.
pub fn violates_cap(candidate: &Candidate, chosen: &[&Candidate], caps: &Caps) -> (r: Option<GroupKey>)
    requires
        chosen@.len() < u32::MAX,
    ensures
        r == violation(candidate@, chosen_view(chosen@), *caps),
{
    let counts = group_counts(candidate, chosen);
    if caps.require_distinct_operator && counts.operator > 0 {
        return Some(GroupKey::Operator);
    }
    if counts.operator + 1 > caps.per_group {
        return Some(GroupKey::Operator);
    }
    match &candidate.groups {
        Some(g) => {
            if !text::same(g.asn.as_str(), UNKNOWN) && counts.asn + 1 > caps.per_group {
                return Some(GroupKey::Asn);
            }
            if !text::begins_with(g.region.as_str(), "r?:") && counts.region + 1 > caps.per_group {
                return Some(GroupKey::Region);
            }
        },
        None => {},
    }
    if counts.cluster + 1 > caps.per_group {
        return Some(GroupKey::Cluster);
    }
    None
}

} // verus!
