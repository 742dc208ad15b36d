//! What texts stand for: amounts, and the keys by which hosts are grouped.

use crate::api::GroupsView;
use crate::candidate::CandidateView;
use crate::correlation;
use crate::latency::LatencyModel;
use crate::scorer;
use crate::text;
use crate::vendor;
use vstd::prelude::*;

verus! {

// ---- white space ----

proof fn lemma_trimmed_start(s: Seq<char>) -> (a: int)
    ensures
        0 <= a <= s.len(),
        text::trimmed_start(s) == s.skip(a),
        forall|i: int| 0 <= i < a ==> text::is_space(#[trigger] s[i]),
        a < s.len() ==> !text::is_space(s[a]),
    decreases s.len(),
{
    if s.len() > 0 && text::is_space(s[0]) {
        let rest = s.drop_first();
        let a = lemma_trimmed_start(rest);
        assert(rest.skip(a) =~= s.skip(a + 1));
        assert forall|i: int| 0 <= i < a + 1 implies text::is_space(#[trigger] s[i]) by {
            if i > 0 {
                assert(rest[i - 1] == s[i]);
            }
        }
        if a < rest.len() {
            assert(rest[a] == s[a + 1]);
        }
        a + 1
    } else {
        assert(s.skip(0) =~= s);
        0
    }
}

proof fn lemma_trimmed_end(s: Seq<char>) -> (b: int)
    ensures
        0 <= b <= s.len(),
        text::trimmed_end(s) == s.take(b),
        forall|i: int| b <= i < s.len() ==> text::is_space(#[trigger] s[i]),
        b > 0 ==> !text::is_space(s[b - 1]),
    decreases s.len(),
{
    if s.len() > 0 && text::is_space(s.last()) {
        let rest = s.drop_last();
        let b = lemma_trimmed_end(rest);
        assert(rest.take(b) =~= s.take(b));
        assert forall|i: int| b <= i < s.len() implies text::is_space(#[trigger] s[i]) by {
            if i < rest.len() {
                assert(rest[i] == s[i]);
            }
        }
        b
    } else {
        assert(s.take(s.len() as int) =~= s);
        s.len() as int
    }
}

/// Trimming takes off white space at both ends, all of it and nothing else.
pub proof fn lemma_trimmed(s: Seq<char>) -> (r: (int, int))
    ensures
        ({
            let (a, b) = r;
            let t = text::trimmed(s);
            &&& 0 <= a <= b <= s.len()
            &&& t == s.subrange(a, b)
            &&& forall|i: int| 0 <= i < a || b <= i < s.len() ==> text::is_space(#[trigger] s[i])
            &&& t.len() > 0 ==> !text::is_space(t[0]) && !text::is_space(t[t.len() - 1])
        }),
{
    let a = lemma_trimmed_start(s);
    let m = s.skip(a);
    let b = lemma_trimmed_end(m);
    assert(m.take(b) =~= s.subrange(a, a + b));
    assert forall|i: int| 0 <= i < a || a + b <= i < s.len() implies text::is_space(#[trigger] s[i]) by {
        if i >= a + b {
            assert(m[i - a] == s[i]);
        }
    }
    if b > 0 {
        assert(m[b - 1] == s[a + b - 1]);
        assert(m[0] == s[a]);
    }
    (a, a + b)
}

// ---- order ----

/// The first position at which two texts differ, or at which the shorter one ends.
proof fn lemma_first_difference(a: Seq<char>, b: Seq<char>) -> (k: int)
    ensures
        0 <= k <= a.len(),
        k <= b.len(),
        forall|i: int| 0 <= i < k ==> #[trigger] a[i] == b[i],
        k < a.len() && k < b.len() ==> a[k] != b[k],
        text::lex_less(a, b) <==> k < b.len() && (k == a.len() || (a[k] as int) < (b[k] as int)),
    decreases a.len(),
{
    if a.len() > 0 && b.len() > 0 && a[0] == b[0] {
        let (x, y) = (a.drop_first(), b.drop_first());
        let k = lemma_first_difference(x, y);
        assert forall|i: int| 0 <= i < k + 1 implies #[trigger] a[i] == b[i] by {
            if i > 0 {
                assert(x[i - 1] == y[i - 1]);
            }
        }
        if k < x.len() && k < y.len() {
            assert(x[k] == a[k + 1] && y[k] == b[k + 1]);
        }
        k + 1
    } else {
        0
    }
}

/// Texts are ordered as in a dictionary: at the first character in which they differ, the smaller code
/// point comes first, and a text comes before what continues it.
pub proof fn lemma_dictionary_order(a: Seq<char>, b: Seq<char>, k: int)
    requires
        0 <= k <= a.len(),
        k <= b.len(),
        forall|i: int| 0 <= i < k ==> #[trigger] a[i] == b[i],
    ensures
        k < a.len() && k < b.len() && a[k] < b[k] ==> text::lex_less(a, b) && !text::lex_less(b, a),
        k == a.len() && k < b.len() ==> text::lex_less(a, b) && !text::lex_less(b, a),
        k == a.len() && k == b.len() ==> !text::lex_less(a, b),
{
    let j = lemma_first_difference(a, b);
    text::lemma_lex_asymmetric(a, b);
    if j < k {
        assert(a[j] == b[j]);
    }
    if k < j {
        assert(a[k] == b[k]);
    }
}

// ---- amounts ----

proof fn lemma_decimal_value(n: nat)
    ensures
        text::all_digits(text::decimal(n)),
        text::digits_value(text::decimal(n)) == n,
        text::decimal(n).len() > 0,
        text::decimal(n)[0] != '+',
        text::decimal(n)[0] != '-',
    decreases n,
{
    let s = text::decimal(n);
    text::lemma_decimal_digits(n);
    reveal_with_fuel(text::digits_value, 2);
    assert forall|i: int| 0 <= i < s.len() implies #[trigger] text::is_digit(s[i]) by {}
    if n < 10 {
        assert(s.drop_last() =~= Seq::empty());
    } else {
        lemma_decimal_value(n / 10);
        assert(s.drop_last() =~= text::decimal(n / 10));
    }
}

/// An amount is read back as it was written in decimal: bare, with a sign, and with white space around
/// it.
pub proof fn lemma_amounts_read_back(n: nat, before: Seq<char>, after: Seq<char>)
    requires
        n <= i128::MAX,
        forall|i: int| 0 <= i < before.len() ==> text::is_space(#[trigger] before[i]),
        forall|i: int| 0 <= i < after.len() ==> text::is_space(#[trigger] after[i]),
    ensures
        scorer::amount(before + text::decimal(n) + after) == n,
        scorer::amount(before + (seq!['-'] + text::decimal(n)) + after) == -n,
        scorer::amount(before + (seq!['+'] + text::decimal(n)) + after) == n,
        scorer::given_amount(Some(before + text::decimal(n) + after)) == Some(n as int),
        scorer::given_amount(Some(before + (seq!['-'] + text::decimal(n)) + after)) == Some(-n),
        scorer::given_amount(None) is None,
{
    let d = text::decimal(n);
    lemma_decimal_value(n);
    let minus = seq!['-'] + d;
    let plus = seq!['+'] + d;
    assert(minus.skip(1) =~= d);
    assert(plus.skip(1) =~= d);
    text::lemma_decimal_digits(n);
    assert(text::numeral(d) == Some(n as int));
    assert(text::numeral(minus) == Some(-(n as int)));
    assert(text::numeral(plus) == Some(n as int));
    lemma_padding_goes(before, d, after);
    lemma_padding_goes(before, minus, after);
    lemma_padding_goes(before, plus, after);
}

proof fn lemma_padding_goes(before: Seq<char>, t: Seq<char>, after: Seq<char>)
    requires
        t.len() > 0,
        !text::is_space(t[0]),
        !text::is_space(t[t.len() - 1]),
        forall|i: int| 0 <= i < before.len() ==> text::is_space(#[trigger] before[i]),
        forall|i: int| 0 <= i < after.len() ==> text::is_space(#[trigger] after[i]),
    ensures
        text::trimmed(before + t + after) == t,
{
    let s = before + t + after;
    let (a, b) = lemma_trimmed(s);
    let p = before.len() as int;
    let q = p + t.len();
    assert(s[p] == t[0]);
    assert(s[q - 1] == t[t.len() - 1]);
    assert(a <= p && q <= b);
    if a < p {
        assert(s[a] == before[a]);
        assert(s.subrange(a, b)[0] == s[a]);
    }
    if q < b {
        assert(s[b - 1] == after[b - 1 - q]);
        assert(s.subrange(a, b)[b - a - 1] == s[b - 1]);
    }
    assert(s.subrange(a, b) =~= t);
}

proof fn lemma_digit(c: char)
    ensures
        text::is_digit(c) <==> '0' <= c <= '9',
{
}

/// A text that holds anything but digits after an optional sign is no amount.
pub proof fn lemma_other_texts_are_no_amounts(s: Seq<char>, i: int)
    requires
        0 <= i < text::trimmed(s).len(),
        !('0' <= text::trimmed(s)[i] <= '9'),
        i > 0 || (text::trimmed(s)[0] != '+' && text::trimmed(s)[0] != '-') || text::trimmed(s).len() == 1,
    ensures
        scorer::given_amount(Some(s)) is None,
        scorer::amount(s) == 0,
{
    let t = text::trimmed(s);
    let signed = t[0] == '+' || t[0] == '-';
    lemma_digit(t[i]);
    if signed && i > 0 {
        assert(t.skip(1)[i - 1] == t[i]);
        assert(!text::is_digit(t.skip(1)[i - 1]));
    } else if !signed {
        assert(!text::is_digit(t[i]));
    }
}

// ---- keys ----

/// A letter is lower case, or the upper-case one.
pub proof fn lemma_lower(c: char, small: char, large: char)
    requires
        0x61 <= small as u32 <= 0x7a,
        large as u32 + 0x20 == small as u32,
    ensures
        crate::text::lower(c) == small <==> c == small || c == large,
{
}

/// The tag `asn:`, in any mixture of cases, and what follows it.
pub open spec fn names_network(tag: Seq<char>) -> bool {
    &&& tag.len() >= 4
    &&& tag[0] == 'a' || tag[0] == 'A'
    &&& tag[1] == 's' || tag[1] == 'S'
    &&& tag[2] == 'n' || tag[2] == 'N'
    &&& tag[3] == ':'
    &&& text::trimmed(tag.skip(4)).len() > 0
}

proof fn lemma_asn_tag(tag: Seq<char>)
    ensures
        names_network(tag) <==> text::starts_like(tag, "asn:"@) && text::trimmed(tag.skip(4)).len() > 0,
{
    reveal_strlit("asn:");
    let word = "asn:"@;
    if tag.len() >= 4 {
        lemma_lower(tag[0], 'a', 'A');
        lemma_lower(tag[1], 's', 'S');
        lemma_lower(tag[2], 'n', 'N');
        if text::starts_like(tag, word) {
            assert(text::lower(tag[0]) == word[0]);
            assert(text::lower(tag[1]) == word[1]);
            assert(text::lower(tag[2]) == word[2]);
            assert(text::lower(tag[3]) == word[3]);
        }
        if names_network(tag) {
            assert forall|i: int| 0 <= i < word.len() implies text::lower(#[trigger] tag[i]) == word[i] by {
                if i == 0 {
                } else if i == 1 {
                } else if i == 2 {
                } else {
                    assert(i == 3);
                }
            }
        }
    }
}

proof fn lemma_asn(tags: Seq<Seq<char>>, k: int)
    requires
        0 <= k <= tags.len(),
        forall|i: int| 0 <= i < k ==> !names_network(#[trigger] tags[i]),
        k < tags.len() ==> names_network(tags[k]),
    ensures
        vendor::asn_of(tags) == if k < tags.len() { text::trimmed(tags[k].skip(4)) } else { "unknown"@ },
    decreases tags.len(),
{
    if tags.len() > 0 {
        lemma_asn_tag(tags[0]);
        if k > 0 {
            let rest = tags.drop_first();
            assert forall|i: int| 0 <= i < k - 1 implies !names_network(#[trigger] rest[i]) by {
                assert(rest[i] == tags[i + 1]);
            }
            lemma_asn(rest, k - 1);
        }
    }
}

/// The keys of a host: the operator is the recorded owner, else the recorded operator, both without white
/// space around them and where that leaves anything, else the node itself; the network is what follows the
/// first `asn:` tag that has anything after it, position `k`, else unknown; the region is the number of
/// its latency region, else one of its own; and the cluster joins the three.
pub proof fn lemma_keys_of_a_host(c: CandidateView, graph: Option<LatencyModel>, k: int)
    requires
        0 <= k <= c.capacity.tags.len(),
        forall|i: int| 0 <= i < k ==> !names_network(#[trigger] c.capacity.tags[i]),
        k < c.capacity.tags.len() ==> names_network(c.capacity.tags[k]),
    ensures
        ({
            let g = vendor::keys_of(c, graph);
            let blank = |s: Option<Seq<char>>| s is None || text::trimmed(s->0).len() == 0;
            &&& c.history matches Some(h) ==> !blank(h.owner) ==> g.operator == text::trimmed(h.owner->0)
            &&& c.history matches Some(h) ==> blank(h.owner) && !blank(h.operator) ==> g.operator == text::trimmed(
                h.operator->0,
            )
            &&& (c.history matches Some(h) ==> blank(h.owner) && blank(h.operator)) ==> g.operator == if c.node_id.len()
                > 0 {
                c.node_id
            } else {
                "unknown"@
            }
            &&& g.asn == if k < c.capacity.tags.len() {
                text::trimmed(c.capacity.tags[k].skip(4))
            } else {
                "unknown"@
            }
            &&& g.region == match graph {
                Some(m) => if (m.region)(c.node_id) >= 0 {
                    "r"@ + text::decimal((m.region)(c.node_id) as nat)
                } else {
                    "r?:"@ + c.node_id
                },
                None => "r?:"@ + c.node_id,
            }
            &&& g.cluster == g.operator + "|"@ + g.asn + "|"@ + g.region
        }),
{
    lemma_asn(c.capacity.tags, k);
}

// ---- clusters ----

/// Two hosts are akin: one node, or one operator, one known network, one known region.
pub open spec fn akin(a: CandidateView, b: CandidateView, g: GroupsView, h: GroupsView) -> bool {
    ||| a.node_id == b.node_id
    ||| g.operator == h.operator && g.operator.len() > 0
    ||| g.asn == h.asn && g.asn.len() > 0 && g.asn != "unknown"@
    ||| g.region == h.region && g.region.len() > 0 && !(g.region.len() >= 3 && g.region.take(3) == "r?:"@)
}

/// A chain of hosts from one to another, each akin to the next by the keys.
pub open spec fn kin_chain(pool: Seq<CandidateView>, keys: Seq<GroupsView>, path: Seq<int>, i: int, j: int) -> bool {
    &&& path.len() > 0
    &&& path[0] == i
    &&& path[path.len() - 1] == j
    &&& forall|k: int| 0 <= k < path.len() ==> 0 <= #[trigger] path[k] < pool.len()
    &&& forall|k: int, l: int|
        0 <= k < path.len() - 1 && l == k + 1 ==> akin(
            pool[#[trigger] path[k]],
            pool[#[trigger] path[l]],
            keys[path[k]],
            keys[path[l]],
        )
}

/// Hosts have one cluster label where a chain of hosts, each akin to the next, leads from one to the
/// other, and only there.
pub proof fn lemma_clusters_are_chains_of_kin(pool: Seq<CandidateView>, keys: Seq<GroupsView>, i: int, j: int)
    requires
        0 <= i < pool.len(),
        0 <= j < pool.len(),
        keys.len() == pool.len(),
        forall|k: int| 0 <= k < pool.len() ==> (#[trigger] pool[k]).groups == Some(keys[k]),
    ensures
        vendor::cluster_label(pool, i) == vendor::cluster_label(pool, j) <==> exists|path: Seq<int>|
            kin_chain(pool, keys, path, i, j),
{
    correlation::lemma_clusters_are_chains(pool, i, j);
    assert forall|x: int, y: int| 0 <= x < pool.len() && 0 <= y < pool.len() implies (#[trigger] correlation::correlated(
        pool[x],
        pool[y],
    ) <==> akin(pool[x], pool[y], keys[x], keys[y])) by {
        reveal_strlit("r?:");
        assert(pool[x].groups == Some(keys[x]) && pool[y].groups == Some(keys[y]));
    }
    if correlation::chained(pool, i, j) {
        let path = choose|path: Seq<int>|
            #[trigger] correlation::chain(pool, path) && path.first() == i && path.last() == j;
        assert forall|k: int, l: int| 0 <= k < path.len() - 1 && l == k + 1 implies akin(
            pool[#[trigger] path[k]],
            pool[#[trigger] path[l]],
            keys[path[k]],
            keys[path[l]],
        ) by {
            assert(correlation::correlated(pool[path[k]], pool[path[k + 1]]));
        }
        assert(kin_chain(pool, keys, path, i, j));
    }
    if exists|path: Seq<int>| kin_chain(pool, keys, path, i, j) {
        let path = choose|path: Seq<int>| kin_chain(pool, keys, path, i, j);
        assert forall|k: int| 0 <= k < path.len() - 1 implies correlation::correlated(
            pool[#[trigger] path[k]],
            pool[path[k + 1]],
        ) by {
            assert(0 <= path[k + 1] < pool.len());
            assert(akin(pool[path[k]], pool[path[k + 1]], keys[path[k]], keys[path[k + 1]]));
        }
        assert(correlation::chain(pool, path));
    }
}

/// Tagging gives each candidate its own keys and leaves the rest of it alone; two candidates get one
/// cluster where a chain of candidates, each akin to the next by those keys, leads from one to the other,
/// and only there.
pub proof fn lemma_tags(pool: Seq<CandidateView>, graph: Option<LatencyModel>, i: int, j: int)
    requires
        0 <= i < pool.len(),
        0 <= j < pool.len(),
    ensures
        ({
            let t = vendor::tagged(pool, graph);
            let keys = pool.map_values(|c: CandidateView| vendor::keys_of(c, graph));
            let g = t[i].groups->0;
            &&& t.len() == pool.len()
            &&& t[i] == (CandidateView { groups: Some(g), ..pool[i] })
            &&& g.operator == keys[i].operator && g.asn == keys[i].asn && g.region == keys[i].region
            &&& g.cluster == t[j].groups->0.cluster <==> exists|path: Seq<int>| kin_chain(pool, keys, path, i, j)
        }),
{
    let keyed = vendor::keyed_pool(pool, graph);
    let keys = pool.map_values(|c: CandidateView| vendor::keys_of(c, graph));
    lemma_clusters_are_chains_of_kin(keyed, keys, i, j);
    assert forall|path: Seq<int>| kin_chain(keyed, keys, path, i, j) <==> #[trigger] kin_chain(pool, keys, path, i, j) by {
        if kin_chain(keyed, keys, path, i, j) {
            assert forall|k: int, l: int| 0 <= k < path.len() - 1 && l == k + 1 implies akin(
                pool[#[trigger] path[k]],
                pool[#[trigger] path[l]],
                keys[path[k]],
                keys[path[l]],
            ) by {
                assert(akin(keyed[path[k]], keyed[path[l]], keys[path[k]], keys[path[l]]));
            }
        }
        if kin_chain(pool, keys, path, i, j) {
            assert forall|k: int, l: int| 0 <= k < path.len() - 1 && l == k + 1 implies akin(
                keyed[#[trigger] path[k]],
                keyed[#[trigger] path[l]],
                keys[path[k]],
                keys[path[l]],
            ) by {
                assert(akin(pool[path[k]], pool[path[l]], keys[path[k]], keys[path[l]]));
            }
        }
    }
    if exists|path: Seq<int>| kin_chain(keyed, keys, path, i, j) {
        let path = choose|path: Seq<int>| kin_chain(keyed, keys, path, i, j);
        assert(kin_chain(pool, keys, path, i, j));
    }
    if exists|path: Seq<int>| kin_chain(pool, keys, path, i, j) {
        let path = choose|path: Seq<int>| kin_chain(pool, keys, path, i, j);
        assert(kin_chain(keyed, keys, path, i, j));
    }
}

} // verus!
