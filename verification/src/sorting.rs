//! Sorting texts and lists of texts.

use crate::text;
use vstd::prelude::*;
use vstd::relations::*;
use vstd::seq_lib::*;

verus! {

pub proof fn lemma_insert_sorted<A>(s: Seq<A>, x: A, i: int, leq: spec_fn(A, A) -> bool)
    requires
        total_ordering(leq),
        sorted_by(s, leq),
        0 <= i <= s.len(),
        forall|k: int| 0 <= k < i ==> leq(#[trigger] s[k], x),
        i < s.len() ==> leq(x, s[i]),
    ensures
        sorted_by(s.insert(i, x), leq),
{
    let t = s.insert(i, x);
    assert forall|a: int, b: int| 0 <= a < b < t.len() implies #[trigger] leq(t[a], t[b]) by {
        if a == i && b > i + 1 {
            assert(leq(s[i], s[b - 1]));
        }
    }
}

/// The order of texts.
pub open spec fn text_order() -> spec_fn(Seq<char>, Seq<char>) -> bool {
    |a: Seq<char>, b: Seq<char>| text::lex_at_most(a, b)
}

pub proof fn lemma_text_order()
    ensures
        total_ordering(text_order()),
{
    let leq = text_order();
    assert forall|a: Seq<char>, b: Seq<char>| #[trigger] leq(a, b) && #[trigger] leq(b, a) implies a == b by {
        text::lemma_lex_asymmetric(a, b);
    }
    assert forall|a: Seq<char>, b: Seq<char>| #[trigger] leq(a, b) || #[trigger] leq(b, a) by {
        text::lemma_lex_total(a, b);
    }
    assert forall|a: Seq<char>, b: Seq<char>, c: Seq<char>| #[trigger] leq(a, b) && #[trigger] leq(b, c) implies leq(
        a,
        c,
    ) by {
        if text::lex_less(a, b) && text::lex_less(b, c) {
            text::lemma_lex_transitive(a, b, c);
        }
    }
}

/// Sorts texts.
pub fn sort_texts(v: &Vec<String>) -> (r: Vec<String>)
    ensures
        text::texts(r@) == text::texts(v@).sort_by(text_order()),
{
    let ghost leq = text_order();
    let ghost all = text::texts(v@);
    proof {
        lemma_text_order();
    }
    let mut r: Vec<String> = Vec::new();
    proof {
        assert(text::texts(r@) =~= all.take(0));
    }
    for n in 0..v.len()
        invariant
            leq == text_order(),
            total_ordering(leq),
            all == text::texts(v@),
            r.len() == n,
            sorted_by(text::texts(r@), leq),
            text::texts(r@).to_multiset() == all.take(n as int).to_multiset(),
    {
        let x = v[n].clone();
        let ghost item = x@;
        let ghost before = text::texts(r@);
        let mut i: usize = 0;
        while i < r.len() && !text::before(x.as_str(), r[i].as_str())
            invariant
                i <= r.len(),
                item == x@,
                leq == text_order(),
                before == text::texts(r@),
                forall|k: int| 0 <= k < i ==> leq(#[trigger] before[k], item),
            decreases r.len() - i,
        {
            proof {
                assert(before[i as int] == r@[i as int]@);
                text::lemma_lex_total(item, before[i as int]);
            }
            i = i + 1;
        }
        proof {
            if i < r.len() {
                assert(before[i as int] == r@[i as int]@);
            }
        }
        r.insert(i, x);
        proof {
            assert(text::texts(r@) =~= before.insert(i as int, item));
            lemma_insert_sorted(before, item, i as int, leq);
            to_multiset_insert(before, i as int, item);
            assert(all.take(n + 1) =~= all.take(n as int).push(item));
            to_multiset_build(all.take(n as int), item);
        }
    }
    proof {
        assert(all.take(v.len() as int) =~= all);
        all.lemma_sort_by_ensures(leq);
        lemma_sorted_unique(text::texts(r@), all.sort_by(leq), leq);
    }
    r
}

/// Dictionary order of lists of texts.
pub open spec fn list_less(a: Seq<Seq<char>>, b: Seq<Seq<char>>) -> bool
    decreases a.len(),
{
    if b.len() == 0 {
        false
    } else if a.len() == 0 {
        true
    } else if a[0] != b[0] {
        text::lex_less(a[0], b[0])
    } else {
        list_less(a.drop_first(), b.drop_first())
    }
}

/// Longer lists first, then dictionary order.
pub open spec fn list_order() -> spec_fn(Seq<Seq<char>>, Seq<Seq<char>>) -> bool {
    |a: Seq<Seq<char>>, b: Seq<Seq<char>>| list_before(a, b)
}

pub open spec fn list_before(a: Seq<Seq<char>>, b: Seq<Seq<char>>) -> bool {
    a.len() > b.len() || (a.len() == b.len() && (a == b || list_less(a, b)))
}

proof fn lemma_list_asymmetric(a: Seq<Seq<char>>, b: Seq<Seq<char>>)
    ensures
        !(list_less(a, b) && list_less(b, a)),
    decreases a.len(),
{
    if a.len() > 0 && b.len() > 0 {
        text::lemma_lex_asymmetric(a[0], b[0]);
        if a[0] == b[0] {
            lemma_list_asymmetric(a.drop_first(), b.drop_first());
        }
    }
}

proof fn lemma_list_total(a: Seq<Seq<char>>, b: Seq<Seq<char>>)
    ensures
        a == b || list_less(a, b) || list_less(b, a),
    decreases a.len(),
{
    if a.len() == 0 && b.len() == 0 {
        assert(a =~= b);
    } else if a.len() > 0 && b.len() > 0 {
        text::lemma_lex_total(a[0], b[0]);
        if a[0] == b[0] {
            lemma_list_total(a.drop_first(), b.drop_first());
            assert(a =~= seq![a[0]] + a.drop_first());
            assert(b =~= seq![b[0]] + b.drop_first());
        }
    }
}

proof fn lemma_list_transitive(a: Seq<Seq<char>>, b: Seq<Seq<char>>, c: Seq<Seq<char>>)
    requires
        list_less(a, b),
        list_less(b, c),
    ensures
        list_less(a, c),
    decreases a.len(),
{
    if a.len() > 0 {
        if a[0] == b[0] && b[0] == c[0] {
            lemma_list_transitive(a.drop_first(), b.drop_first(), c.drop_first());
        } else if a[0] != b[0] && b[0] != c[0] {
            text::lemma_lex_transitive(a[0], b[0], c[0]);
            text::lemma_lex_irreflexive(a[0]);
        }
    }
}

pub proof fn lemma_list_order()
    ensures
        total_ordering(list_order()),
{
    let leq = list_order();
    assert forall|a: Seq<Seq<char>>, b: Seq<Seq<char>>| #[trigger] leq(a, b) && #[trigger] leq(b, a) implies a
        == b by {
        lemma_list_asymmetric(a, b);
    }
    assert forall|a: Seq<Seq<char>>, b: Seq<Seq<char>>| #[trigger] leq(a, b) || #[trigger] leq(b, a) by {
        lemma_list_total(a, b);
    }
    assert forall|a: Seq<Seq<char>>, b: Seq<Seq<char>>, c: Seq<Seq<char>>| #[trigger] leq(a, b) && #[trigger] leq(
        b,
        c,
    ) implies leq(a, c) by {
        if list_less(a, b) && list_less(b, c) {
            lemma_list_transitive(a, b, c);
        }
    }
}

/// Lists of texts.
pub open spec fn lists(s: Seq<Vec<String>>) -> Seq<Seq<Seq<char>>> {
    s.map_values(|v: Vec<String>| text::texts(v@))
}

fn precedes(a: &Vec<String>, b: &Vec<String>) -> (r: bool)
    ensures
        r == (a.len() > b.len() || (a.len() == b.len() && list_less(text::texts(a@), text::texts(b@)))),
{
    let ghost x = text::texts(a@);
    let ghost y = text::texts(b@);
    if a.len() != b.len() {
        return a.len() > b.len();
    }
    let mut i: usize = 0;
    proof {
        assert(x.skip(0) =~= x);
        assert(y.skip(0) =~= y);
    }
    while i < a.len()
        invariant
            i <= a.len() == b.len(),
            x == text::texts(a@),
            y == text::texts(b@),
            list_less(x, y) == list_less(x.skip(i as int), y.skip(i as int)),
        decreases a.len() - i,
    {
        proof {
            assert(x.skip(i as int)[0] == a@[i as int]@);
            assert(y.skip(i as int)[0] == b@[i as int]@);
            assert(x.skip(i as int).drop_first() =~= x.skip(i + 1));
            assert(y.skip(i as int).drop_first() =~= y.skip(i + 1));
        }
        if a[i] != b[i] {
            return text::before(a[i].as_str(), b[i].as_str());
        }
        i = i + 1;
    }
    false
}

fn clone_list(v: &Vec<String>) -> (r: Vec<String>)
    ensures
        text::texts(r@) == text::texts(v@),
{
    crate::api::clone_texts(v)
}

/// Sorts lists: longer ones first, then in dictionary order.
pub fn sort_lists(v: &Vec<Vec<String>>) -> (r: Vec<Vec<String>>)
    ensures
        lists(r@) == lists(v@).sort_by(list_order()),
{
    let ghost leq = list_order();
    let ghost all = lists(v@);
    proof {
        lemma_list_order();
    }
    let mut r: Vec<Vec<String>> = Vec::new();
    proof {
        assert(lists(r@) =~= all.take(0));
    }
    for n in 0..v.len()
        invariant
            leq == list_order(),
            total_ordering(leq),
            all == lists(v@),
            r.len() == n,
            sorted_by(lists(r@), leq),
            lists(r@).to_multiset() == all.take(n as int).to_multiset(),
    {
        let x = clone_list(&v[n]);
        let ghost item = text::texts(x@);
        let ghost before = lists(r@);
        let mut i: usize = 0;
        while i < r.len() && !precedes(&x, &r[i])
            invariant
                i <= r.len(),
                item == text::texts(x@),
                leq == list_order(),
                before == lists(r@),
                forall|k: int| 0 <= k < i ==> leq(#[trigger] before[k], item),
            decreases r.len() - i,
        {
            proof {
                assert(before[i as int] == text::texts(r@[i as int]@));
                lemma_list_total(item, before[i as int]);
            }
            i = i + 1;
        }
        proof {
            if i < r.len() {
                assert(before[i as int] == text::texts(r@[i as int]@));
            }
        }
        r.insert(i, x);
        proof {
            assert(lists(r@) =~= before.insert(i as int, item));
            lemma_insert_sorted(before, item, i as int, leq);
            to_multiset_insert(before, i as int, item);
            assert(all[n as int] == text::texts(v@[n as int]@));
            assert(all.take(n + 1) =~= all.take(n as int).push(item));
            to_multiset_build(all.take(n as int), item);
        }
    }
    proof {
        assert(all.take(v.len() as int) =~= all);
        all.lemma_sort_by_ensures(leq);
        lemma_sorted_unique(lists(r@), all.sort_by(leq), leq);
    }
    r
}

} // verus!
