//! Counting the items of a sequence.

use vstd::prelude::*;
use vstd::seq_lib::*;

verus! {

/// One more item is counted where it is among those that are looked for.
pub proof fn lemma_count_push<A>(s: Seq<A>, x: A, p: spec_fn(A) -> bool)
    ensures
        s.push(x).filter(p).len() == s.filter(p).len() + if p(x) { 1int } else { 0int },
{
    reveal(Seq::filter);
    assert(s.push(x).drop_last() =~= s);
}

/// The last item is counted where it is among those that are looked for.
pub proof fn lemma_count_last<A>(s: Seq<A>, p: spec_fn(A) -> bool)
    requires
        s.len() > 0,
    ensures
        s.filter(p).len() == s.drop_last().filter(p).len() + if p(s.last()) { 1int } else { 0int },
{
    assert(s.drop_last().push(s.last()) =~= s);
    lemma_count_push(s.drop_last(), s.last(), p);
}

/// Items that are all looked for are all counted.
pub proof fn lemma_count_all<A>(s: Seq<A>, p: spec_fn(A) -> bool)
    requires
        forall|i: int| 0 <= i < s.len() ==> p(#[trigger] s[i]),
    ensures
        s.filter(p).len() == s.len(),
    decreases s.len(),
{
    reveal(Seq::filter);
    if s.len() > 0 {
        lemma_count_all(s.drop_last(), p);
    }
}

/// No item is counted twice.
pub proof fn lemma_count_bounded<A>(s: Seq<A>, p: spec_fn(A) -> bool)
    ensures
        s.filter(p).len() <= s.len(),
        s.filter(p).len() == 0 <==> forall|i: int| 0 <= i < s.len() ==> !p(#[trigger] s[i]),
    decreases s.len(),
{
    reveal(Seq::filter);
    if s.len() > 0 {
        let rest = s.drop_last();
        lemma_count_bounded(rest, p);
        if s.filter(p).len() == 0 {
            assert forall|i: int| 0 <= i < s.len() implies !p(#[trigger] s[i]) by {
                if i < rest.len() {
                    assert(rest[i] == s[i]);
                }
            }
        }
        if forall|i: int| 0 <= i < s.len() ==> !p(#[trigger] s[i]) {
            assert forall|i: int| 0 <= i < rest.len() implies !p(#[trigger] rest[i]) by {
                assert(rest[i] == s[i]);
            }
            assert(!p(s[s.len() - 1]));
        }
    }
}

/// Two parts count as the whole.
pub proof fn lemma_count_split<A>(s: Seq<A>, i: int, p: spec_fn(A) -> bool)
    requires
        0 <= i <= s.len(),
    ensures
        s.filter(p).len() == s.take(i).filter(p).len() + s.skip(i).filter(p).len(),
{
    assert(s.take(i) + s.skip(i) =~= s);
    Seq::filter_distributes_over_add(s.take(i), s.skip(i), p);
}

/// The order of the items does not matter.
pub proof fn lemma_count_reordered<A>(s: Seq<A>, t: Seq<A>, p: spec_fn(A) -> bool)
    requires
        s.to_multiset() == t.to_multiset(),
    ensures
        s.filter(p).len() == t.filter(p).len(),
    decreases s.len(),
{
    s.to_multiset_ensures();
    t.to_multiset_ensures();
    assert(s.len() == t.len());
    if s.len() > 0 {
        let x = s.last();
        let rest = s.drop_last();
        assert(rest.push(x) =~= s);
        to_multiset_build(rest, x);
        assert(s.to_multiset().count(x) > 0);
        assert(t.contains(x));
        let j = choose|j: int| 0 <= j < t.len() && t[j] == x;
        let other = t.remove(j);
        to_multiset_remove(t, j);
        assert(rest.to_multiset() =~= other.to_multiset());
        lemma_count_reordered(rest, other, p);
        lemma_count_push(rest, x, p);
        lemma_count_split(t, j, p);
        lemma_count_split(t.skip(j), 1, p);
        lemma_count_split(other, j, p);
        assert(t.skip(j).take(1) =~= Seq::empty().push(x));
        assert(t.skip(j).skip(1) =~= other.skip(j));
        assert(t.take(j) =~= other.take(j));
        lemma_count_push(Seq::empty(), x, p);
        lemma_count_bounded(Seq::<A>::empty(), p);
    }
}

/// The sum of a number over the items of a sequence.
pub open spec fn sum_of<A>(s: Seq<A>, f: spec_fn(A) -> int) -> int {
    s.fold_left(0int, |t: int, x: A| t + f(x))
}

pub proof fn lemma_sum_last<A>(s: Seq<A>, f: spec_fn(A) -> int)
    ensures
        s.len() == 0 ==> sum_of(s, f) == 0,
        s.len() > 0 ==> sum_of(s, f) == sum_of(s.drop_last(), f) + f(s.last()),
{
    reveal_with_fuel(Seq::fold_left, 2);
}

pub proof fn lemma_sum_push<A>(s: Seq<A>, x: A, f: spec_fn(A) -> int)
    ensures
        sum_of(s.push(x), f) == sum_of(s, f) + f(x),
{
    assert(s.push(x).drop_last() =~= s);
    lemma_sum_last(s.push(x), f);
}

pub proof fn lemma_sum_add<A>(s: Seq<A>, t: Seq<A>, f: spec_fn(A) -> int)
    ensures
        sum_of(s + t, f) == sum_of(s, f) + sum_of(t, f),
    decreases t.len(),
{
    lemma_sum_last(t, f);
    if t.len() == 0 {
        assert(s + t =~= s);
    } else {
        assert((s + t).drop_last() =~= s + t.drop_last());
        lemma_sum_last(s + t, f);
        lemma_sum_add(s, t.drop_last(), f);
    }
}

} // verus!
