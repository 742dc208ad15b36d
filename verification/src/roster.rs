//! Lists of node ids.

use crate::text;
use vstd::prelude::*;

verus! {

/// The first position from `from` on that holds the id.
pub open spec fn position_from(ids: Seq<Seq<char>>, id: Seq<char>, from: int) -> Option<int>
    decreases ids.len() - from,
{
    if from < 0 || from >= ids.len() {
        None
    } else if ids[from] == id {
        Some(from)
    } else {
        position_from(ids, id, from + 1)
    }
}

/// The first position that holds the id.
pub open spec fn position(ids: Seq<Seq<char>>, id: Seq<char>) -> Option<int> {
    position_from(ids, id, 0)
}

/// No id occurs twice.
pub open spec fn distinct(ids: Seq<Seq<char>>) -> bool {
    forall|i: int, j: int| 0 <= i < j < ids.len() ==> #[trigger] ids[i] != #[trigger] ids[j]
}

/// The list with an id that is not empty added where it is new.
pub open spec fn with_id(ids: Seq<Seq<char>>, id: Seq<char>) -> Seq<Seq<char>> {
    if id.len() == 0 || ids.contains(id) {
        ids
    } else {
        ids.push(id)
    }
}

pub proof fn lemma_position_from(ids: Seq<Seq<char>>, id: Seq<char>, from: int)
    requires
        0 <= from,
    ensures
        match position_from(ids, id, from) {
            Some(i) => from <= i < ids.len() && ids[i] == id,
            None => forall|i: int| from <= i < ids.len() ==> #[trigger] ids[i] != id,
        },
    decreases ids.len() - from,
{
    if from < ids.len() && ids[from] != id {
        lemma_position_from(ids, id, from + 1);
    }
}

pub proof fn lemma_position(ids: Seq<Seq<char>>, id: Seq<char>)
    ensures
        match position(ids, id) {
            Some(i) => 0 <= i < ids.len() && ids[i] == id && ids.contains(id),
            None => !ids.contains(id),
        },
{
    lemma_position_from(ids, id, 0);
}

/// In a list without duplicates each id is at its own position.
pub proof fn lemma_position_at(ids: Seq<Seq<char>>, i: int)
    requires
        distinct(ids),
        0 <= i < ids.len(),
    ensures
        position(ids, ids[i]) == Some(i),
{
    lemma_position(ids, ids[i]);
    assert(ids.contains(ids[i]));
}

pub proof fn lemma_with_id(ids: Seq<Seq<char>>, id: Seq<char>)
    requires
        distinct(ids),
    ensures
        distinct(with_id(ids, id)),
        forall|x: Seq<char>| ids.contains(x) ==> #[trigger] with_id(ids, id).contains(x),
        id.len() > 0 ==> with_id(ids, id).contains(id),
{
    let r = with_id(ids, id);
    if id.len() > 0 && !ids.contains(id) {
        assert(r[ids.len() as int] == id);
        assert forall|x: Seq<char>| ids.contains(x) implies #[trigger] r.contains(x) by {
            let i = ids.index_of(x);
            assert(r[i] == x);
        }
        assert forall|i: int, j: int| 0 <= i < j < r.len() implies #[trigger] r[i] != #[trigger] r[j] by {
            if j == ids.len() {
                assert(ids.contains(ids[i]));
            }
        }
    }
}

/// The position of an id in a list.
pub fn find(ids: &Vec<String>, id: &str) -> (r: Option<usize>)
    ensures
        match r {
            Some(i) => position(text::texts(ids@), id@) == Some(i as int) && i < ids.len() && ids@[i as int]@ == id@,
            None => position(text::texts(ids@), id@) is None,
        },
{
    let ghost all = text::texts(ids@);
    let mut i: usize = 0;
    while i < ids.len()
        invariant
            i <= ids.len(),
            all == text::texts(ids@),
            position(all, id@) == position_from(all, id@, i as int),
        decreases ids.len() - i,
    {
        proof {
            assert(all[i as int] == ids@[i as int]@);
        }
        if text::same(ids[i].as_str(), id) {
            return Some(i);
        }
        i = i + 1;
    }
    None
}

/// Adds an id that is not empty where it is new.
pub fn enroll(ids: &mut Vec<String>, id: &String)
    ensures
        text::texts(final(ids)@) == with_id(text::texts(old(ids)@), id@),
{
    let ghost before = text::texts(ids@);
    proof {
        lemma_position(before, id@);
    }
    if !id.as_str().is_empty() && find(ids, id.as_str()).is_none() {
        ids.push(id.clone());
        proof {
            assert(text::texts(ids@) =~= before.push(id@));
        }
    }
}

/// The distinct ids of a list, in order of first occurrence. Unlike a roster, an empty id counts.
pub open spec fn first_occurrences(ids: Seq<Seq<char>>) -> Seq<Seq<char>>
    decreases ids.len(),
{
    if ids.len() == 0 {
        Seq::empty()
    } else {
        let rest = first_occurrences(ids.drop_last());
        if rest.contains(ids.last()) {
            rest
        } else {
            rest.push(ids.last())
        }
    }
}

/// Every id of a list is among its first occurrences, and none is twice.
pub proof fn lemma_first_occurrences(ids: Seq<Seq<char>>)
    ensures
        distinct(first_occurrences(ids)),
        forall|x: Seq<char>| #[trigger] first_occurrences(ids).contains(x) <==> ids.contains(x),
    decreases ids.len(),
{
    if ids.len() > 0 {
        let rest = ids.drop_last();
        lemma_first_occurrences(rest);
        let before = first_occurrences(rest);
        let all = first_occurrences(ids);
        assert forall|x: Seq<char>| #[trigger] all.contains(x) <==> ids.contains(x) by {
            if ids.contains(x) {
                let i = choose|i: int| 0 <= i < ids.len() && ids[i] == x;
                if i < rest.len() {
                    assert(rest[i] == x);
                    assert(before.contains(x));
                    let k = choose|k: int| 0 <= k < before.len() && before[k] == x;
                    assert(all[k] == x);
                } else if !before.contains(x) {
                    assert(all[before.len() as int] == x);
                }
            }
            if all.contains(x) {
                let k = choose|k: int| 0 <= k < all.len() && all[k] == x;
                if k < before.len() {
                    assert(before.contains(x));
                    let i = choose|i: int| 0 <= i < rest.len() && rest[i] == x;
                    assert(ids[i] == x);
                } else {
                    assert(ids[ids.len() - 1] == x);
                }
            }
        }
        assert forall|i: int, j: int| 0 <= i < j < all.len() implies #[trigger] all[i] != #[trigger] all[j] by {
            if j < before.len() {
                assert(before[i] != before[j]);
            } else {
                assert(before[i] == all[i]);
            }
        }
    } else {
        assert(first_occurrences(ids) =~= ids);
    }
}

} // verus!
