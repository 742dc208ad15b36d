//! A small map from node ids to flags.

use crate::text;
use vstd::prelude::*;

verus! {

/// Flags by node id.
pub struct Notes {
    entries: Vec<(String, bool)>,
}

spec fn entries_map(s: Seq<(String, bool)>) -> Map<Seq<char>, bool>
    decreases s.len(),
{
    if s.len() == 0 {
        Map::empty()
    } else {
        entries_map(s.drop_last()).insert(s.last().0@, s.last().1)
    }
}

impl View for Notes {
    type V = Map<Seq<char>, bool>;

    closed spec fn view(&self) -> Map<Seq<char>, bool> {
        entries_map(self.entries@)
    }
}

impl Notes {
    pub fn new() -> (r: Notes)
        ensures
            r@ == Map::<Seq<char>, bool>::empty(),
    {
        Notes { entries: Vec::new() }
    }

    pub fn get(&self, id: &str) -> (r: Option<bool>)
        ensures
            match r {
                Some(v) => self@.contains_key(id@) && self@[id@] == v,
                None => !self@.contains_key(id@),
            },
    {
        let mut i: usize = self.entries.len();
        proof {
            assert(self.entries@.take(i as int) =~= self.entries@);
        }
        while i > 0
            invariant
                i <= self.entries.len(),
                self@.contains_key(id@) == entries_map(self.entries@.take(i as int)).contains_key(id@),
                self@.contains_key(id@) ==> self@[id@] == entries_map(self.entries@.take(i as int))[id@],
            decreases i,
        {
            proof {
                assert(self.entries@.take(i as int).drop_last() =~= self.entries@.take(i - 1));
            }
            if text::same(self.entries[i - 1].0.as_str(), id) {
                return Some(self.entries[i - 1].1);
            }
            i = i - 1;
        }
        None
    }

    pub fn set(&mut self, id: String, flag: bool)
        ensures
            final(self)@ == old(self)@.insert(id@, flag),
    {
        self.entries.push((id, flag));
        proof {
            assert(self.entries@.drop_last() =~= old(self).entries@);
        }
    }

    pub fn forget(&mut self, id: &str)
        ensures
            final(self)@ == old(self)@.remove(id@),
    {
        let mut kept: Vec<(String, bool)> = Vec::new();
        proof {
            assert(entries_map(kept@) =~= entries_map(self.entries@.take(0)).remove(id@));
        }
        for i in 0..self.entries.len()
            invariant
                entries_map(kept@) == entries_map(self.entries@.take(i as int)).remove(id@),
                self.entries@ == old(self).entries@,
        {
            let ghost before = kept@;
            proof {
                assert(self.entries@.take(i + 1).drop_last() =~= self.entries@.take(i as int));
            }
            if !text::same(self.entries[i].0.as_str(), id) {
                kept.push((self.entries[i].0.clone(), self.entries[i].1));
                proof {
                    assert(kept@.drop_last() =~= before);
                }
            }
            proof {
                assert(entries_map(kept@) =~= entries_map(self.entries@.take(i + 1)).remove(id@));
            }
        }
        proof {
            assert(self.entries@.take(self.entries.len() as int) =~= self.entries@);
        }
        self.entries = kept;
    }
}

} // verus!
