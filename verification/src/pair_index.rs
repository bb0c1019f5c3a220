//! Hash index from a text key and a number to a position.

use crate::id_index::{id_entries, id_index_get, id_index_insert, new_id_index, IdIndex};
use crate::key_index::{
    key_entries, key_index_get, key_index_insert, new_key_index, KeyIndex,
};
use vstd::prelude::*;

verus! {

/// Positions by text and number.
pub struct PairIndex {
    /// Row of each text.
    texts: KeyIndex,
    /// Positions by number, one row for each text.
    rows: Vec<IdIndex>,
}

impl View for PairIndex {
    type V = Map<(Seq<char>, u64), usize>;

    closed spec fn view(&self) -> Map<(Seq<char>, u64), usize> {
        Map::new(
            |pair: (Seq<char>, u64)| self.holds(pair),
            |pair: (Seq<char>, u64)|
                id_entries(self.rows@[key_entries(self.texts)[pair.0] as int])[pair.1],
        )
    }
}

impl PairIndex {
    spec fn holds(self, pair: (Seq<char>, u64)) -> bool {
        &&& key_entries(self.texts).dom().contains(pair.0)
        &&& id_entries(self.rows@[key_entries(self.texts)[pair.0] as int]).dom().contains(pair.1)
    }

    /// Every text has a row of its own.
    pub closed spec fn wf(self) -> bool {
        &&& forall|key: Seq<char>| #[trigger]
            key_entries(self.texts).dom().contains(key) ==> key_entries(self.texts)[key]
                < self.rows@.len()
        &&& forall|a: Seq<char>, b: Seq<char>|
            #![trigger key_entries(self.texts)[a], key_entries(self.texts)[b]]
            key_entries(self.texts).dom().contains(a) && key_entries(self.texts).dom().contains(b)
                && a != b ==> key_entries(self.texts)[a] != key_entries(self.texts)[b]
    }

    /// An index of nothing.
    pub fn new() -> (r: Self)
        ensures
            r.wf(),
            r@.dom() == Set::<(Seq<char>, u64)>::empty(),
    {
        let r = PairIndex { texts: new_key_index(), rows: Vec::new() };
        assert(r@.dom() =~= Set::<(Seq<char>, u64)>::empty());
        r
    }

    /// The position of a text and a number, if there is one.
    pub fn get(&self, text: &str, number: u64) -> (r: Option<usize>)
        requires
            self.wf(),
        ensures
            r is Some <==> self@.dom().contains((text@, number)),
            r is Some ==> r->0 == self@[(text@, number)],
    {
        match key_index_get(&self.texts, text) {
            Some(row) => id_index_get(&self.rows[row], number),
            None => None,
        }
    }

    /// Sets the position of a text and a number.
    pub fn insert(&mut self, text: &String, number: u64, position: usize)
        requires
            old(self).wf(),
        ensures
            final(self).wf(),
            final(self)@ == old(self)@.insert((text@, number), position),
    {
        let ghost before = *self;
        let row: usize = match key_index_get(&self.texts, text.as_str()) {
            Some(row) => row,
            None => {
                let row: usize = self.rows.len();
                self.rows.push(new_id_index());
                key_index_insert(&mut self.texts, text.clone(), row);
                row
            },
        };
        let numbers: &mut IdIndex = &mut self.rows[row];
        id_index_insert(numbers, number, position);
        proof {
            let pair = (text@, number);
            let after = *self;
            let keys = key_entries(after.texts);
            let old_keys = key_entries(before.texts);
            assert(keys.dom().contains(text@) && keys[text@] == row);
            assert forall|other: (Seq<char>, u64)| #[trigger] after@.dom().contains(other)
                <==> before@.insert(pair, position).dom().contains(other) by {
                if other.0 != text@ && old_keys.dom().contains(other.0) {
                    assert(keys[other.0] == old_keys[other.0]);
                    assert(old_keys[other.0] < before.rows@.len());
                    assert(keys[other.0] != row);
                    assert(after.rows@[keys[other.0] as int] == before.rows@[old_keys[other.0] as int]);
                }
            }
            assert forall|other: (Seq<char>, u64)| #[trigger] after@.dom().contains(
                other,
            ) implies after@[other] == before@.insert(pair, position)[other] by {
                if other.0 != text@ {
                    assert(keys[other.0] == old_keys[other.0]);
                    assert(keys[other.0] != row);
                    assert(after.rows@[keys[other.0] as int] == before.rows@[old_keys[other.0] as int]);
                }
            }
            assert(after@ =~= before@.insert(pair, position));
        }
    }
}

} // verus!
