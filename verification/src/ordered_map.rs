//! Map from text keys to values, kept in ascending key order.

use crate::text::{lemma_text_order, lemma_text_transitive, str_le, text_le, text_lt};
use vstd::prelude::*;

verus! {

/// A map whose entries are listed by strictly ascending key.
pub struct OrderedTextMap<V> {
    entries: Vec<(String, V)>,
}

/// The entries stand in strictly ascending key order.
pub open spec fn keys_ascend<V>(entries: Seq<(String, V)>) -> bool {
    forall|i: int, j: int|
        0 <= i < j < entries.len() ==> text_lt((#[trigger] entries[i]).0@, (#[trigger] entries[j]).0@)
}

/// Some entry has the key.
pub open spec fn lists_key<V>(entries: Seq<(String, V)>, key: Seq<char>) -> bool {
    exists|i: int| 0 <= i < entries.len() && (#[trigger] entries[i]).0@ == key
}

/// Position of the entry with the key.
pub open spec fn key_position<V>(entries: Seq<(String, V)>, key: Seq<char>) -> int {
    choose|i: int| 0 <= i < entries.len() && (#[trigger] entries[i]).0@ == key
}

/// The map that a list of entries with distinct keys stands for.
pub open spec fn entries_map<V>(entries: Seq<(String, V)>) -> Map<Seq<char>, V> {
    Map::new(
        |key: Seq<char>| lists_key(entries, key),
        |key: Seq<char>| entries[key_position(entries, key)].1,
    )
}

/// In ascending order a key has one position only.
pub proof fn lemma_key_position<V>(entries: Seq<(String, V)>, i: int)
    requires
        keys_ascend(entries),
        0 <= i < entries.len(),
    ensures
        lists_key(entries, entries[i].0@),
        key_position(entries, entries[i].0@) == i,
        entries_map(entries)[entries[i].0@] == entries[i].1,
{
    let key = entries[i].0@;
    let p = key_position(entries, key);
    assert(entries[i].0@ == key);
    if p < i {
        assert(text_lt(entries[p].0@, entries[i].0@));
    } else if i < p {
        assert(text_lt(entries[i].0@, entries[p].0@));
    }
}

impl<V> View for OrderedTextMap<V> {
    type V = Map<Seq<char>, V>;

    open spec fn view(&self) -> Map<Seq<char>, V> {
        entries_map(self.listed())
    }
}

impl<V> OrderedTextMap<V> {
    /// The entries in key order.
    pub closed spec fn listed(&self) -> Seq<(String, V)> {
        self.entries@
    }

    pub open spec fn wf(&self) -> bool {
        keys_ascend(self.listed())
    }

    /// An empty map.
    pub fn new() -> (r: Self)
        ensures
            r.wf(),
            r.listed().len() == 0,
            r@ == Map::<Seq<char>, V>::empty(),
    {
        let r = OrderedTextMap { entries: Vec::new() };
        assert(r@ =~= Map::<Seq<char>, V>::empty());
        r
    }

    /// Number of entries.
    pub fn len(&self) -> (r: usize)
        ensures
            r == self.listed().len(),
    {
        self.entries.len()
    }

    /// Whether the map has no entries.
    pub fn is_empty(&self) -> (r: bool)
        ensures
            r == (self.listed().len() == 0),
    {
        self.entries.len() == 0
    }

    /// Key of the entry at `position`.
    pub fn key_at(&self, position: usize) -> (r: &String)
        requires
            position < self.listed().len(),
        ensures
            *r == self.listed()[position as int].0,
    {
        &self.entries[position].0
    }

    /// Value of the entry at `position`.
    pub fn value_at(&self, position: usize) -> (r: &V)
        requires
            position < self.listed().len(),
        ensures
            *r == self.listed()[position as int].1,
    {
        &self.entries[position].1
    }

    /// Value of the entry at `position`, for writing.
    pub fn value_at_mut(&mut self, position: usize) -> (r: &mut V)
        requires
            old(self).wf(),
            position < old(self).listed().len(),
        ensures
            *r == old(self).listed()[position as int].1,
            final(self).listed() == old(self).listed().update(
                position as int,
                (old(self).listed()[position as int].0, *final(r)),
            ),
    {
        &mut self.entries[position].1
    }

    /// First position whose key is not below `key`.
    fn lower_bound(&self, key: &str) -> (pos: usize)
        requires
            self.wf(),
        ensures
            pos <= self.entries@.len(),
            forall|i: int| 0 <= i < pos ==> text_lt((#[trigger] self.entries@[i]).0@, key@),
            forall|i: int| pos <= i < self.entries@.len() ==> text_le(key@, (#[trigger] self.entries@[i]).0@),
    {
        let mut lo: usize = 0;
        let mut hi: usize = self.entries.len();
        while lo < hi
            invariant
                self.wf(),
                lo <= hi <= self.entries@.len(),
                forall|i: int| 0 <= i < lo ==> text_lt((#[trigger] self.entries@[i]).0@, key@),
                forall|i: int|
                    hi <= i < self.entries@.len() ==> text_le(key@, (#[trigger] self.entries@[i]).0@),
            decreases hi - lo,
        {
            let mid: usize = lo + (hi - lo) / 2;
            let ghost middle = self.entries@[mid as int].0@;
            if str_le(key, self.entries[mid].0.as_str()) {
                proof {
                    assert forall|i: int| mid <= i < self.entries@.len() implies text_le(
                        key@,
                        (#[trigger] self.entries@[i]).0@,
                    ) by {
                        if i > mid {
                            assert(text_lt(self.entries@[mid as int].0@, self.entries@[i].0@));
                            lemma_text_transitive(key@, middle, self.entries@[i].0@);
                        }
                    }
                }
                hi = mid;
            } else {
                proof {
                    lemma_text_order(middle, key@);
                    assert forall|i: int| 0 <= i < mid + 1 implies text_lt(
                        (#[trigger] self.entries@[i]).0@,
                        key@,
                    ) by {
                        if i < mid {
                            assert(text_lt(self.entries@[i].0@, self.entries@[mid as int].0@));
                            lemma_text_transitive(self.entries@[i].0@, middle, key@);
                        }
                    }
                }
                lo = mid + 1;
            }
        }
        lo
    }

    /// Position of the entry of `key`.
    pub fn position(&self, key: &str) -> (r: Option<usize>)
        requires
            self.wf(),
        ensures
            r is Some <==> self@.dom().contains(key@),
            r is Some ==> r->0 < self.listed().len() && self.listed()[r->0 as int].0@ == key@,
    {
        let pos: usize = self.lower_bound(key);
        if pos < self.entries.len() && str_le(self.entries[pos].0.as_str(), key) {
            proof {
                lemma_text_order(self.entries@[pos as int].0@, key@);
                assert(self.listed()[pos as int].0@ == key@);
            }
            Some(pos)
        } else {
            proof {
                if lists_key(self.listed(), key@) {
                    let i = key_position(self.listed(), key@);
                    assert(self.entries@[i].0@ == key@);
                    lemma_text_order(key@, key@);
                    if i > pos {
                        assert(text_lt(self.entries@[pos as int].0@, self.entries@[i].0@));
                    }
                    assert(i == pos);
                }
            }
            None
        }
    }

    /// The value stored under `key`.
    pub fn get(&self, key: &str) -> (r: Option<&V>)
        requires
            self.wf(),
        ensures
            r is Some <==> self@.dom().contains(key@),
            r is Some ==> *r->0 == self@[key@],
    {
        match self.position(key) {
            Some(pos) => {
                proof {
                    lemma_key_position(self.listed(), pos as int);
                }
                Some(&self.entries[pos].1)
            },
            None => None,
        }
    }

    /// Stores `value` under `key`, in place of what was stored there.
    pub fn insert(&mut self, key: String, value: V)
        requires
            old(self).wf(),
        ensures
            final(self).wf(),
            final(self)@ == old(self)@.insert(key@, value),
    {
        let ghost before = self.entries@;
        let pos: usize = self.lower_bound(key.as_str());
        let found = pos < self.entries.len() && str_le(self.entries[pos].0.as_str(), key.as_str());
        if found {
            proof {
                lemma_text_order(self.entries@[pos as int].0@, key@);
            }
            let ghost entry = self.entries@[pos as int];
            self.entries[pos].1 = value;
            proof {
                let after = self.entries@;
                assert(after =~= before.update(pos as int, (entry.0, value)));
                assert forall|i: int| 0 <= i < after.len() implies (#[trigger] after[i]).0
                    == before[i].0 by {}
                assert(keys_ascend(after)) by {
                    assert forall|i: int, j: int| 0 <= i < j < after.len() implies text_lt(
                        (#[trigger] after[i]).0@,
                        (#[trigger] after[j]).0@,
                    ) by {
                        assert(text_lt(before[i].0@, before[j].0@));
                    }
                }
                assert forall|i: int| 0 <= i < after.len() && i != pos implies before.contains(
                    #[trigger] after[i],
                ) by {
                    assert(before[i] == after[i]);
                }
                assert forall|j: int| 0 <= j < before.len() && (#[trigger] before[j]).0@
                    != key@ implies after.contains(before[j]) by {
                    assert(after[j] == before[j]);
                }
                lemma_same_but(before, after, key@, value, pos as int);
            }
        } else {
            self.entries.insert(pos, (key, value));
            proof {
                let after = self.entries@;
                assert(after =~= before.insert(pos as int, (key, value)));
                assert forall|i: int| pos <= i < before.len() implies text_lt(
                    key@,
                    (#[trigger] before[i]).0@,
                ) by {
                    lemma_text_order(before[i].0@, key@);
                    if i > pos {
                        assert(text_lt(before[pos as int].0@, before[i].0@));
                        lemma_text_order(before[pos as int].0@, key@);
                    }
                }
                assert forall|i: int| 0 <= i < after.len() implies #[trigger] after[i] == if i < pos {
                    before[i]
                } else if i == pos {
                    (key, value)
                } else {
                    before[i - 1]
                } by {}
                assert(keys_ascend(after)) by {
                    assert forall|i: int, j: int| 0 <= i < j < after.len() implies text_lt(
                        (#[trigger] after[i]).0@,
                        (#[trigger] after[j]).0@,
                    ) by {
                        let a = if i < pos { i } else { i - 1 };
                        let b = if j < pos { j } else { j - 1 };
                        if i != pos && j != pos {
                            assert(text_lt(before[a].0@, before[b].0@));
                        } else if i == pos {
                            assert(text_lt(key@, before[b].0@));
                        } else {
                            assert(text_lt(before[a].0@, key@));
                        }
                    }
                }
                assert forall|i: int| 0 <= i < after.len() && i != pos implies before.contains(
                    #[trigger] after[i],
                ) by {
                    let a = if i < pos { i } else { i - 1 };
                    assert(before[a] == after[i]);
                }
                assert forall|j: int| 0 <= j < before.len() && (#[trigger] before[j]).0@
                    != key@ implies after.contains(before[j]) by {
                    let b = if j < pos { j } else { j + 1 };
                    assert(after[b] == before[j]);
                }
                lemma_same_but(before, after, key@, value, pos as int);
            }
        }
    }

    /// Takes the entry of `key` out of the map.
    pub fn remove(&mut self, key: &str)
        requires
            old(self).wf(),
        ensures
            final(self).wf(),
            final(self)@ == old(self)@.remove(key@),
    {
        let ghost before = self.entries@;
        match self.position(key) {
            None => {
                assert(self@ =~= old(self)@.remove(key@));
            },
            Some(pos) => {
                self.entries.remove(pos);
                proof {
                    let after = self.entries@;
                    assert(after =~= before.remove(pos as int));
                    assert forall|i: int| 0 <= i < after.len() implies #[trigger] after[i] == if i
                        < pos {
                        before[i]
                    } else {
                        before[i + 1]
                    } by {}
                    assert(keys_ascend(after)) by {
                        assert forall|i: int, j: int| 0 <= i < j < after.len() implies text_lt(
                            (#[trigger] after[i]).0@,
                            (#[trigger] after[j]).0@,
                        ) by {
                            let a = if i < pos { i } else { i + 1 };
                            let b = if j < pos { j } else { j + 1 };
                            assert(text_lt(before[a].0@, before[b].0@));
                        }
                    }
                    assert forall|k: Seq<char>| lists_key(after, k) <==> lists_key(before, k) && k
                        != key@ by {
                        if lists_key(after, k) {
                            let i = key_position(after, k);
                            let a = if i < pos { i } else { i + 1 };
                            assert(before[a].0@ == k);
                            if a < pos {
                                assert(text_lt(before[a].0@, before[pos as int].0@));
                            } else {
                                assert(text_lt(before[pos as int].0@, before[a].0@));
                            }
                        }
                        if lists_key(before, k) && k != key@ {
                            let a = key_position(before, k);
                            assert(a != pos);
                            let i = if a < pos { a } else { a - 1 };
                            assert(after[i].0@ == k);
                        }
                    }
                    assert forall|k: Seq<char>| lists_key(after, k) implies entries_map(after)[k]
                        == entries_map(before)[k] by {
                        let i = key_position(after, k);
                        let a = if i < pos { i } else { i + 1 };
                        assert(after[i].0@ == k);
                        lemma_key_position(after, i);
                        lemma_key_position(before, a);
                    }
                    assert(self@ =~= old(self)@.remove(key@));
                }
            },
        }
    }
}

/// Writing one value changes the map at that key only.
pub proof fn lemma_update_entry<V>(entries: Seq<(String, V)>, pos: int, value: V)
    requires
        keys_ascend(entries),
        0 <= pos < entries.len(),
    ensures
        keys_ascend(entries.update(pos, (entries[pos].0, value))),
        entries_map(entries.update(pos, (entries[pos].0, value))) == entries_map(entries).insert(
            entries[pos].0@,
            value,
        ),
{
    let after = entries.update(pos, (entries[pos].0, value));
    assert(keys_ascend(after)) by {
        assert forall|i: int, j: int| 0 <= i < j < after.len() implies text_lt(
            (#[trigger] after[i]).0@,
            (#[trigger] after[j]).0@,
        ) by {
            assert(text_lt(entries[i].0@, entries[j].0@));
        }
    }
    assert forall|i: int| 0 <= i < after.len() && i != pos implies entries.contains(
        #[trigger] after[i],
    ) by {
        assert(entries[i] == after[i]);
    }
    assert forall|j: int| 0 <= j < entries.len() && (#[trigger] entries[j]).0@
        != entries[pos].0@ implies after.contains(entries[j]) by {
        assert(after[j] == entries[j]);
    }
    lemma_same_but(entries, after, entries[pos].0@, value, pos);
}

proof fn lemma_same_but<V>(
    before: Seq<(String, V)>,
    after: Seq<(String, V)>,
    key: Seq<char>,
    value: V,
    pos: int,
)
    requires
        keys_ascend(before),
        keys_ascend(after),
        0 <= pos < after.len(),
        after[pos].0@ == key,
        after[pos].1 == value,
        forall|i: int| 0 <= i < after.len() && i != pos ==> before.contains(#[trigger] after[i]),
        forall|j: int|
            0 <= j < before.len() && (#[trigger] before[j]).0@ != key ==> after.contains(before[j]),
    ensures
        entries_map(after) == entries_map(before).insert(key, value),
{
    lemma_key_position(after, pos);
    assert forall|k: Seq<char>| lists_key(after, k) <==> lists_key(before, k) || k == key by {
        if lists_key(after, k) && k != key {
            let i = key_position(after, k);
            let j = choose|j: int| 0 <= j < before.len() && before[j] == after[i];
            assert(before[j].0@ == k);
        }
        if lists_key(before, k) && k != key {
            let j = key_position(before, k);
            let i = choose|i: int| 0 <= i < after.len() && after[i] == before[j];
            assert(after[i].0@ == k);
        }
    }
    assert forall|k: Seq<char>| lists_key(after, k) && k != key implies entries_map(after)[k]
        == entries_map(before)[k] by {
        let i = key_position(after, k);
        let j = choose|j: int| 0 <= j < before.len() && before[j] == after[i];
        lemma_key_position(before, j);
        lemma_key_position(after, i);
    }
    assert(entries_map(after) =~= entries_map(before).insert(key, value));
}

} // verus!
