//! Map from text keys to values.

use crate::key_index::{
    key_entries, key_index_get, key_index_insert, key_index_remove, new_key_index, KeyIndex,
};
use crate::sort::{distinct_ranks, lemma_ranked_strict, sort_ranked, Ranked};
use crate::text::{
    ascending, lemma_ascending_unique, lemma_strictly_ascending, lemma_text_order, texts,
};
use vstd::prelude::*;

verus! {

/// The paths are the map's keys in ascending order.
pub open spec fn lists_domain<V>(map: Map<Seq<char>, V>, keys: Seq<Seq<char>>) -> bool {
    &&& ascending(keys)
    &&& forall|key: Seq<char>| #[trigger] keys.contains(key) <==> map.dom().contains(key)
}

/// A map with text keys has one listing in ascending order.
pub proof fn lemma_domain_listing_unique<V>(
    map: Map<Seq<char>, V>,
    a: Seq<Seq<char>>,
    b: Seq<Seq<char>>,
)
    requires
        lists_domain(map, a),
        lists_domain(map, b),
    ensures
        a == b,
{
    assert forall|x: Seq<char>| #[trigger] a.contains(x) <==> b.contains(x) by {
        assert(map.dom().contains(x) <==> b.contains(x));
    }
    lemma_ascending_unique(a, b);
}

/// A map from text keys to values, with the entries in a list beside a hash index.
pub struct TextMap<V> {
    index: KeyIndex,
    entries: Vec<(String, V)>,
}

impl<V> View for TextMap<V> {
    type V = Map<Seq<char>, V>;

    closed spec fn view(&self) -> Map<Seq<char>, V> {
        Map::new(
            |key: Seq<char>| key_entries(self.index).dom().contains(key),
            |key: Seq<char>| self.entries@[key_entries(self.index)[key] as int].1,
        )
    }
}

impl<V> TextMap<V> {
    /// The index points each key at its own entry, and every entry is indexed.
    pub closed spec fn wf(&self) -> bool {
        let keys = key_entries(self.index);
        &&& forall|i: int|
            0 <= i < self.entries@.len() ==> keys.dom().contains((#[trigger] self.entries@[i]).0@)
                && keys[self.entries@[i].0@] == i
        &&& forall|key: Seq<char>| #[trigger]
            keys.dom().contains(key) ==> keys[key] < self.entries@.len()
                && self.entries@[keys[key] as int].0@ == key
    }

    /// The entries in storage order.
    pub closed spec fn listed(&self) -> Seq<(String, V)> {
        self.entries@
    }

    /// The listed entries are exactly those of the map, each key once.
    pub proof fn lemma_listed(&self)
        requires
            self.wf(),
        ensures
            forall|i: int|
                0 <= i < self.listed().len() ==> self@.dom().contains(
                    (#[trigger] self.listed()[i]).0@,
                ) && self@[self.listed()[i].0@] == self.listed()[i].1,
            forall|key: Seq<char>| #[trigger]
                self@.dom().contains(key) ==> exists|i: int|
                    0 <= i < self.listed().len() && (#[trigger] self.listed()[i]).0@ == key,
            forall|i: int, j: int|
                0 <= i < j < self.listed().len() ==> (#[trigger] self.listed()[i]).0@ != (
                #[trigger] self.listed()[j]).0@,
    {
        let keys = key_entries(self.index);
        assert forall|key: Seq<char>| #[trigger] self@.dom().contains(key) implies exists|i: int|
            0 <= i < self.listed().len() && (#[trigger] self.listed()[i]).0@ == key by {
            assert(keys.dom().contains(key));
            assert(self.listed()[keys[key] as int].0@ == key);
        }
        assert forall|i: int, j: int| 0 <= i < j < self.listed().len() implies (
        #[trigger] self.listed()[i]).0@ != (#[trigger] self.listed()[j]).0@ by {
            assert(keys[self.entries@[i].0@] == i);
            assert(keys[self.entries@[j].0@] == j);
        }
    }

    /// An empty map.
    pub fn new() -> (r: Self)
        ensures
            r.wf(),
            r@ == Map::<Seq<char>, V>::empty(),
            r.listed().len() == 0,
    {
        let r = TextMap { index: new_key_index(), entries: Vec::new() };
        assert(r@ =~= Map::<Seq<char>, V>::empty());
        r
    }

    /// Number of entries.
    pub fn len(&self) -> (r: usize)
        ensures
            r == self.listed().len(),
    {
        self.entries.len()
    }

    /// Key of the entry at `position`.
    pub fn key_at(&self, position: usize) -> (r: &String)
        requires
            position < self.listed().len(),
        ensures
            *r == self.listed()[position as int].0,
    {
        &self.entries[position].0
    }

    /// Value of the entry at `position`.
    pub fn value_at(&self, position: usize) -> (r: &V)
        requires
            position < self.listed().len(),
        ensures
            *r == self.listed()[position as int].1,
    {
        &self.entries[position].1
    }

    /// The keys in ascending order.
    pub fn sorted_keys(&self) -> (keys: Vec<String>)
        requires
            self.wf(),
        ensures
            lists_domain(self@, texts(keys@)),
            keys@.len() == self.listed().len(),
    {
        let mut keys: Vec<String> = Vec::new();
        let mut i: usize = 0;
        while i < self.entries.len()
            invariant
                i <= self.entries@.len(),
                keys@.len() == i,
                forall|k: int| 0 <= k < i ==> #[trigger] keys@[k] == self.entries@[k].0,
            decreases self.entries@.len() - i,
        {
            keys.push(self.entries[i].0.clone());
            i = i + 1;
        }
        let ghost source = keys@;
        let sorted = sort_ranked(keys);
        proof {
            self.lemma_listed();
            assert(distinct_ranks(source)) by {
                assert forall|a: int, b: int|
                    0 <= a < source.len() && 0 <= b < source.len() && a != b implies !((
                #[trigger] source[a]).ranks_le(#[trigger] source[b]) && source[b].ranks_le(
                    source[a],
                )) by {
                    lemma_text_order(source[a]@, source[b]@);
                    if a < b {
                        assert(self.listed()[a].0@ != self.listed()[b].0@);
                    } else {
                        assert(self.listed()[b].0@ != self.listed()[a].0@);
                    }
                }
            }
            lemma_ranked_strict(source, sorted@);
            lemma_strictly_ascending(sorted@);
            let listed = texts(sorted@);
            assert forall|key: Seq<char>| #[trigger]
                listed.contains(key) <==> self@.dom().contains(key) by {
                if listed.contains(key) {
                    let a = choose|a: int| 0 <= a < listed.len() && listed[a] == key;
                    assert(sorted@.contains(sorted@[a]));
                    assert(source.contains(sorted@[a]));
                    let k = choose|k: int| 0 <= k < source.len() && source[k] == sorted@[a];
                    assert(self@.dom().contains(self.listed()[k].0@));
                }
                if self@.dom().contains(key) {
                    let k = choose|k: int|
                        0 <= k < self.listed().len() && (#[trigger] self.listed()[k]).0@ == key;
                    assert(source.contains(source[k]));
                    assert(sorted@.contains(source[k]));
                    let a = choose|a: int| 0 <= a < sorted@.len() && sorted@[a] == source[k];
                    assert(listed[a] == key);
                }
            }
        }
        sorted
    }

    /// The value stored under `key`.
    pub fn get(&self, key: &str) -> (r: Option<&V>)
        requires
            self.wf(),
        ensures
            r is Some <==> self@.dom().contains(key@),
            r is Some ==> *r->0 == self@[key@],
    {
        match key_index_get(&self.index, key) {
            Some(position) => Some(&self.entries[position].1),
            None => None,
        }
    }

    /// Whether the map has an entry for `key`.
    pub fn contains_key(&self, key: &str) -> (r: bool)
        requires
            self.wf(),
        ensures
            r == self@.dom().contains(key@),
    {
        key_index_get(&self.index, key).is_some()
    }

    /// Stores `value` under `key` and returns whether the key is new.
    pub fn insert(&mut self, key: String, value: V) -> (fresh: bool)
        requires
            old(self).wf(),
        ensures
            final(self).wf(),
            final(self)@ == old(self)@.insert(key@, value),
            fresh == !old(self)@.dom().contains(key@),
    {
        let ghost before = *self;
        match key_index_get(&self.index, key.as_str()) {
            Some(position) => {
                let ghost entry = self.entries@[position as int];
                self.entries[position].1 = value;
                proof {
                    assert(self.entries@ =~= before.entries@.update(position as int, (entry.0, value)));
                    assert(self@ =~= before@.insert(key@, value));
                }
                false
            },
            None => {
                let position: usize = self.entries.len();
                let copy = key.clone();
                self.entries.push((key, value));
                key_index_insert(&mut self.index, copy, position);
                proof {
                    assert(self.entries@ =~= before.entries@.push((key, value)));
                    assert forall|i: int| 0 <= i < before.entries@.len() implies
                        #[trigger] self.entries@[i] == before.entries@[i] by {}
                    assert forall|i: int| 0 <= i < before.entries@.len() implies (
                    #[trigger] before.entries@[i]).0@ != key@ by {
                        assert(key_entries(before.index).dom().contains(before.entries@[i].0@));
                    }
                    assert(self@ =~= before@.insert(key@, value));
                }
                true
            },
        }
    }

    /// Takes the entry of `key` out of the map.
    pub fn remove(&mut self, key: &str) -> (r: Option<V>)
        requires
            old(self).wf(),
        ensures
            final(self).wf(),
            final(self)@ == old(self)@.remove(key@),
            r is Some <==> old(self)@.dom().contains(key@),
            r is Some ==> r->0 == old(self)@[key@],
    {
        let ghost before = *self;
        match key_index_get(&self.index, key) {
            None => {
                assert(self@ =~= before@.remove(key@));
                None
            },
            Some(position) => {
                let last: usize = self.entries.len() - 1;
                let (taken_key, taken) = self.entries.swap_remove(position);
                key_index_remove(&mut self.index, key);
                let ghost keys = key_entries(before.index);
                proof {
                    assert(taken_key@ == key@);
                    assert forall|i: int| 0 <= i < before.entries@.len() && i != position implies (
                    #[trigger] before.entries@[i]).0@ != key@ by {
                        assert(keys[before.entries@[i].0@] == i);
                    }
                }
                if position < last {
                    let moved = self.entries[position].0.clone();
                    key_index_insert(&mut self.index, moved, position);
                    proof {
                        assert(self.entries@[position as int] == before.entries@[last as int]);
                        assert(moved@ == before.entries@[last as int].0@);
                    }
                }
                proof {
                    let now = key_entries(self.index);
                    assert forall|i: int| 0 <= i < self.entries@.len() implies now.dom().contains(
                        (#[trigger] self.entries@[i]).0@,
                    ) && now[self.entries@[i].0@] == i by {
                        if i != position {
                            assert(self.entries@[i] == before.entries@[i]);
                            assert(keys[before.entries@[i].0@] == i);
                            if position < last {
                                assert(keys[before.entries@[last as int].0@] == last);
                            }
                        }
                    }
                    assert forall|k: Seq<char>| #[trigger] now.dom().contains(k) implies now[k]
                        < self.entries@.len() && self.entries@[now[k] as int].0@ == k by {
                        if position < last && k == before.entries@[last as int].0@ {
                        } else {
                            assert(keys.dom().contains(k));
                            assert(k != key@);
                            assert(keys[k] != position);
                            if keys[k] == last {
                                assert(before.entries@[last as int].0@ == k);
                            }
                        }
                    }
                    assert forall|k: Seq<char>| now.dom().contains(k) <==> keys.dom().contains(k)
                        && k != key@ by {
                        if position < last {
                            assert(keys.dom().contains(before.entries@[last as int].0@));
                        }
                    }
                    assert forall|k: Seq<char>| #[trigger] self@.dom().contains(k) implies self@[k]
                        == before@.remove(key@)[k] by {
                        assert(now.dom().contains(k));
                        if position < last && k == before.entries@[last as int].0@ {
                            assert(keys[k] == last);
                        } else {
                            assert(now[k] == keys[k]);
                            assert(keys[k] != last || position == last);
                            assert(self.entries@[now[k] as int] == before.entries@[keys[k] as int]);
                        }
                    }
                    assert(self@ =~= before@.remove(key@));
                }
                Some(taken)
            },
        }
    }
}

} // verus!
