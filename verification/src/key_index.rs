//! Hash index from text keys to positions.

use vstd::prelude::*;

verus! {

/// A `hashbrown::HashMap` from text keys to positions.
#[verifier::external_body]
pub struct KeyIndex {
    map: hashbrown::HashMap<String, usize>,
}

/// The keys of the map with their positions.
pub uninterp spec fn key_entries(index: KeyIndex) -> Map<Seq<char>, usize>;

/// `hashbrown::HashMap::new`: the new map holds no key.
#[verifier::external_body]
pub(crate) fn new_key_index() -> (index: KeyIndex)
    ensures
        key_entries(index).dom() == Set::<Seq<char>>::empty(),
{
    KeyIndex { map: hashbrown::HashMap::new() }
}

/// `hashbrown::HashMap::insert`: afterwards the map holds `key` with `position`, and every other
/// key as before.
#[verifier::external_body]
pub(crate) fn key_index_insert(index: &mut KeyIndex, key: String, position: usize)
    ensures
        key_entries(*final(index)) == key_entries(*old(index)).insert(key@, position),
{
    index.map.insert(key, position);
}

/// `hashbrown::HashMap::get`: the position of `key`, if the map holds it.
#[verifier::external_body]
pub(crate) fn key_index_get(index: &KeyIndex, key: &str) -> (r: Option<usize>)
    ensures
        r is Some <==> key_entries(*index).dom().contains(key@),
        r is Some ==> r->0 == key_entries(*index)[key@],
{
    index.map.get(key).copied()
}

/// `hashbrown::HashMap::remove`: afterwards the map does not hold `key`, and every other key as
/// before.
#[verifier::external_body]
pub(crate) fn key_index_remove(index: &mut KeyIndex, key: &str)
    ensures
        key_entries(*final(index)) == key_entries(*old(index)).remove(key@),
{
    index.map.remove(key);
}

} // verus!
