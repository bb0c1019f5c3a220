//! Hash index from numeric identities to positions.

use vstd::prelude::*;

verus! {

/// A `hashbrown::HashMap` from identities to positions.
#[verifier::external_body]
pub struct IdIndex {
    map: hashbrown::HashMap<u64, usize>,
}

/// The identities of the map with their positions.
pub uninterp spec fn id_entries(index: IdIndex) -> Map<u64, usize>;

/// `hashbrown::HashMap::new`: the new map holds no identity.
#[verifier::external_body]
pub(crate) fn new_id_index() -> (index: IdIndex)
    ensures
        id_entries(index).dom() == Set::<u64>::empty(),
{
    IdIndex { map: hashbrown::HashMap::new() }
}

/// `hashbrown::HashMap::insert`: afterwards the map holds `id` with `position`, and every other
/// identity as before.
#[verifier::external_body]
pub(crate) fn id_index_insert(index: &mut IdIndex, id: u64, position: usize)
    ensures
        id_entries(*final(index)) == id_entries(*old(index)).insert(id, position),
{
    index.map.insert(id, position);
}

/// `hashbrown::HashMap::get`: the position of `id`, if the map holds it.
#[verifier::external_body]
pub(crate) fn id_index_get(index: &IdIndex, id: u64) -> (r: Option<usize>)
    ensures
        r is Some <==> id_entries(*index).dom().contains(id),
        r is Some ==> r->0 == id_entries(*index)[id],
{
    index.map.get(&id).copied()
}

} // verus!
