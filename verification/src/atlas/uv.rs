//! Bindings of logical textures to atlas pages and regions.

use crate::atlas::error::AtlasError;
use crate::atlas::types::{
    CachedAtlasKeySlot, CachedAtlasPage, CachedAtlasSlot, CachedUvBound, UvBound,
};
use crate::bytes::{
    blake3_hash, blake3_of, framed, low_bytes, push_all, push_framed, push_u32, push_u64,
};
use crate::id_index::{id_entries, id_index_get, id_index_insert, new_id_index, IdIndex};
use crate::sort::{distinct_ranks, lemma_ranked_strict, sort_ranked, Ranked};
use crate::text::{
    ascending, lemma_ascending_unique, lemma_text_order, lemma_text_transitive, str_eq, str_le,
    str_lt, text_le, text_lt, texts,
};
use crate::text_map::{lemma_domain_listing_unique, lists_domain, TextMap};
use vstd::prelude::*;
use vstd::utf8::encode_utf8;

verus! {

/// Page and region of each logical texture.
pub type FrameMap = TextMap<(usize, UvBound)>;

/// Bindings sort by path.
impl Ranked for CachedUvBound {
    open spec fn ranks_le(self, other: Self) -> bool {
        text_le(self.path@, other.path@)
    }

    proof fn rank_total(a: Self, b: Self) {
        lemma_text_order(a.path@, b.path@);
    }

    proof fn rank_transitive(a: Self, b: Self, c: Self) {
        lemma_text_transitive(a.path@, b.path@, c.path@);
    }

    fn rank_le(&self, other: &Self) -> (r: bool) {
        str_le(self.path.as_str(), other.path.as_str())
    }
}

// ---------------------------------------------------------------------------------------------
// Slots to bindings
// ---------------------------------------------------------------------------------------------

/// Position of the last slot with the identity, if there is one.
pub open spec fn slot_position(slots: Seq<CachedAtlasSlot>, id: u64) -> Option<int>
    decreases slots.len(),
{
    if slots.len() == 0 {
        None
    } else if slots.last().slot_id == id {
        Some(slots.len() - 1)
    } else {
        slot_position(slots.drop_last(), id)
    }
}

pub proof fn lemma_slot_position(slots: Seq<CachedAtlasSlot>, id: u64)
    ensures
        slot_position(slots, id) matches Some(s) ==> 0 <= s < slots.len() && slots[s].slot_id == id
            && forall|t: int| s < t < slots.len() ==> (#[trigger] slots[t]).slot_id != id,
        slot_position(slots, id) is None ==> forall|t: int|
            0 <= t < slots.len() ==> (#[trigger] slots[t]).slot_id != id,
    decreases slots.len(),
{
    if slots.len() > 0 && slots.last().slot_id != id {
        lemma_slot_position(slots.drop_last(), id);
        let before = slots.drop_last();
        match slot_position(before, id) {
            Some(s) => {
                assert forall|t: int| s < t < slots.len() implies (#[trigger] slots[t]).slot_id
                    != id by {
                    if t < before.len() {
                        assert(before[t] == slots[t]);
                    }
                }
            },
            None => {
                assert forall|t: int| 0 <= t < slots.len() implies (#[trigger] slots[t]).slot_id
                    != id by {
                    if t < before.len() {
                        assert(before[t] == slots[t]);
                    }
                }
            },
        }
    }
}

/// Positions of the slots by identity; of slots with the same identity the last one stands.
pub(crate) fn slot_index(slots: &[CachedAtlasSlot]) -> (r: IdIndex)
    ensures
        forall|id: u64| #[trigger]
            id_entries(r).dom().contains(id) <==> slot_position(slots@, id) is Some,
        forall|id: u64| #[trigger]
            id_entries(r).dom().contains(id) ==> id_entries(r)[id] as int == slot_position(
                slots@,
                id,
            )->0,
{
    let mut index = new_id_index();
    let mut i: usize = 0;
    while i < slots.len()
        invariant
            i <= slots.len(),
            forall|id: u64| #[trigger]
                id_entries(index).dom().contains(id) <==> slot_position(
                    slots@.take(i as int),
                    id,
                ) is Some,
            forall|id: u64| #[trigger]
                id_entries(index).dom().contains(id) ==> id_entries(index)[id] as int
                    == slot_position(slots@.take(i as int), id)->0,
        decreases slots.len() - i,
    {
        id_index_insert(&mut index, slots[i].slot_id, i);
        proof {
            assert(slots@.take(i + 1).drop_last() =~= slots@.take(i as int));
            assert(slots@.take(i + 1).last() == slots@[i as int]);
        }
        i = i + 1;
    }
    assert(slots@.take(i as int) =~= slots@);
    index
}

/// The bounds are the edges of the slot's destination as fractions of the page.
pub open spec fn bounds_slot<F: Fn(u32, u32) -> u32>(
    ratio: F,
    slot: CachedAtlasSlot,
    page: CachedAtlasPage,
    bound: UvBound,
) -> bool {
    let d = slot.destination;
    &&& call_ensures(ratio, (d.x, page.width), bound.min_x)
    &&& call_ensures(ratio, (d.right_edge() as u32, page.width), bound.max_x)
    &&& call_ensures(ratio, (d.y, page.height), bound.min_y)
    &&& call_ensures(ratio, (d.bottom_edge() as u32, page.height), bound.max_y)
}

/// The key's slot exists and lies on an existing page.
pub open spec fn relation_resolves(
    pages: Seq<CachedAtlasPage>,
    slots: Seq<CachedAtlasSlot>,
    relation: CachedAtlasKeySlot,
) -> bool {
    &&& slot_position(slots, relation.slot_id) is Some
    &&& slots[slot_position(slots, relation.slot_id)->0].page_id < pages.len()
}

/// `binding` is the page and region of the key's slot.
pub open spec fn binds_relation<F: Fn(u32, u32) -> u32>(
    ratio: F,
    pages: Seq<CachedAtlasPage>,
    slots: Seq<CachedAtlasSlot>,
    relation: CachedAtlasKeySlot,
    binding: (usize, UvBound),
) -> bool {
    let slot = slots[slot_position(slots, relation.slot_id)->0];
    &&& binding.0 == slot.page_id
    &&& bounds_slot(ratio, slot, pages[slot.page_id as int], binding.1)
}

/// Some relation has the path.
pub open spec fn relates_path(key_slots: Seq<CachedAtlasKeySlot>, path: Seq<char>) -> bool {
    exists|k: int| 0 <= k < key_slots.len() && (#[trigger] key_slots[k]).path@ == path
}

/// No relation after `k` has the same path.
pub open spec fn is_last_relation(key_slots: Seq<CachedAtlasKeySlot>, k: int) -> bool {
    forall|j: int|
        k < j < key_slots.len() ==> (#[trigger] key_slots[j]).path@ != key_slots[k].path@
}

/// `map` binds exactly the related paths, each to the page and region of its slot.
pub open spec fn binds_relations<F: Fn(u32, u32) -> u32>(
    ratio: F,
    pages: Seq<CachedAtlasPage>,
    slots: Seq<CachedAtlasSlot>,
    key_slots: Seq<CachedAtlasKeySlot>,
    map: Map<Seq<char>, (usize, UvBound)>,
) -> bool {
    &&& forall|path: Seq<char>| #[trigger]
        map.dom().contains(path) <==> relates_path(key_slots, path)
    &&& forall|k: int|
        0 <= k < key_slots.len() ==> relation_resolves(pages, slots, #[trigger] key_slots[k])
    &&& forall|k: int|
        0 <= k < key_slots.len() && is_last_relation(key_slots, k) ==> binds_relation(
            ratio,
            pages,
            slots,
            #[trigger] key_slots[k],
            map[key_slots[k].path@],
        )
}

/// The far edges of every related slot's destination are representable.
pub open spec fn destinations_fit(
    slots: Seq<CachedAtlasSlot>,
    key_slots: Seq<CachedAtlasKeySlot>,
) -> bool {
    forall|k: int|
        0 <= k < key_slots.len() && slot_position(slots, (#[trigger] key_slots[k]).slot_id) is Some
            ==> slots[slot_position(slots, key_slots[k].slot_id)->0].destination.fits()
}

/// Derives the binding of every logical key from its slot.
///
/// `ratio` gives the single-precision bit pattern of the quotient of two texel counts.
pub fn bindings_from_relations<F: Fn(u32, u32) -> u32>(
    ratio: &F,
    pages: &[CachedAtlasPage],
    slots: &[CachedAtlasSlot],
    key_slots: &[CachedAtlasKeySlot],
) -> (r: Result<FrameMap, AtlasError>)
    requires
        forall|a: u32, b: u32| #[trigger] call_requires(*ratio, (a, b)),
        destinations_fit(slots@, key_slots@),
    ensures
        match r {
            Ok(map) => map.wf() && binds_relations(*ratio, pages@, slots@, key_slots@, map@),
            Err(e) => exists|k: int|
                {
                    &&& 0 <= k < key_slots@.len()
                    &&& !relation_resolves(pages@, slots@, #[trigger] key_slots@[k])
                    &&& forall|j: int|
                        0 <= j < k ==> relation_resolves(pages@, slots@, #[trigger] key_slots@[j])
                    &&& e == if slot_position(slots@, key_slots@[k].slot_id) is None {
                        AtlasError::KeyReferencesMissingSlot
                    } else {
                        AtlasError::SlotReferencesMissingPage
                    }
                },
        },
{
    let index = slot_index(slots);
    let mut map: FrameMap = TextMap::new();
    let mut i: usize = 0;
    while i < key_slots.len()
        invariant
            i <= key_slots.len(),
            forall|a: u32, b: u32| #[trigger] call_requires(*ratio, (a, b)),
            destinations_fit(slots@, key_slots@),
            forall|id: u64| #[trigger]
                id_entries(index).dom().contains(id) <==> slot_position(slots@, id) is Some,
            forall|id: u64| #[trigger]
                id_entries(index).dom().contains(id) ==> id_entries(index)[id] as int
                    == slot_position(slots@, id)->0,
            map.wf(),
            binds_relations(*ratio, pages@, slots@, key_slots@.take(i as int), map@),
        decreases key_slots.len() - i,
    {
        let relation = &key_slots[i];
        let ghost seen = key_slots@.take(i as int);
        proof {
            lemma_slot_position(slots@, relation.slot_id);
            assert forall|j: int| 0 <= j < i implies relation_resolves(
                pages@,
                slots@,
                #[trigger] key_slots@[j],
            ) by {
                assert(seen[j] == key_slots@[j]);
            }
        }
        let position: usize = match id_index_get(&index, relation.slot_id) {
            Some(position) => position,
            None => {
                return Err(AtlasError::KeyReferencesMissingSlot);
            },
        };
        let slot = &slots[position];
        let page_id: usize = slot.page_id as usize;
        if page_id >= pages.len() {
            return Err(AtlasError::SlotReferencesMissingPage);
        }
        let page = pages[page_id];
        let d = slot.destination;
        assert(d.fits());
        let bound = UvBound {
            min_x: ratio(d.x, page.width),
            max_x: ratio(d.x + d.width, page.width),
            min_y: ratio(d.y, page.height),
            max_y: ratio(d.y + d.height, page.height),
        };
        let ghost before = map@;
        map.insert(relation.path.clone(), (page_id, bound));
        proof {
            let now = key_slots@.take(i + 1);
            assert(now =~= seen.push(*relation));
            assert(binds_relation(*ratio, pages@, slots@, *relation, (page_id, bound)));
            assert forall|path: Seq<char>| #[trigger]
                map@.dom().contains(path) <==> relates_path(now, path) by {
                if relates_path(seen, path) {
                    let k = choose|k: int| 0 <= k < seen.len() && (#[trigger] seen[k]).path@ == path;
                    assert(now[k].path@ == path);
                }
                if path == relation.path@ {
                    assert(now[i as int].path@ == path);
                }
                if relates_path(now, path) && path != relation.path@ {
                    let k = choose|k: int| 0 <= k < now.len() && (#[trigger] now[k]).path@ == path;
                    assert(seen[k].path@ == path);
                }
                assert(before.dom().contains(path) <==> relates_path(seen, path));
            }
            assert forall|k: int| 0 <= k < now.len() implies relation_resolves(
                pages@,
                slots@,
                #[trigger] now[k],
            ) by {
                if k < i {
                    assert(seen[k] == now[k]);
                }
            }
            assert forall|k: int| 0 <= k < now.len() && is_last_relation(now, k) implies binds_relation(
                *ratio,
                pages@,
                slots@,
                #[trigger] now[k],
                map@[now[k].path@],
            ) by {
                if k < i {
                    assert(now[i as int].path@ != now[k].path@);
                    assert(is_last_relation(seen, k)) by {
                        assert forall|j: int| k < j < seen.len() implies (#[trigger] seen[j]).path@
                            != seen[k].path@ by {
                            assert(now[j].path@ != now[k].path@);
                        }
                    }
                    assert(seen[k] == now[k]);
                }
            }
        }
        i = i + 1;
    }
    assert(key_slots@.take(i as int) =~= key_slots@);
    Ok(map)
}

// ---------------------------------------------------------------------------------------------
// Cached bindings
// ---------------------------------------------------------------------------------------------

/// The cached form of one binding.
pub open spec fn is_cached_bound(
    entry: CachedUvBound,
    path: Seq<char>,
    binding: (usize, UvBound),
) -> bool {
    &&& entry.path@ == path
    &&& entry.page == binding.0 as u32
    &&& entry.min_x == binding.1.min_x
    &&& entry.max_x == binding.1.max_x
    &&& entry.min_y == binding.1.min_y
    &&& entry.max_y == binding.1.max_y
}

/// Paths of cached bindings in order.
pub open spec fn bound_paths(bounds: Seq<CachedUvBound>) -> Seq<Seq<char>> {
    bounds.map_values(|bound: CachedUvBound| bound.path@)
}

/// Some cached binding has the path.
pub open spec fn lists_path(bounds: Seq<CachedUvBound>, path: Seq<char>) -> bool {
    exists|i: int| 0 <= i < bounds.len() && (#[trigger] bounds[i]).path@ == path
}

/// `bounds` lists the bindings of `map` by ascending path.
pub open spec fn lists_bindings(
    map: Map<Seq<char>, (usize, UvBound)>,
    bounds: Seq<CachedUvBound>,
) -> bool {
    &&& ascending(bound_paths(bounds))
    &&& forall|i: int|
        0 <= i < bounds.len() ==> map.dom().contains((#[trigger] bounds[i]).path@)
            && is_cached_bound(bounds[i], bounds[i].path@, map[bounds[i].path@])
    &&& forall|path: Seq<char>| #[trigger] map.dom().contains(path) ==> lists_path(bounds, path)
}

/// Two sorted listings of the same bindings are the same, entry by entry.
pub proof fn lemma_listing_unique(
    map: Map<Seq<char>, (usize, UvBound)>,
    a: Seq<CachedUvBound>,
    b: Seq<CachedUvBound>,
)
    requires
        lists_bindings(map, a),
        lists_bindings(map, b),
    ensures
        bound_paths(a) == bound_paths(b),
        a.len() == b.len(),
        forall|i: int|
            0 <= i < a.len() ==> is_cached_bound(
                #[trigger] a[i],
                b[i].path@,
                map[b[i].path@],
            ) && is_cached_bound(b[i], b[i].path@, map[b[i].path@]),
{
    let pa = bound_paths(a);
    let pb = bound_paths(b);
    assert forall|x: Seq<char>| #[trigger] pa.contains(x) <==> pb.contains(x) by {
        if pa.contains(x) {
            let i = choose|i: int| 0 <= i < pa.len() && pa[i] == x;
            assert(map.dom().contains(a[i].path@));
            let j = choose|j: int| 0 <= j < b.len() && (#[trigger] b[j]).path@ == x;
            assert(pb[j] == x);
        }
        if pb.contains(x) {
            let i = choose|i: int| 0 <= i < pb.len() && pb[i] == x;
            assert(map.dom().contains(b[i].path@));
            let j = choose|j: int| 0 <= j < a.len() && (#[trigger] a[j]).path@ == x;
            assert(pa[j] == x);
        }
    }
    lemma_ascending_unique(pa, pb);
    assert(pa.len() == a.len());
    assert(pb.len() == b.len());
    assert(a.len() == b.len());
    assert forall|i: int| 0 <= i < a.len() implies is_cached_bound(
        #[trigger] a[i],
        b[i].path@,
        map[b[i].path@],
    ) && is_cached_bound(b[i], b[i].path@, map[b[i].path@]) by {
        assert(pa[i] == pb[i]);
        assert(pa[i] == a[i].path@ && pb[i] == b[i].path@);
    }
}

/// Lists a binding map by ascending path.
pub fn map_to_cached_bounds(map: &FrameMap) -> (bounds: Vec<CachedUvBound>)
    requires
        map.wf(),
    ensures
        lists_bindings(map@, bounds@),
{
    let mut entries: Vec<CachedUvBound> = Vec::new();
    let mut i: usize = 0;
    while i < map.len()
        invariant
            i <= map.listed().len(),
            entries@.len() == i,
            forall|k: int|
                0 <= k < i ==> is_cached_bound(
                    #[trigger] entries@[k],
                    map.listed()[k].0@,
                    map.listed()[k].1,
                ),
        decreases map.listed().len() - i,
    {
        let (page, bound) = *map.value_at(i);
        entries.push(
            CachedUvBound {
                path: map.key_at(i).clone(),
                page: #[verifier::truncate]
                (page as u32),
                min_x: bound.min_x,
                max_x: bound.max_x,
                min_y: bound.min_y,
                max_y: bound.max_y,
            },
        );
        i = i + 1;
    }
    let ghost source = entries@;
    let bounds = sort_ranked(entries);
    proof {
        map.lemma_listed();
        assert(distinct_ranks(source)) by {
            assert forall|a: int, b: int|
                0 <= a < source.len() && 0 <= b < source.len() && a != b implies !((
            #[trigger] source[a]).ranks_le(#[trigger] source[b]) && source[b].ranks_le(
                source[a],
            )) by {
                lemma_text_order(source[a].path@, source[b].path@);
                if a < b {
                    assert(map.listed()[a].0@ != map.listed()[b].0@);
                } else {
                    assert(map.listed()[b].0@ != map.listed()[a].0@);
                }
            }
        }
        lemma_ranked_strict(source, bounds@);
        assert(ascending(bound_paths(bounds@))) by {
            assert forall|a: int, b: int| 0 <= a < b < bounds@.len() implies text_lt(
                #[trigger] bound_paths(bounds@)[a],
                #[trigger] bound_paths(bounds@)[b],
            ) by {
                assert(bounds@[a].ranks_le(bounds@[b]) && !bounds@[b].ranks_le(bounds@[a]));
                lemma_text_order(bounds@[a].path@, bounds@[b].path@);
            }
        }
        assert forall|a: int| 0 <= a < bounds@.len() implies map@.dom().contains(
            (#[trigger] bounds@[a]).path@,
        ) && is_cached_bound(bounds@[a], bounds@[a].path@, map@[bounds@[a].path@]) by {
            assert(bounds@.contains(bounds@[a]));
            assert(source.contains(bounds@[a]));
            let k = choose|k: int| 0 <= k < source.len() && source[k] == bounds@[a];
            assert(map@.dom().contains(map.listed()[k].0@));
        }
        assert forall|path: Seq<char>| #[trigger] map@.dom().contains(path) implies lists_path(
            bounds@,
            path,
        ) by {
            let k = choose|k: int|
                0 <= k < map.listed().len() && (#[trigger] map.listed()[k]).0@ == path;
            assert(source.contains(source[k]));
            assert(bounds@.contains(source[k]));
            let a = choose|a: int| 0 <= a < bounds@.len() && bounds@[a] == source[k];
            assert(bounds@[a].path@ == path);
        }
    }
    bounds
}

/// No binding after `k` has the same path.
pub open spec fn is_last_bound(bounds: Seq<CachedUvBound>, k: int) -> bool {
    forall|j: int| k < j < bounds.len() ==> (#[trigger] bounds[j]).path@ != bounds[k].path@
}

/// The region bounds of a cached binding.
pub open spec fn bound_of(entry: CachedUvBound) -> UvBound {
    UvBound {
        min_x: entry.min_x,
        max_x: entry.max_x,
        min_y: entry.min_y,
        max_y: entry.max_y,
    }
}

/// Restores a binding map from its cached form; of entries with the same path the last one stands.
pub fn cached_uv_map(uv_bounds: &[CachedUvBound]) -> (map: FrameMap)
    ensures
        map.wf(),
        forall|path: Seq<char>| #[trigger]
            map@.dom().contains(path) <==> lists_path(uv_bounds@, path),
        forall|k: int|
            0 <= k < uv_bounds@.len() && is_last_bound(uv_bounds@, k) ==> map@[(
            #[trigger] uv_bounds@[k]).path@] == (
                uv_bounds@[k].page as usize,
                bound_of(uv_bounds@[k]),
            ),
{
    let mut map: FrameMap = TextMap::new();
    let mut i: usize = 0;
    while i < uv_bounds.len()
        invariant
            i <= uv_bounds.len(),
            map.wf(),
            forall|path: Seq<char>| #[trigger]
                map@.dom().contains(path) <==> lists_path(uv_bounds@.take(i as int), path),
            forall|k: int|
                0 <= k < i && is_last_bound(uv_bounds@.take(i as int), k) ==> map@[(
                #[trigger] uv_bounds@[k]).path@] == (
                    uv_bounds@[k].page as usize,
                    bound_of(uv_bounds@[k]),
                ),
        decreases uv_bounds.len() - i,
    {
        let uv = &uv_bounds[i];
        let bound = UvBound {
            min_x: uv.min_x,
            max_x: uv.max_x,
            min_y: uv.min_y,
            max_y: uv.max_y,
        };
        let ghost before = map@;
        map.insert(uv.path.clone(), (uv.page as usize, bound));
        proof {
            let seen = uv_bounds@.take(i as int);
            let now = uv_bounds@.take(i + 1);
            assert(now =~= seen.push(*uv));
            assert forall|path: Seq<char>| #[trigger]
                map@.dom().contains(path) <==> lists_path(now, path) by {
                assert(before.dom().contains(path) <==> lists_path(seen, path));
                if lists_path(seen, path) {
                    let k = choose|k: int| 0 <= k < seen.len() && (#[trigger] seen[k]).path@ == path;
                    assert(now[k].path@ == path);
                }
                if path == uv.path@ {
                    assert(now[i as int].path@ == path);
                }
                if lists_path(now, path) && path != uv.path@ {
                    let k = choose|k: int| 0 <= k < now.len() && (#[trigger] now[k]).path@ == path;
                    assert(seen[k].path@ == path);
                }
            }
            assert forall|k: int| 0 <= k < i + 1 && is_last_bound(now, k) implies map@[(
            #[trigger] uv_bounds@[k]).path@] == (
                uv_bounds@[k].page as usize,
                bound_of(uv_bounds@[k]),
            ) by {
                if k < i {
                    assert(now[i as int].path@ != now[k].path@);
                    assert(is_last_bound(seen, k)) by {
                        assert forall|j: int| k < j < seen.len() implies (#[trigger] seen[j]).path@
                            != seen[k].path@ by {
                            assert(now[j].path@ != now[k].path@);
                        }
                    }
                }
            }
        }
        i = i + 1;
    }
    assert(uv_bounds@.take(i as int) =~= uv_bounds@);
    map
}

/// A binding map with 32-bit page numbers survives being listed and restored.
pub proof fn lemma_bindings_round_trip(
    map: Map<Seq<char>, (usize, UvBound)>,
    bounds: Seq<CachedUvBound>,
    restored: Map<Seq<char>, (usize, UvBound)>,
)
    requires
        forall|path: Seq<char>| #[trigger]
            map.dom().contains(path) ==> map[path].0 <= u32::MAX,
        lists_bindings(map, bounds),
        forall|path: Seq<char>| #[trigger]
            restored.dom().contains(path) <==> lists_path(bounds, path),
        forall|k: int|
            0 <= k < bounds.len() && is_last_bound(bounds, k) ==> restored[(
            #[trigger] bounds[k]).path@] == (bounds[k].page as usize, bound_of(bounds[k])),
    ensures
        restored == map,
{
    assert forall|path: Seq<char>| #[trigger]
        map.dom().contains(path) <==> restored.dom().contains(path) by {
        if lists_path(bounds, path) {
            let k = choose|k: int| 0 <= k < bounds.len() && (#[trigger] bounds[k]).path@ == path;
            assert(map.dom().contains(bounds[k].path@));
        }
    }
    assert forall|path: Seq<char>| #[trigger] map.dom().contains(path) implies restored[path]
        == map[path] by {
        let k = choose|k: int| 0 <= k < bounds.len() && (#[trigger] bounds[k]).path@ == path;
        assert(is_last_bound(bounds, k)) by {
            assert forall|j: int| k < j < bounds.len() implies (#[trigger] bounds[j]).path@
                != bounds[k].path@ by {
                assert(text_lt(bound_paths(bounds)[k], bound_paths(bounds)[j]));
            }
        }
        assert(is_cached_bound(bounds[k], path, map[path]));
        assert(bound_of(bounds[k]) == map[path].1);
    }
    assert(restored =~= map);
}

// ---------------------------------------------------------------------------------------------
// Binding changes
// ---------------------------------------------------------------------------------------------

/// Exhaustive sorted binding changes for one comparable atlas family.
#[derive(Debug, PartialEq, Eq)]
pub struct BindingDelta {
    /// Logical keys added to the binding relation.
    pub added: Vec<String>,
    /// Logical keys removed from the binding relation.
    pub removed: Vec<String>,
    /// Logical keys whose page or UV bounds changed.
    pub changed: Vec<String>,
    /// Number of logical keys whose binding remained unchanged.
    pub unchanged: usize,
}

/// Binding changes as plain values.
pub struct DeltaView {
    pub added: Seq<Seq<char>>,
    pub removed: Seq<Seq<char>>,
    pub changed: Seq<Seq<char>>,
    pub unchanged: nat,
}

impl View for BindingDelta {
    type V = DeltaView;

    open spec fn view(&self) -> DeltaView {
        DeltaView {
            added: texts(self.added@),
            removed: texts(self.removed@),
            changed: texts(self.changed@),
            unchanged: self.unchanged as nat,
        }
    }
}

/// No changes and nothing compared.
pub open spec fn no_delta() -> DeltaView {
    DeltaView {
        added: Seq::empty(),
        removed: Seq::empty(),
        changed: Seq::empty(),
        unchanged: 0,
    }
}

impl Default for BindingDelta {
    fn default() -> (r: Self)
        ensures
            r@ == no_delta(),
    {
        let r = BindingDelta {
            added: Vec::new(),
            removed: Vec::new(),
            changed: Vec::new(),
            unchanged: 0,
        };
        assert(r@.added =~= Seq::empty());
        assert(r@.removed =~= Seq::empty());
        assert(r@.changed =~= Seq::empty());
        r
    }
}

impl Clone for BindingDelta {
    fn clone(&self) -> (r: Self)
        ensures
            r@ == self@,
    {
        let r = BindingDelta {
            added: self.added.clone(),
            removed: self.removed.clone(),
            changed: self.changed.clone(),
            unchanged: self.unchanged,
        };
        assert(r.added@ =~= self.added@);
        assert(r.removed@ =~= self.removed@);
        assert(r.changed@ =~= self.changed@);
        r
    }
}

/// Two bindings name the same page and the same bounds, bit for bit.
pub open spec fn same_binding(a: CachedUvBound, b: CachedUvBound) -> bool {
    a.page == b.page && bound_of(a) == bound_of(b)
}

/// What walking two sorted binding lists side by side reports.
pub open spec fn delta_between(
    previous: Seq<CachedUvBound>,
    current: Seq<CachedUvBound>,
) -> DeltaView
    decreases previous.len() + current.len(),
{
    if previous.len() == 0 && current.len() == 0 {
        no_delta()
    } else if current.len() == 0 || (previous.len() > 0 && text_lt(
        previous[0].path@,
        current[0].path@,
    )) {
        let rest = delta_between(previous.drop_first(), current);
        DeltaView { removed: seq![previous[0].path@] + rest.removed, ..rest }
    } else if previous.len() == 0 || previous[0].path@ != current[0].path@ {
        let rest = delta_between(previous, current.drop_first());
        DeltaView { added: seq![current[0].path@] + rest.added, ..rest }
    } else {
        let rest = delta_between(previous.drop_first(), current.drop_first());
        if same_binding(previous[0], current[0]) {
            DeltaView { unchanged: rest.unchanged + 1, ..rest }
        } else {
            DeltaView { changed: seq![current[0].path@] + rest.changed, ..rest }
        }
    }
}

/// What is already reported, followed by what the remaining lists give.
pub open spec fn joined_delta(head: DeltaView, rest: DeltaView) -> DeltaView {
    DeltaView {
        added: head.added + rest.added,
        removed: head.removed + rest.removed,
        changed: head.changed + rest.changed,
        unchanged: head.unchanged + rest.unchanged,
    }
}

fn binding_bits_equal(left: &CachedUvBound, right: &CachedUvBound) -> (r: bool)
    ensures
        r == same_binding(*left, *right),
{
    left.page == right.page && left.min_x == right.min_x && left.max_x == right.max_x && left.min_y
        == right.min_y && left.max_y == right.max_y
}

/// Compares binding relations by page and raw bound bits.
pub fn binding_delta(previous: &[CachedUvBound], current: &[CachedUvBound]) -> (r: BindingDelta)
    ensures
        r@ == delta_between(previous@, current@),
{
    let mut result = BindingDelta::default();
    let mut previous_index: usize = 0;
    let mut current_index: usize = 0;
    proof {
        assert(previous@.skip(0) =~= previous@);
        assert(current@.skip(0) =~= current@);
        let rest = delta_between(previous@, current@);
        assert(joined_delta(result@, rest).added =~= rest.added);
        assert(joined_delta(result@, rest).removed =~= rest.removed);
        assert(joined_delta(result@, rest).changed =~= rest.changed);
    }
    while previous_index < previous.len() || current_index < current.len()
        invariant
            previous_index <= previous.len(),
            current_index <= current.len(),
            result.unchanged <= previous_index,
            joined_delta(
                result@,
                delta_between(
                    previous@.skip(previous_index as int),
                    current@.skip(current_index as int),
                ),
            ) == delta_between(previous@, current@),
        decreases previous.len() - previous_index + current.len() - current_index,
    {
        let ghost p = previous@.skip(previous_index as int);
        let ghost c = current@.skip(current_index as int);
        let ghost head = result@;
        proof {
            if previous_index < previous.len() {
                assert(p[0] == previous@[previous_index as int]);
                assert(p.drop_first() =~= previous@.skip(previous_index + 1));
            }
            if current_index < current.len() {
                assert(c[0] == current@[current_index as int]);
                assert(c.drop_first() =~= current@.skip(current_index + 1));
            }
        }
        if current_index == current.len() || (previous_index < previous.len() && str_lt(
            previous[previous_index].path.as_str(),
            current[current_index].path.as_str(),
        )) {
            result.removed.push(previous[previous_index].path.clone());
            previous_index = previous_index + 1;
            proof {
                let rest = delta_between(p.drop_first(), c);
                assert(result@.removed =~= head.removed.push(p[0].path@));
                assert(joined_delta(result@, rest).removed =~= joined_delta(
                    head,
                    delta_between(p, c),
                ).removed);
            }
        } else if previous_index == previous.len() || !str_eq(
            previous[previous_index].path.as_str(),
            current[current_index].path.as_str(),
        ) {
            result.added.push(current[current_index].path.clone());
            current_index = current_index + 1;
            proof {
                let rest = delta_between(p, c.drop_first());
                assert(result@.added =~= head.added.push(c[0].path@));
                assert(joined_delta(result@, rest).added =~= joined_delta(
                    head,
                    delta_between(p, c),
                ).added);
            }
        } else {
            if binding_bits_equal(&previous[previous_index], &current[current_index]) {
                result.unchanged = result.unchanged + 1;
            } else {
                result.changed.push(current[current_index].path.clone());
                proof {
                    let rest = delta_between(p.drop_first(), c.drop_first());
                    assert(result@.changed =~= head.changed.push(c[0].path@));
                    assert(joined_delta(result@, rest).changed =~= joined_delta(
                        head,
                        delta_between(p, c),
                    ).changed);
                }
            }
            previous_index = previous_index + 1;
            current_index = current_index + 1;
        }
    }
    proof {
        assert(previous@.skip(previous_index as int).len() == 0);
        assert(current@.skip(current_index as int).len() == 0);
        assert(joined_delta(result@, no_delta()).added =~= result@.added);
        assert(joined_delta(result@, no_delta()).removed =~= result@.removed);
        assert(joined_delta(result@, no_delta()).changed =~= result@.changed);
    }
    result
}

/// Some binding of the list has the same path as `entry` and is bitwise the same.
pub open spec fn binds_alike(bounds: Seq<CachedUvBound>, entry: CachedUvBound) -> bool {
    exists|i: int|
        0 <= i < bounds.len() && (#[trigger] bounds[i]).path@ == entry.path@ && same_binding(
            bounds[i],
            entry,
        )
}

/// Comparing two sorted relations accounts for every key exactly once: each current key is added,
/// changed, or unchanged, and each previous key is removed, changed, or unchanged.
pub proof fn lemma_delta_exhaustive(previous: Seq<CachedUvBound>, current: Seq<CachedUvBound>)
    requires
        ascending(bound_paths(previous)),
        ascending(bound_paths(current)),
    ensures
        ({
            let delta = delta_between(previous, current);
            &&& delta.added.len() + delta.changed.len() + delta.unchanged == current.len()
            &&& delta.removed.len() + delta.changed.len() + delta.unchanged == previous.len()
            &&& forall|x: Seq<char>| #[trigger]
                delta.added.contains(x) <==> lists_path(current, x) && !lists_path(previous, x)
            &&& forall|x: Seq<char>| #[trigger]
                delta.removed.contains(x) <==> lists_path(previous, x) && !lists_path(current, x)
            &&& forall|c: int|
                0 <= c < current.len() ==> (delta.changed.contains(
                    (#[trigger] current[c]).path@,
                ) <==> lists_path(previous, current[c].path@) && !binds_alike(
                    previous,
                    current[c],
                ))
            &&& forall|x: Seq<char>| #[trigger]
                delta.changed.contains(x) ==> lists_path(current, x) && lists_path(previous, x)
        }),
    decreases previous.len() + current.len(),
{
    let delta = delta_between(previous, current);
    if previous.len() == 0 && current.len() == 0 {
        assert(!delta.added.contains(Seq::empty()));
    } else if current.len() == 0 || (previous.len() > 0 && text_lt(
        previous[0].path@,
        current[0].path@,
    )) {
        let p1 = previous.drop_first();
        let rest = delta_between(p1, current);
        lemma_drop_first_ascending(previous);
        lemma_delta_exhaustive(p1, current);
        let first = previous[0].path@;
        lemma_below_all(first, current);
        assert forall|x: Seq<char>| lists_path(previous, x) <==> x == first || lists_path(
            p1,
            x,
        ) by {
            lemma_path_split(previous, x);
        }
        assert forall|x: Seq<char>| #[trigger] delta.removed.contains(x) <==> x == first
            || rest.removed.contains(x) by {
            lemma_prepend_contains(first, rest.removed, x);
        }
        assert forall|c: int| 0 <= c < current.len() implies (delta.changed.contains(
            (#[trigger] current[c]).path@,
        ) <==> lists_path(previous, current[c].path@) && !binds_alike(previous, current[c])) by {
            assert(lists_path(current, current[c].path@));
            lemma_alike_split(previous, current[c]);
        }
    } else if previous.len() == 0 || previous[0].path@ != current[0].path@ {
        let c1 = current.drop_first();
        let rest = delta_between(previous, c1);
        lemma_drop_first_ascending(current);
        lemma_delta_exhaustive(previous, c1);
        let first = current[0].path@;
        if previous.len() > 0 {
            lemma_text_order(previous[0].path@, first);
        }
        lemma_below_all(first, previous);
        assert forall|x: Seq<char>| lists_path(current, x) <==> x == first || lists_path(
            c1,
            x,
        ) by {
            lemma_path_split(current, x);
        }
        assert forall|x: Seq<char>| #[trigger] delta.added.contains(x) <==> x == first
            || rest.added.contains(x) by {
            lemma_prepend_contains(first, rest.added, x);
        }
        assert forall|c: int| 0 <= c < current.len() implies (delta.changed.contains(
            (#[trigger] current[c]).path@,
        ) <==> lists_path(previous, current[c].path@) && !binds_alike(previous, current[c])) by {
            if c > 0 {
                assert(c1[c - 1] == current[c]);
            }
        }
    } else {
        let p1 = previous.drop_first();
        let c1 = current.drop_first();
        let rest = delta_between(p1, c1);
        lemma_drop_first_ascending(previous);
        lemma_drop_first_ascending(current);
        lemma_delta_exhaustive(p1, c1);
        let first = current[0].path@;
        lemma_first_below(previous);
        lemma_first_below(current);
        assert forall|x: Seq<char>| lists_path(previous, x) <==> x == first || lists_path(
            p1,
            x,
        ) by {
            lemma_path_split(previous, x);
        }
        assert forall|x: Seq<char>| lists_path(current, x) <==> x == first || lists_path(
            c1,
            x,
        ) by {
            lemma_path_split(current, x);
        }
        if !same_binding(previous[0], current[0]) {
            assert forall|x: Seq<char>| #[trigger] delta.changed.contains(x) <==> x == first
                || rest.changed.contains(x) by {
                lemma_prepend_contains(first, rest.changed, x);
            }
        }
        assert(!lists_path(p1, first));
        assert(!rest.changed.contains(first));
        assert forall|c: int| 0 <= c < current.len() implies (delta.changed.contains(
            (#[trigger] current[c]).path@,
        ) <==> lists_path(previous, current[c].path@) && !binds_alike(previous, current[c])) by {
            lemma_alike_split(previous, current[c]);
            if c > 0 {
                assert(c1[c - 1] == current[c]);
                assert(lists_path(c1, current[c].path@));
                assert(current[c].path@ != first);
            }
        }
    }
}

proof fn lemma_drop_first_ascending(bounds: Seq<CachedUvBound>)
    requires
        bounds.len() > 0,
        ascending(bound_paths(bounds)),
    ensures
        ascending(bound_paths(bounds.drop_first())),
{
    let rest = bounds.drop_first();
    assert forall|i: int, j: int| 0 <= i < j < rest.len() implies text_lt(
        #[trigger] bound_paths(rest)[i],
        #[trigger] bound_paths(rest)[j],
    ) by {
        assert(text_lt(bound_paths(bounds)[i + 1], bound_paths(bounds)[j + 1]));
    }
}

proof fn lemma_first_below(bounds: Seq<CachedUvBound>)
    requires
        bounds.len() > 0,
        ascending(bound_paths(bounds)),
    ensures
        !lists_path(bounds.drop_first(), bounds[0].path@),
{
    let rest = bounds.drop_first();
    if lists_path(rest, bounds[0].path@) {
        let i = choose|i: int| 0 <= i < rest.len() && (#[trigger] rest[i]).path@ == bounds[0].path@;
        assert(text_lt(bound_paths(bounds)[0], bound_paths(bounds)[i + 1]));
    }
}

proof fn lemma_below_all(first: Seq<char>, bounds: Seq<CachedUvBound>)
    requires
        ascending(bound_paths(bounds)),
        bounds.len() > 0 ==> text_lt(first, bounds[0].path@),
    ensures
        !lists_path(bounds, first),
{
    if lists_path(bounds, first) {
        let i = choose|i: int| 0 <= i < bounds.len() && (#[trigger] bounds[i]).path@ == first;
        if i > 0 {
            assert(text_lt(bound_paths(bounds)[0], bound_paths(bounds)[i]));
            lemma_text_transitive(first, bounds[0].path@, bounds[i].path@);
        }
    }
}

proof fn lemma_path_split(bounds: Seq<CachedUvBound>, x: Seq<char>)
    requires
        bounds.len() > 0,
    ensures
        lists_path(bounds, x) <==> x == bounds[0].path@ || lists_path(bounds.drop_first(), x),
{
    let rest = bounds.drop_first();
    if lists_path(bounds, x) {
        let i = choose|i: int| 0 <= i < bounds.len() && (#[trigger] bounds[i]).path@ == x;
        if i > 0 {
            assert(rest[i - 1].path@ == x);
        }
    }
    if lists_path(rest, x) {
        let i = choose|i: int| 0 <= i < rest.len() && (#[trigger] rest[i]).path@ == x;
        assert(bounds[i + 1].path@ == x);
    }
}

proof fn lemma_alike_split(bounds: Seq<CachedUvBound>, entry: CachedUvBound)
    requires
        bounds.len() > 0,
    ensures
        binds_alike(bounds, entry) <==> (bounds[0].path@ == entry.path@ && same_binding(
            bounds[0],
            entry,
        )) || binds_alike(bounds.drop_first(), entry),
{
    let rest = bounds.drop_first();
    if binds_alike(bounds, entry) {
        let i = choose|i: int|
            0 <= i < bounds.len() && (#[trigger] bounds[i]).path@ == entry.path@ && same_binding(
                bounds[i],
                entry,
            );
        if i > 0 {
            assert(rest[i - 1].path@ == entry.path@);
        }
    }
    if binds_alike(rest, entry) {
        let i = choose|i: int|
            0 <= i < rest.len() && (#[trigger] rest[i]).path@ == entry.path@ && same_binding(
                rest[i],
                entry,
            );
        assert(bounds[i + 1].path@ == entry.path@);
    }
}

proof fn lemma_prepend_contains(first: Seq<char>, rest: Seq<Seq<char>>, x: Seq<char>)
    ensures
        (seq![first] + rest).contains(x) <==> x == first || rest.contains(x),
{
    let all = seq![first] + rest;
    if all.contains(x) {
        let i = choose|i: int| 0 <= i < all.len() && all[i] == x;
        if i > 0 {
            assert(rest[i - 1] == x);
        }
    }
    if rest.contains(x) {
        let i = choose|i: int| 0 <= i < rest.len() && rest[i] == x;
        assert(all[i + 1] == x);
    }
    if x == first {
        assert(all[0] == x);
    }
}

/// Comparing a relation with itself reports every key unchanged.
pub proof fn lemma_delta_of_same(bounds: Seq<CachedUvBound>)
    ensures
        delta_between(bounds, bounds) == (DeltaView { unchanged: bounds.len(), ..no_delta() }),
    decreases bounds.len(),
{
    if bounds.len() > 0 {
        lemma_text_order(bounds[0].path@, bounds[0].path@);
        lemma_delta_of_same(bounds.drop_first());
    }
}

// ---------------------------------------------------------------------------------------------
// Binding digest
// ---------------------------------------------------------------------------------------------

/// Bytes of one binding of a family.
pub open spec fn binding_bytes(
    family: u8,
    path: Seq<char>,
    binding: (usize, UvBound),
) -> Seq<u8> {
    seq![family] + framed(encode_utf8(path)) + low_bytes(binding.0 as nat, 8) + low_bytes(
        binding.1.min_x as nat,
        4,
    ) + low_bytes(binding.1.max_x as nat, 4) + low_bytes(binding.1.min_y as nat, 4) + low_bytes(
        binding.1.max_y as nat,
        4,
    )
}

/// Bytes of the bindings of a family, path after path.
pub open spec fn family_bytes(
    family: u8,
    map: Map<Seq<char>, (usize, UvBound)>,
    paths: Seq<Seq<char>>,
) -> Seq<u8>
    decreases paths.len(),
{
    if paths.len() == 0 {
        Seq::empty()
    } else {
        family_bytes(family, map, paths.drop_last()) + binding_bytes(
            family,
            paths.last(),
            map[paths.last()],
        )
    }
}

/// The canonical byte form of both families' bindings.
pub open spec fn bindings_bytes(
    opaque: Map<Seq<char>, (usize, UvBound)>,
    alpha: Map<Seq<char>, (usize, UvBound)>,
    opaque_paths: Seq<Seq<char>>,
    alpha_paths: Seq<Seq<char>>,
) -> Seq<u8> {
    encode_utf8("static_atlas_bindings_v1\n"@) + low_bytes(
        (opaque_paths.len() + alpha_paths.len()) % 0x1_0000_0000_0000_0000,
        8,
    ) + family_bytes(0, opaque, opaque_paths) + family_bytes(1, alpha, alpha_paths)
}

/// `digest` is the hash of the canonical byte form.
pub open spec fn digests_bindings(
    opaque: Map<Seq<char>, (usize, UvBound)>,
    alpha: Map<Seq<char>, (usize, UvBound)>,
    digest: Seq<u8>,
) -> bool {
    exists|opaque_paths: Seq<Seq<char>>, alpha_paths: Seq<Seq<char>>|
        {
            &&& #[trigger] lists_domain(opaque, opaque_paths)
            &&& #[trigger] lists_domain(alpha, alpha_paths)
            &&& digest == blake3_of(bindings_bytes(opaque, alpha, opaque_paths, alpha_paths))
        }
}

/// The digest depends on the bindings alone, not on the order in which they were stored.
pub proof fn lemma_binding_digest_determined(
    opaque: Map<Seq<char>, (usize, UvBound)>,
    alpha: Map<Seq<char>, (usize, UvBound)>,
    a: Seq<u8>,
    b: Seq<u8>,
)
    requires
        digests_bindings(opaque, alpha, a),
        digests_bindings(opaque, alpha, b),
    ensures
        a == b,
{
    let (oa, aa) = choose|opaque_paths: Seq<Seq<char>>, alpha_paths: Seq<Seq<char>>|
        {
            &&& #[trigger] lists_domain(opaque, opaque_paths)
            &&& #[trigger] lists_domain(alpha, alpha_paths)
            &&& a == blake3_of(bindings_bytes(opaque, alpha, opaque_paths, alpha_paths))
        };
    let (ob, ab) = choose|opaque_paths: Seq<Seq<char>>, alpha_paths: Seq<Seq<char>>|
        {
            &&& #[trigger] lists_domain(opaque, opaque_paths)
            &&& #[trigger] lists_domain(alpha, alpha_paths)
            &&& b == blake3_of(bindings_bytes(opaque, alpha, opaque_paths, alpha_paths))
        };
    lemma_domain_listing_unique(opaque, oa, ob);
    lemma_domain_listing_unique(alpha, aa, ab);
}

fn push_family(out: &mut Vec<u8>, family: u8, map: &FrameMap, keys: &[String])
    requires
        map.wf(),
        forall|i: int| 0 <= i < keys@.len() ==> map@.dom().contains((#[trigger] keys@[i])@),
    ensures
        final(out)@ == old(out)@ + family_bytes(family, map@, texts(keys@)),
{
    let mut i: usize = 0;
    let ghost paths = texts(keys@);
    assert(out@ =~= old(out)@ + family_bytes(family, map@, paths.take(0)));
    while i < keys.len()
        invariant
            i <= keys.len(),
            paths == texts(keys@),
            map.wf(),
            forall|k: int| 0 <= k < keys@.len() ==> map@.dom().contains((#[trigger] keys@[k])@),
            out@ == old(out)@ + family_bytes(family, map@, paths.take(i as int)),
        decreases keys.len() - i,
    {
        let key = &keys[i];
        assert(map@.dom().contains(keys@[i as int]@));
        let found = map.get(key.as_str());
        let (page, bound) = *found.unwrap();
        let ghost before = out@;
        out.push(family);
        push_framed(out, key.as_str().as_bytes());
        push_u64(out, page as u64);
        push_u32(out, bound.min_x);
        push_u32(out, bound.max_x);
        push_u32(out, bound.min_y);
        push_u32(out, bound.max_y);
        proof {
            assert(paths.take(i + 1).drop_last() =~= paths.take(i as int));
            assert(paths.take(i + 1).last() == key@);
            assert(out@ =~= before + binding_bytes(family, key@, (page, bound)));
            assert(out@ =~= old(out)@ + family_bytes(family, map@, paths.take(i + 1)));
        }
        i = i + 1;
    }
    assert(paths.take(i as int) =~= paths);
}

/// Canonically fingerprints the source-texture-to-atlas bindings consumed by UV lowering.
pub fn atlas_binding_digest(opaque_map: &FrameMap, alpha_map: &FrameMap) -> (digest: [u8; 32])
    requires
        opaque_map.wf(),
        alpha_map.wf(),
    ensures
        digests_bindings(opaque_map@, alpha_map@, digest@),
{
    let opaque_keys = opaque_map.sorted_keys();
    let alpha_keys = alpha_map.sorted_keys();
    let mut out: Vec<u8> = Vec::new();
    push_all(&mut out, "static_atlas_bindings_v1\n".as_bytes());
    let count: u64 = (opaque_keys.len() as u64).wrapping_add(alpha_keys.len() as u64);
    push_u64(&mut out, count);
    proof {
        assert forall|i: int| 0 <= i < opaque_keys@.len() implies opaque_map@.dom().contains(
            (#[trigger] opaque_keys@[i])@,
        ) by {
            assert(texts(opaque_keys@).contains(texts(opaque_keys@)[i]));
        }
        assert forall|i: int| 0 <= i < alpha_keys@.len() implies alpha_map@.dom().contains(
            (#[trigger] alpha_keys@[i])@,
        ) by {
            assert(texts(alpha_keys@).contains(texts(alpha_keys@)[i]));
        }
    }
    push_family(&mut out, 0, opaque_map, &opaque_keys);
    push_family(&mut out, 1, alpha_map, &alpha_keys);
    let digest = blake3_hash(&out);
    proof {
        assert(out@ =~= bindings_bytes(
            opaque_map@,
            alpha_map@,
            texts(opaque_keys@),
            texts(alpha_keys@),
        ));
    }
    digest
}

} // verus!
