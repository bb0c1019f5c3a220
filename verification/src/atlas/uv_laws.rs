//! Laws of bindings: a bound names the texels that its slot shows.

use crate::atlas::types::{CachedAtlasKeySlot, CachedAtlasPage, CachedAtlasSlot, UvBound};
use crate::atlas::uv::{
    binds_relation, binds_relations, is_last_relation, lemma_slot_position, relates_path,
    slot_position,
};
use vstd::prelude::*;

verus! {

/// `scaled` multiplies a fraction of `side` texels out again.
///
/// Single precision divides texel counts by a power of two without loss, so on such pages the
/// product of the fraction and the side is what was divided.
pub open spec fn undoes<F: Fn(u32, u32) -> u32>(
    ratio: F,
    scaled: spec_fn(u32, u32) -> int,
    side: u32,
) -> bool {
    forall|n: u32, q: u32| n <= side && #[trigger] call_ensures(ratio, (n, side), q) ==> scaled(
        q,
        side,
    ) == n
}

/// Slot `s` is the one that relation `k` stands for: it has the identity, no later slot has it, and
/// no later relation has the path.
pub open spec fn stands_for_key(
    slots: Seq<CachedAtlasSlot>,
    key_slots: Seq<CachedAtlasKeySlot>,
    k: int,
    s: int,
) -> bool {
    &&& 0 <= k < key_slots.len()
    &&& 0 <= s < slots.len()
    &&& slots[s].slot_id == key_slots[k].slot_id
    &&& forall|t: int| s < t < slots.len() ==> (#[trigger] slots[t]).slot_id != slots[s].slot_id
    &&& forall|j: int|
        k < j < key_slots.len() ==> (#[trigger] key_slots[j]).path@ != key_slots[k].path@
}

/// The destination of the slot lies on the page.
pub open spec fn destination_on(slot: CachedAtlasSlot, page: CachedAtlasPage) -> bool {
    &&& slot.destination.x + slot.destination.width <= page.width
    &&& slot.destination.y + slot.destination.height <= page.height
}

/// A texture is bound to the page of its slot, and its bound, multiplied by the sides of that page,
/// gives back the columns and rows of the slot's destination.
pub proof fn lemma_bound_gives_back_texels<F: Fn(u32, u32) -> u32>(
    ratio: F,
    scaled: spec_fn(u32, u32) -> int,
    pages: Seq<CachedAtlasPage>,
    slots: Seq<CachedAtlasSlot>,
    key_slots: Seq<CachedAtlasKeySlot>,
    map: Map<Seq<char>, (usize, UvBound)>,
    k: int,
    s: int,
)
    requires
        binds_relations(ratio, pages, slots, key_slots, map),
        stands_for_key(slots, key_slots, k, s),
        destination_on(slots[s], pages[slots[s].page_id as int]),
        undoes(ratio, scaled, pages[slots[s].page_id as int].width),
        undoes(ratio, scaled, pages[slots[s].page_id as int].height),
    ensures
        slots[s].page_id < pages.len(),
        map.dom().contains(key_slots[k].path@),
        ({
            let (page_id, bound) = map[key_slots[k].path@];
            let page = pages[slots[s].page_id as int];
            let d = slots[s].destination;
            &&& page_id == slots[s].page_id
            &&& scaled(bound.min_x, page.width) == d.x
            &&& scaled(bound.max_x, page.width) == d.x + d.width
            &&& scaled(bound.min_y, page.height) == d.y
            &&& scaled(bound.max_y, page.height) == d.y + d.height
        }),
{
    let relation = key_slots[k];
    assert(is_last_relation(key_slots, k));
    assert(relates_path(key_slots, relation.path@));
    lemma_slot_position(slots, relation.slot_id);
    let t = slot_position(slots, relation.slot_id)->0;
    assert(slot_position(slots, relation.slot_id) is Some);
    if s < t {
        assert(slots[t].slot_id != slots[s].slot_id);
    }
    if t < s {
        assert(slots[s].slot_id != relation.slot_id);
    }
    assert(binds_relation(ratio, pages, slots, relation, map[relation.path@]));
}

/// Exactly the textures that a relation names are bound.
pub proof fn lemma_bound_textures<F: Fn(u32, u32) -> u32>(
    ratio: F,
    pages: Seq<CachedAtlasPage>,
    slots: Seq<CachedAtlasSlot>,
    key_slots: Seq<CachedAtlasKeySlot>,
    map: Map<Seq<char>, (usize, UvBound)>,
    path: Seq<char>,
)
    requires
        binds_relations(ratio, pages, slots, key_slots, map),
    ensures
        map.dom().contains(path) <==> exists|k: int|
            0 <= k < key_slots.len() && (#[trigger] key_slots[k]).path@ == path,
{
    assert(map.dom().contains(path) <==> relates_path(key_slots, path));
}

/// A texture whose slot fills its page from the first to the last row or column is bound to the
/// whole of it: its bound runs from the fraction of nothing to the fraction of everything.
pub proof fn lemma_full_page_bound<F: Fn(u32, u32) -> u32>(
    ratio: F,
    pages: Seq<CachedAtlasPage>,
    slots: Seq<CachedAtlasSlot>,
    key_slots: Seq<CachedAtlasKeySlot>,
    map: Map<Seq<char>, (usize, UvBound)>,
    k: int,
    s: int,
    zero: u32,
    one: u32,
)
    requires
        binds_relations(ratio, pages, slots, key_slots, map),
        stands_for_key(slots, key_slots, k, s),
        forall|side: u32, q: u32| #[trigger] call_ensures(ratio, (0, side), q) ==> q == zero,
        forall|side: u32, q: u32| #[trigger] call_ensures(ratio, (side, side), q) ==> q == one,
    ensures
        ({
            let bound = map[key_slots[k].path@].1;
            let page = pages[slots[s].page_id as int];
            let d = slots[s].destination;
            &&& d.x == 0 && d.width == page.width ==> bound.min_x == zero && bound.max_x == one
            &&& d.y == 0 && d.height == page.height ==> bound.min_y == zero && bound.max_y == one
        }),
{
    let relation = key_slots[k];
    assert(is_last_relation(key_slots, k));
    lemma_slot_position(slots, relation.slot_id);
    let t = slot_position(slots, relation.slot_id)->0;
    if s < t {
        assert(slots[t].slot_id != slots[s].slot_id);
    }
    if t < s {
        assert(slots[s].slot_id != relation.slot_id);
    }
    assert(binds_relation(ratio, pages, slots, relation, map[relation.path@]));
}

/// Textures on one page whose destinations share no texel have bounds that share no point, whatever
/// the shape of the page.
pub proof fn lemma_bounds_apart<F: Fn(u32, u32) -> u32>(
    ratio: F,
    scaled: spec_fn(u32, u32) -> int,
    pages: Seq<CachedAtlasPage>,
    slots: Seq<CachedAtlasSlot>,
    key_slots: Seq<CachedAtlasKeySlot>,
    map: Map<Seq<char>, (usize, UvBound)>,
    k: int,
    s: int,
    l: int,
    t: int,
)
    requires
        binds_relations(ratio, pages, slots, key_slots, map),
        stands_for_key(slots, key_slots, k, s),
        stands_for_key(slots, key_slots, l, t),
        slots[s].page_id == slots[t].page_id,
        destination_on(slots[s], pages[slots[s].page_id as int]),
        destination_on(slots[t], pages[slots[s].page_id as int]),
        undoes(ratio, scaled, pages[slots[s].page_id as int].width),
        undoes(ratio, scaled, pages[slots[s].page_id as int].height),
        forall|px: int, py: int| !(#[trigger] slots[s].destination.covers(px, py)
            && slots[t].destination.covers(px, py)),
        slots[s].destination.width > 0 && slots[s].destination.height > 0,
        slots[t].destination.width > 0 && slots[t].destination.height > 0,
    ensures
        ({
            let a = map[key_slots[k].path@].1;
            let b = map[key_slots[l].path@].1;
            let page = pages[slots[s].page_id as int];
            ||| scaled(a.max_x, page.width) <= scaled(b.min_x, page.width)
            ||| scaled(b.max_x, page.width) <= scaled(a.min_x, page.width)
            ||| scaled(a.max_y, page.height) <= scaled(b.min_y, page.height)
            ||| scaled(b.max_y, page.height) <= scaled(a.min_y, page.height)
        }),
{
    lemma_bound_gives_back_texels(ratio, scaled, pages, slots, key_slots, map, k, s);
    lemma_bound_gives_back_texels(ratio, scaled, pages, slots, key_slots, map, l, t);
    let a = slots[s].destination;
    let b = slots[t].destination;
    let px = if a.x >= b.x { a.x as int } else { b.x as int };
    let py = if a.y >= b.y { a.y as int } else { b.y as int };
    assert(!(a.covers(px, py) && b.covers(px, py)));
}

} // verus!
