//! Validation of cached family evidence.

use crate::atlas::packer::is_power_of_two;
use crate::atlas::placement::{relates, relation_paths};
use crate::atlas::group::lists_text;
use crate::atlas::reconcile::{page_used, uses_page};
use crate::atlas::rect::{contains, intersects, CachedAtlasRect};
use crate::atlas::sizing::{AtlasDomain, SizingPlan};
use crate::atlas::slot::{content_offset, reservation_extra};
use crate::atlas::types::{
    digest_eq, shared_config_of, AtlasCache, AtlasFamilyConfig, AtlasSharedConfig, AtlasTextureSet,
    CachedAtlasFamily, CachedAtlasKeySlot, CachedAtlasPage, CachedAtlasSlot,
    CachedTextureFingerprint, CachedUvBound, TextureDedupeMode, TextureFingerprint, UvBound,
    ATLAS_CACHE_VERSION,
};
use crate::atlas::uv::{
    bindings_from_relations, binds_relation, binds_relations, bound_of, bound_paths,
    destinations_fit, is_last_relation, lemma_slot_position, relates_path, relation_resolves,
    slot_index, slot_position,
};
use crate::atlas::write::{
    atlas_page_relative_path, classify_atlas_page_path, is_page_path, page_path,
};
use crate::id_index::{id_entries, id_index_get};
use crate::text::{ascending, lemma_text_transitive, str_eq, str_lt, text_lt};
use crate::text_map::TextMap;
use vstd::arithmetic::power2::pow2;
use vstd::prelude::*;

verus! {

// ---------------------------------------------------------------------------------------------
// Source fingerprints
// ---------------------------------------------------------------------------------------------

/// Entry `i` records the fingerprint of texture `i`.
pub open spec fn records_fingerprints(
    textures: Seq<String>,
    fingerprints: Seq<(u64, [u8; 32])>,
    entries: Seq<CachedTextureFingerprint>,
) -> bool {
    &&& entries.len() == if textures.len() < fingerprints.len() {
        textures.len()
    } else {
        fingerprints.len()
    }
    &&& forall|i: int|
        0 <= i < entries.len() ==> {
            &&& (#[trigger] entries[i]).path == textures[i]
            &&& entries[i].fingerprint.size == fingerprints[i].0
            &&& entries[i].fingerprint.hash == fingerprints[i].1
        }
}

/// Pairs the textures with their fingerprints.
pub fn build_fingerprint_entries(textures: &[String], fingerprints: &[(u64, [u8; 32])]) -> (r: Vec<
    CachedTextureFingerprint,
>)
    ensures
        records_fingerprints(textures@, fingerprints@, r@),
{
    let mut entries: Vec<CachedTextureFingerprint> = Vec::new();
    let mut i: usize = 0;
    while i < textures.len() && i < fingerprints.len()
        invariant
            i <= textures@.len(),
            i <= fingerprints@.len(),
            entries@.len() == i,
            forall|k: int|
                0 <= k < i ==> {
                    &&& (#[trigger] entries@[k]).path == textures@[k]
                    &&& entries@[k].fingerprint.size == fingerprints@[k].0
                    &&& entries@[k].fingerprint.hash == fingerprints@[k].1
                },
        decreases textures@.len() - i,
    {
        let (size, hash) = fingerprints[i];
        entries.push(
            CachedTextureFingerprint {
                path: textures[i].clone(),
                fingerprint: TextureFingerprint { size, hash },
            },
        );
        i = i + 1;
    }
    entries
}

/// The entry records the texture with the fingerprint.
pub open spec fn same_fingerprint(
    texture: String,
    fingerprint: (u64, [u8; 32]),
    entry: CachedTextureFingerprint,
) -> bool {
    &&& entry.path@ == texture@
    &&& entry.fingerprint.size == fingerprint.0
    &&& entry.fingerprint.hash@ == fingerprint.1@
}

/// Whether the cached fingerprints are those of the textures, in order.
///
/// Textures without a fingerprint in hand are not compared.
pub fn fingerprints_match(
    textures: &[String],
    fingerprints: &[(u64, [u8; 32])],
    cached: &[CachedTextureFingerprint],
) -> (r: bool)
    ensures
        r == (textures@.len() == cached@.len() && forall|i: int|
            0 <= i < textures@.len() && i < fingerprints@.len() ==> same_fingerprint(
                #[trigger] textures@[i],
                fingerprints@[i],
                cached@[i],
            )),
{
    if textures.len() != cached.len() {
        return false;
    }
    let mut i: usize = 0;
    while i < textures.len() && i < fingerprints.len()
        invariant
            i <= textures@.len(),
            i <= fingerprints@.len(),
            textures@.len() == cached@.len(),
            forall|k: int|
                0 <= k < i ==> same_fingerprint(
                    #[trigger] textures@[k],
                    fingerprints@[k],
                    cached@[k],
                ),
        decreases textures@.len() - i,
    {
        let (size, hash) = fingerprints[i];
        let entry = &cached[i];
        if !(str_eq(entry.path.as_str(), textures[i].as_str()) && entry.fingerprint.size == size
            && digest_eq(&entry.fingerprint.hash, &hash)) {
            assert(!same_fingerprint(textures@[i as int], fingerprints@[i as int], cached@[i as int]));
            return false;
        }
        i = i + 1;
    }
    true
}

// ---------------------------------------------------------------------------------------------
// Family structure
// ---------------------------------------------------------------------------------------------

/// Keys of the sizing deviations.
pub open spec fn override_keys(config: AtlasFamilyConfig) -> Seq<Seq<char>> {
    config.sizing_overrides@.map_values(|entry: (String, u32)| entry.0@)
}

/// Sizing deviations are listed by ascending key and lie below the shared cap.
pub open spec fn config_valid(config: AtlasFamilyConfig, shared: AtlasSharedConfig) -> bool {
    &&& ascending(override_keys(config))
    &&& forall|i: int|
        0 <= i < config.sizing_overrides@.len() ==> 0 < (#[trigger] config.sizing_overrides@[i]).1
            <= shared.max_texture_long_dim
}

/// Paths of the fingerprint entries in order.
pub open spec fn fingerprint_paths(entries: Seq<CachedTextureFingerprint>) -> Seq<Seq<char>> {
    entries.map_values(|entry: CachedTextureFingerprint| entry.path@)
}

/// The three logical relations cover the same ascending paths.
pub open spec fn coverage_valid(family: CachedAtlasFamily) -> bool {
    &&& ascending(fingerprint_paths(family.texture_fingerprints@))
    &&& relation_paths(family.key_slots@) == fingerprint_paths(family.texture_fingerprints@)
    &&& bound_paths(family.bindings@) == fingerprint_paths(family.texture_fingerprints@)
}

/// Without slots there are no keys and no pages, and the last page is in use.
pub open spec fn usage_valid(family: CachedAtlasFamily) -> bool {
    &&& family.slots@.len() == 0 ==> family.key_slots@.len() == 0 && family.bindings@.len() == 0
        && family.pages@.len() == 0
    &&& family.pages@.len() > 0 ==> page_used(family.slots@, family.pages@.len() - 1)
}

/// Page sides are powers of two within the cap and leave an interior.
pub open spec fn page_valid(page: CachedAtlasPage, shared: AtlasSharedConfig) -> bool {
    &&& 0 < page.width <= shared.gpu_max
    &&& 0 < page.height <= shared.gpu_max
    &&& is_power_of_two(page.width)
    &&& is_power_of_two(page.height)
    &&& 2 * shared.border_padding < page.width
    &&& 2 * shared.border_padding < page.height
}

/// The interior of a page that leaves one.
pub open spec fn page_interior(page: CachedAtlasPage, shared: AtlasSharedConfig) -> CachedAtlasRect {
    CachedAtlasRect {
        x: shared.border_padding,
        y: shared.border_padding,
        width: (page.width - 2 * shared.border_padding) as u32,
        height: (page.height - 2 * shared.border_padding) as u32,
    }
}

/// The content lies in its reservation at the right place, and comes from within its source.
pub open spec fn slot_geometry_valid(
    slot: CachedAtlasSlot,
    usable: CachedAtlasRect,
    shared: AtlasSharedConfig,
) -> bool {
    let reserved = slot.reserved_rect;
    let destination = slot.destination;
    let source = slot.source;
    &&& !slot.rotated
    &&& reserved.positive() && usable.encloses(reserved)
    &&& destination.positive() && reserved.encloses(destination)
    &&& source.positive() && source.right_edge() <= slot.source_size@[0] && source.bottom_edge()
        <= slot.source_size@[1]
    &&& destination.width == source.width
    &&& destination.height == source.height
    &&& destination.x == reserved.x + content_offset(shared)
    &&& destination.y == reserved.y + content_offset(shared)
    &&& destination.width + reservation_extra(shared) <= reserved.width
    &&& destination.height + reservation_extra(shared) <= reserved.height
}

/// The slot lies on a page and is placed validly there.
pub open spec fn slot_valid(
    slot: CachedAtlasSlot,
    pages: Seq<CachedAtlasPage>,
    shared: AtlasSharedConfig,
) -> bool {
    &&& slot.page_id < pages.len()
    &&& slot_geometry_valid(slot, page_interior(pages[slot.page_id as int], shared), shared)
}

/// Slot identities ascend, and the next one is above them all.
pub open spec fn ids_valid(slots: Seq<CachedAtlasSlot>, next_slot_id: u64) -> bool {
    &&& forall|i: int, j: int|
        0 <= i < j < slots.len() ==> (#[trigger] slots[i]).slot_id < (#[trigger] slots[j]).slot_id
    &&& slots.len() > 0 ==> slots.last().slot_id < next_slot_id
}

/// Some slot has the identity.
pub open spec fn has_slot(slots: Seq<CachedAtlasSlot>, id: u64) -> bool {
    exists|s: int| 0 <= s < slots.len() && (#[trigger] slots[s]).slot_id == id
}

/// Every key is in an existing slot, and every slot holds its own provider.
pub open spec fn relations_valid(
    slots: Seq<CachedAtlasSlot>,
    key_slots: Seq<CachedAtlasKeySlot>,
) -> bool {
    &&& forall|k: int|
        0 <= k < key_slots.len() ==> has_slot(slots, (#[trigger] key_slots[k]).slot_id)
    &&& forall|s: int|
        0 <= s < slots.len() ==> relates(
            key_slots,
            (#[trigger] slots[s]).provider_key@,
            slots[s].slot_id,
        )
}

/// Reservations on the same page share no texel.
pub open spec fn reservations_apart(slots: Seq<CachedAtlasSlot>) -> bool {
    forall|i: int, j: int|
        0 <= i < j < slots.len() && (#[trigger] slots[i]).page_id == (
        #[trigger] slots[j]).page_id ==> slots[i].reserved_rect.apart(slots[j].reserved_rect)
}

/// Everything about the evidence but the values of its bindings.
pub open spec fn structure_valid(family: CachedAtlasFamily, shared: AtlasSharedConfig) -> bool {
    &&& config_valid(family.family_config, shared)
    &&& coverage_valid(family)
    &&& usage_valid(family)
    &&& forall|p: int|
        0 <= p < family.pages@.len() ==> page_valid(#[trigger] family.pages@[p], shared)
    &&& forall|s: int|
        0 <= s < family.slots@.len() ==> slot_valid(
            #[trigger] family.slots@[s],
            family.pages@,
            shared,
        )
    &&& ids_valid(family.slots@, family.next_slot_id)
    &&& relations_valid(family.slots@, family.key_slots@)
    &&& reservations_apart(family.slots@)
}

/// Every cached binding repeats the expected one, bit for bit.
pub open spec fn bindings_match(
    expected: Map<Seq<char>, (usize, UvBound)>,
    bindings: Seq<CachedUvBound>,
) -> bool {
    forall|i: int|
        0 <= i < bindings.len() ==> {
            &&& expected.dom().contains((#[trigger] bindings[i]).path@)
            &&& bindings[i].page == expected[bindings[i].path@].0
            &&& bound_of(bindings[i]) == expected[bindings[i].path@].1
        }
}

/// `expected` is what the slots give, and the cached bindings repeat it.
pub open spec fn bindings_confirmed<F: Fn(u32, u32) -> u32>(
    ratio: F,
    family: CachedAtlasFamily,
    expected: Map<Seq<char>, (usize, UvBound)>,
) -> bool {
    &&& binds_relations(ratio, family.pages@, family.slots@, family.key_slots@, expected)
    &&& bindings_match(expected, family.bindings@)
}

/// `expected` is what the slots give, and the cached bindings do not repeat it.
pub open spec fn bindings_refuted<F: Fn(u32, u32) -> u32>(
    ratio: F,
    family: CachedAtlasFamily,
    expected: Map<Seq<char>, (usize, UvBound)>,
) -> bool {
    &&& binds_relations(ratio, family.pages@, family.slots@, family.key_slots@, expected)
    &&& !bindings_match(expected, family.bindings@)
}

/// The evidence holds together.
pub open spec fn family_valid<F: Fn(u32, u32) -> u32>(
    ratio: F,
    family: CachedAtlasFamily,
    shared: AtlasSharedConfig,
) -> bool {
    &&& structure_valid(family, shared)
    &&& exists|expected: Map<Seq<char>, (usize, UvBound)>| #[trigger]
        bindings_confirmed(ratio, family, expected)
}

/// The evidence does not hold together.
pub open spec fn family_refuted<F: Fn(u32, u32) -> u32>(
    ratio: F,
    family: CachedAtlasFamily,
    shared: AtlasSharedConfig,
) -> bool {
    ||| !structure_valid(family, shared)
    ||| exists|expected: Map<Seq<char>, (usize, UvBound)>| #[trigger]
        bindings_refuted(ratio, family, expected)
}

fn config_is_valid(config: &AtlasFamilyConfig, shared: &AtlasSharedConfig) -> (r: bool)
    ensures
        r == config_valid(*config, *shared),
{
    let list = &config.sizing_overrides;
    let mut i: usize = 0;
    while i < list.len()
        invariant
            *list == config.sizing_overrides,
            i <= list@.len(),
            forall|a: int, b: int|
                0 <= a < b < i ==> text_lt((#[trigger] list@[a]).0@, (#[trigger] list@[b]).0@),
            forall|a: int|
                0 <= a < i ==> 0 < (#[trigger] list@[a]).1 <= shared.max_texture_long_dim,
        decreases list@.len() - i,
    {
        let dimension: u32 = list[i].1;
        if dimension == 0 || dimension > shared.max_texture_long_dim {
            assert(list@[i as int].1 == dimension);
            return false;
        }
        if i > 0 && !str_lt(list[i - 1].0.as_str(), list[i].0.as_str()) {
            proof {
                assert(!text_lt(
                    override_keys(*config)[i - 1],
                    override_keys(*config)[i as int],
                ));
            }
            return false;
        }
        proof {
            assert forall|a: int| 0 <= a < i implies text_lt(
                (#[trigger] list@[a]).0@,
                list@[i as int].0@,
            ) by {
                if a < i - 1 {
                    assert(text_lt(list@[a].0@, list@[i - 1].0@));
                    lemma_text_transitive(list@[a].0@, list@[i - 1].0@, list@[i as int].0@);
                }
            }
        }
        i = i + 1;
    }
    proof {
        assert forall|a: int, b: int| 0 <= a < b < override_keys(*config).len() implies text_lt(
            #[trigger] override_keys(*config)[a],
            #[trigger] override_keys(*config)[b],
        ) by {
            assert(text_lt(list@[a].0@, list@[b].0@));
        }
    }
    true
}

fn coverage_is_valid(family: &CachedAtlasFamily) -> (r: bool)
    ensures
        r == coverage_valid(*family),
{
    let ghost paths = fingerprint_paths(family.texture_fingerprints@);
    if family.key_slots.len() != family.texture_fingerprints.len() || family.bindings.len()
        != family.texture_fingerprints.len() {
        proof {
            assert(relation_paths(family.key_slots@).len() == family.key_slots@.len());
            assert(bound_paths(family.bindings@).len() == family.bindings@.len());
        }
        return false;
    }
    let mut i: usize = 0;
    while i < family.texture_fingerprints.len()
        invariant
            paths == fingerprint_paths(family.texture_fingerprints@),
            family.key_slots@.len() == family.texture_fingerprints@.len(),
            family.bindings@.len() == family.texture_fingerprints@.len(),
            i <= paths.len(),
            forall|a: int, b: int|
                0 <= a < b < i ==> text_lt(#[trigger] paths[a], #[trigger] paths[b]),
            forall|a: int| 0 <= a < i ==> (#[trigger] family.key_slots@[a]).path@ == paths[a],
            forall|a: int| 0 <= a < i ==> (#[trigger] family.bindings@[a]).path@ == paths[a],
        decreases paths.len() - i,
    {
        let path = family.texture_fingerprints[i].path.as_str();
        if !str_eq(family.key_slots[i].path.as_str(), path) {
            assert(relation_paths(family.key_slots@)[i as int] != paths[i as int]);
            return false;
        }
        if !str_eq(family.bindings[i].path.as_str(), path) {
            assert(bound_paths(family.bindings@)[i as int] != paths[i as int]);
            return false;
        }
        if i > 0 && !str_lt(family.texture_fingerprints[i - 1].path.as_str(), path) {
            assert(!text_lt(paths[i - 1], paths[i as int]));
            return false;
        }
        proof {
            assert forall|a: int| 0 <= a < i implies text_lt(
                #[trigger] paths[a],
                paths[i as int],
            ) by {
                if a < i - 1 {
                    assert(text_lt(paths[a], paths[i - 1]));
                    lemma_text_transitive(paths[a], paths[i - 1], paths[i as int]);
                }
            }
        }
        i = i + 1;
    }
    proof {
        assert(relation_paths(family.key_slots@) =~= paths);
        assert(bound_paths(family.bindings@) =~= paths);
    }
    true
}

fn usage_is_valid(family: &CachedAtlasFamily) -> (r: bool)
    ensures
        r == usage_valid(*family),
{
    if family.slots.len() == 0 && (family.key_slots.len() != 0 || family.bindings.len() != 0) {
        return false;
    }
    if family.slots.len() == 0 && family.pages.len() != 0 {
        return false;
    }
    family.pages.len() == 0 || uses_page(&family.slots, family.pages.len() - 1)
}

/// Whether the value is a power of two.
fn power_of_two(value: u32) -> (r: bool)
    ensures
        r == is_power_of_two(value),
{
    let mut power: u64 = 1;
    let ghost mut k: nat = 0;
    proof {
        vstd::arithmetic::power2::lemma2_to64();
    }
    while power < value as u64
        invariant
            power == pow2(k),
            power > 0,
            k > 0 ==> pow2((k - 1) as nat) < value,
            power < 2 * value || k == 0,
        decreases 2 * value - power,
    {
        proof {
            vstd::arithmetic::power2::lemma_pow2_unfold(k + 1);
            k = k + 1;
        }
        power = power * 2;
    }
    proof {
        if is_power_of_two(value) {
            let m = choose|m: nat| value == #[trigger] pow2(m);
            if m < k {
                if m < k - 1 {
                    vstd::arithmetic::power2::lemma_pow2_strictly_increases(m, (k - 1) as nat);
                }
            } else if m > k {
                vstd::arithmetic::power2::lemma_pow2_strictly_increases(k, m);
            }
        }
        if power == value {
            assert(value == pow2(k));
        }
    }
    power == value as u64
}

fn page_is_valid(page: &CachedAtlasPage, shared: &AtlasSharedConfig) -> (r: bool)
    ensures
        r == page_valid(*page, *shared),
{
    if page.width == 0 || page.height == 0 || page.width > shared.gpu_max || page.height
        > shared.gpu_max || !power_of_two(page.width) || !power_of_two(page.height) {
        return false;
    }
    match shared.border_padding.checked_mul(2) {
        Some(twice) => twice < page.width && twice < page.height,
        None => false,
    }
}

/// Whether a non-empty rectangle lies within another one.
fn rect_within_rect(inner: &CachedAtlasRect, outer: &CachedAtlasRect) -> (r: bool)
    ensures
        r == (inner.positive() && outer.fits() && inner.fits() && outer.encloses(*inner)),
{
    inner.width > 0 && inner.height > 0 && contains(outer, inner)
}

/// Whether a non-empty rectangle lies within an image of the given size.
fn rect_within(rect: &CachedAtlasRect, width: u32, height: u32) -> (r: bool)
    ensures
        r == (rect.positive() && rect.right_edge() <= width && rect.bottom_edge() <= height),
{
    if rect.width == 0 || rect.height == 0 {
        return false;
    }
    match (rect.x.checked_add(rect.width), rect.y.checked_add(rect.height)) {
        (Some(right), Some(bottom)) => right <= width && bottom <= height,
        _ => false,
    }
}

fn slot_is_valid(slot: &CachedAtlasSlot, pages: &[CachedAtlasPage], shared: &AtlasSharedConfig) -> (r:
    bool)
    requires
        forall|p: int| 0 <= p < pages@.len() ==> page_valid(#[trigger] pages@[p], *shared),
    ensures
        r == slot_valid(*slot, pages@, *shared),
{
    let page_id: usize = slot.page_id as usize;
    if page_id >= pages.len() {
        return false;
    }
    let page = pages[page_id];
    assert(page_valid(pages@[page_id as int], *shared));
    let usable = CachedAtlasRect {
        x: shared.border_padding,
        y: shared.border_padding,
        width: page.width - shared.border_padding * 2,
        height: page.height - shared.border_padding * 2,
    };
    assert(usable == page_interior(page, *shared));
    let size: [u32; 2] = slot.source_size;
    if slot.rotated || !rect_within_rect(&slot.reserved_rect, &usable) || !rect_within_rect(
        &slot.destination,
        &slot.reserved_rect,
    ) || !rect_within(&slot.source, size[0], size[1]) || slot.destination.width
        != slot.source.width || slot.destination.height != slot.source.height {
        return false;
    }
    let offset: u32 = match shared.texture_extrusion.checked_add(shared.texture_padding / 2) {
        Some(offset) => offset,
        None => {
            return false;
        },
    };
    let left: u32 = match slot.reserved_rect.x.checked_add(offset) {
        Some(left) => left,
        None => {
            return false;
        },
    };
    let top: u32 = match slot.reserved_rect.y.checked_add(offset) {
        Some(top) => top,
        None => {
            return false;
        },
    };
    if slot.destination.x != left || slot.destination.y != top {
        return false;
    }
    match crate::atlas::slot::reservation_dimensions(
        slot.destination.width,
        slot.destination.height,
        shared,
    ) {
        Ok((width, height)) => width <= slot.reserved_rect.width && height
            <= slot.reserved_rect.height,
        Err(_) => false,
    }
}

fn ids_are_valid(slots: &[CachedAtlasSlot], next_slot_id: u64) -> (r: bool)
    ensures
        r == ids_valid(slots@, next_slot_id),
{
    let mut i: usize = 0;
    while i < slots.len()
        invariant
            i <= slots@.len(),
            forall|a: int, b: int|
                0 <= a < b < i ==> (#[trigger] slots@[a]).slot_id < (#[trigger] slots@[b]).slot_id,
        decreases slots@.len() - i,
    {
        if i > 0 && slots[i - 1].slot_id >= slots[i].slot_id {
            assert(slots@[i - 1].slot_id >= slots@[i as int].slot_id);
            return false;
        }
        proof {
            assert forall|a: int| 0 <= a < i implies (#[trigger] slots@[a]).slot_id
                < slots@[i as int].slot_id by {
                if a < i - 1 {
                    assert(slots@[a].slot_id < slots@[i - 1].slot_id);
                }
            }
        }
        i = i + 1;
    }
    slots.len() == 0 || slots[slots.len() - 1].slot_id < next_slot_id
}

fn relations_are_valid(slots: &[CachedAtlasSlot], key_slots: &[CachedAtlasKeySlot]) -> (r: bool)
    requires
        ascending(relation_paths(key_slots@)),
    ensures
        r == relations_valid(slots@, key_slots@),
{
    let index = slot_index(slots);
    let mut by_path: TextMap<u64> = TextMap::new();
    let mut k: usize = 0;
    while k < key_slots.len()
        invariant
            k <= key_slots@.len(),
            ascending(relation_paths(key_slots@)),
            forall|id: u64| #[trigger]
                id_entries(index).dom().contains(id) <==> slot_position(slots@, id) is Some,
            forall|j: int| 0 <= j < k ==> has_slot(slots@, (#[trigger] key_slots@[j]).slot_id),
            by_path.wf(),
            forall|path: Seq<char>| #[trigger]
                by_path@.dom().contains(path) ==> relates(key_slots@, path, by_path@[path]),
            forall|j: int|
                0 <= j < k ==> by_path@.dom().contains((#[trigger] key_slots@[j]).path@)
                    && by_path@[key_slots@[j].path@] == key_slots@[j].slot_id,
        decreases key_slots@.len() - k,
    {
        let relation = &key_slots[k];
        proof {
            lemma_slot_position(slots@, relation.slot_id);
        }
        if id_index_get(&index, relation.slot_id).is_none() {
            assert(!has_slot(slots@, key_slots@[k as int].slot_id));
            return false;
        }
        proof {
            let s = slot_position(slots@, relation.slot_id)->0;
            assert(slots@[s].slot_id == relation.slot_id);
            assert(relates(key_slots@, relation.path@, relation.slot_id)) by {
                assert(key_slots@[k as int].path@ == relation.path@);
            }
            assert forall|j: int| 0 <= j < k implies (#[trigger] key_slots@[j]).path@
                != relation.path@ by {
                assert(text_lt(
                    relation_paths(key_slots@)[j],
                    relation_paths(key_slots@)[k as int],
                ));
            }
        }
        by_path.insert(relation.path.clone(), relation.slot_id);
        k = k + 1;
    }
    let mut s: usize = 0;
    while s < slots.len()
        invariant
            s <= slots@.len(),
            ascending(relation_paths(key_slots@)),
            by_path.wf(),
            forall|path: Seq<char>| #[trigger]
                by_path@.dom().contains(path) ==> relates(key_slots@, path, by_path@[path]),
            forall|j: int|
                0 <= j < key_slots@.len() ==> by_path@.dom().contains(
                    (#[trigger] key_slots@[j]).path@,
                ) && by_path@[key_slots@[j].path@] == key_slots@[j].slot_id,
            forall|t: int|
                0 <= t < s ==> relates(
                    key_slots@,
                    (#[trigger] slots@[t]).provider_key@,
                    slots@[t].slot_id,
                ),
        decreases slots@.len() - s,
    {
        let slot = &slots[s];
        let holds = match by_path.get(slot.provider_key.as_str()) {
            Some(id) => *id == slot.slot_id,
            None => false,
        };
        if !holds {
            proof {
                if relates(key_slots@, slot.provider_key@, slot.slot_id) {
                    let j = choose|j: int|
                        0 <= j < key_slots@.len() && (#[trigger] key_slots@[j]).path@
                            == slot.provider_key@ && key_slots@[j].slot_id == slot.slot_id;
                    assert(by_path@.dom().contains(key_slots@[j].path@));
                }
                assert(!relates(
                    key_slots@,
                    slots@[s as int].provider_key@,
                    slots@[s as int].slot_id,
                ));
            }
            return false;
        }
        s = s + 1;
    }
    true
}

fn reservations_are_apart(slots: &[CachedAtlasSlot]) -> (r: bool)
    requires
        forall|s: int| 0 <= s < slots@.len() ==> (#[trigger] slots@[s]).reserved_rect.fits(),
    ensures
        r == reservations_apart(slots@),
{
    let mut i: usize = 0;
    while i < slots.len()
        invariant
            i <= slots@.len(),
            forall|s: int| 0 <= s < slots@.len() ==> (#[trigger] slots@[s]).reserved_rect.fits(),
            forall|a: int, b: int|
                0 <= a < i && a < b < slots@.len() && (#[trigger] slots@[a]).page_id == (
                #[trigger] slots@[b]).page_id ==> slots@[a].reserved_rect.apart(
                    slots@[b].reserved_rect,
                ),
        decreases slots@.len() - i,
    {
        let mut j: usize = i + 1;
        while j < slots.len()
            invariant
                i < j <= slots@.len(),
                forall|s: int|
                    0 <= s < slots@.len() ==> (#[trigger] slots@[s]).reserved_rect.fits(),
                forall|b: int|
                    i < b < j && slots@[i as int].page_id == (#[trigger] slots@[b]).page_id
                        ==> slots@[i as int].reserved_rect.apart(slots@[b].reserved_rect),
            decreases slots@.len() - j,
        {
            let left = &slots[i];
            let right = &slots[j];
            assert(slots@[i as int].reserved_rect.fits() && slots@[j as int].reserved_rect.fits());
            if left.page_id == right.page_id && intersects(
                &left.reserved_rect,
                &right.reserved_rect,
            ) {
                return false;
            }
            j = j + 1;
        }
        i = i + 1;
    }
    true
}

fn structure_is_valid(family: &CachedAtlasFamily, shared: &AtlasSharedConfig) -> (r: bool)
    ensures
        r == structure_valid(*family, *shared),
{
    if !config_is_valid(&family.family_config, shared) || !coverage_is_valid(family)
        || !usage_is_valid(family) {
        return false;
    }
    let mut p: usize = 0;
    while p < family.pages.len()
        invariant
            p <= family.pages@.len(),
            forall|q: int| 0 <= q < p ==> page_valid(#[trigger] family.pages@[q], *shared),
        decreases family.pages@.len() - p,
    {
        if !page_is_valid(&family.pages[p], shared) {
            assert(!page_valid(family.pages@[p as int], *shared));
            return false;
        }
        p = p + 1;
    }
    let mut s: usize = 0;
    while s < family.slots.len()
        invariant
            s <= family.slots@.len(),
            forall|q: int|
                0 <= q < family.pages@.len() ==> page_valid(#[trigger] family.pages@[q], *shared),
            forall|t: int|
                0 <= t < s ==> slot_valid(#[trigger] family.slots@[t], family.pages@, *shared),
        decreases family.slots@.len() - s,
    {
        if !slot_is_valid(&family.slots[s], &family.pages, shared) {
            assert(!slot_valid(family.slots@[s as int], family.pages@, *shared));
            return false;
        }
        s = s + 1;
    }
    proof {
        assert forall|t: int| 0 <= t < family.slots@.len() implies (
        #[trigger] family.slots@[t]).reserved_rect.fits() by {
            assert(slot_valid(family.slots@[t], family.pages@, *shared));
            assert(page_valid(family.pages@[family.slots@[t].page_id as int], *shared));
        }
    }
    ids_are_valid(&family.slots, family.next_slot_id) && relations_are_valid(
        &family.slots,
        &family.key_slots,
    ) && reservations_are_apart(&family.slots)
}

/// Related slots of a valid structure resolve and have representable edges.
pub proof fn lemma_valid_relations(family: CachedAtlasFamily, shared: AtlasSharedConfig)
    requires
        structure_valid(family, shared),
    ensures
        destinations_fit(family.slots@, family.key_slots@),
        forall|k: int|
            0 <= k < family.key_slots@.len() ==> relation_resolves(
                family.pages@,
                family.slots@,
                #[trigger] family.key_slots@[k],
            ),
{
    assert forall|k: int| 0 <= k < family.key_slots@.len() implies relation_resolves(
        family.pages@,
        family.slots@,
        #[trigger] family.key_slots@[k],
    ) && family.slots@[slot_position(family.slots@, family.key_slots@[k].slot_id)->0].destination.fits() by {
        let id = family.key_slots@[k].slot_id;
        lemma_slot_position(family.slots@, id);
        assert(has_slot(family.slots@, id));
        let s = slot_position(family.slots@, id)->0;
        assert(slot_valid(family.slots@[s], family.pages@, shared));
        assert(page_valid(family.pages@[family.slots@[s].page_id as int], shared));
    }
}

/// Validates the structure and bindings of one family's evidence.
pub fn validate_family<F: Fn(u32, u32) -> u32>(
    ratio: &F,
    family: &CachedAtlasFamily,
    shared: &AtlasSharedConfig,
) -> (r: bool)
    requires
        forall|a: u32, b: u32| #[trigger] call_requires(*ratio, (a, b)),
    ensures
        r ==> family_valid(*ratio, *family, *shared),
        !r ==> family_refuted(*ratio, *family, *shared),
{
    if !structure_is_valid(family, shared) {
        return false;
    }
    proof {
        lemma_valid_relations(*family, *shared);
    }
    let expected = match bindings_from_relations(
        ratio,
        &family.pages,
        &family.slots,
        &family.key_slots,
    ) {
        Ok(expected) => expected,
        Err(_) => {
            assert(false);
            return false;
        },
    };
    let mut i: usize = 0;
    while i < family.bindings.len()
        invariant
            i <= family.bindings@.len(),
            expected.wf(),
            binds_relations(
                *ratio,
                family.pages@,
                family.slots@,
                family.key_slots@,
                expected@,
            ),
            forall|k: int|
                0 <= k < i ==> {
                    &&& expected@.dom().contains((#[trigger] family.bindings@[k]).path@)
                    &&& family.bindings@[k].page == expected@[family.bindings@[k].path@].0
                    &&& bound_of(family.bindings@[k]) == expected@[family.bindings@[k].path@].1
                },
        decreases family.bindings@.len() - i,
    {
        let binding = &family.bindings[i];
        let same = match expected.get(binding.path.as_str()) {
            None => false,
            Some(found) => {
                let (page, bound) = *found;
                binding.page as usize == page && binding.min_x == bound.min_x && binding.max_x
                    == bound.max_x && binding.min_y == bound.min_y && binding.max_y == bound.max_y
            },
        };
        if !same {
            proof {
                assert(!bindings_match(expected@, family.bindings@)) by {
                    if bindings_match(expected@, family.bindings@) {
                        assert(expected@.dom().contains(family.bindings@[i as int].path@));
                    }
                }
                assert(bindings_refuted(*ratio, *family, expected@));
            }
            return false;
        }
        i = i + 1;
    }
    assert(bindings_confirmed(*ratio, *family, expected@));
    true
}

/// The quotient is the same whenever it is formed.
pub open spec fn single_valued<F: Fn(u32, u32) -> u32>(ratio: F) -> bool {
    forall|a: u32, b: u32, x: u32, y: u32| #[trigger]
        call_ensures(ratio, (a, b), x) && #[trigger] call_ensures(ratio, (a, b), y) ==> x == y
}

/// With a fixed quotient the slots give one set of bindings.
pub proof fn lemma_bindings_determined<F: Fn(u32, u32) -> u32>(
    ratio: F,
    pages: Seq<CachedAtlasPage>,
    slots: Seq<CachedAtlasSlot>,
    key_slots: Seq<CachedAtlasKeySlot>,
    a: Map<Seq<char>, (usize, UvBound)>,
    b: Map<Seq<char>, (usize, UvBound)>,
)
    requires
        single_valued(ratio),
        ascending(relation_paths(key_slots)),
        binds_relations(ratio, pages, slots, key_slots, a),
        binds_relations(ratio, pages, slots, key_slots, b),
    ensures
        a == b,
{
    assert forall|path: Seq<char>| #[trigger] a.dom().contains(path) <==> b.dom().contains(path) by {
        assert(b.dom().contains(path) <==> relates_path(key_slots, path));
    }
    assert forall|path: Seq<char>| #[trigger] a.dom().contains(path) implies a[path] == b[path] by {
        assert(relates_path(key_slots, path));
        let k = choose|k: int| 0 <= k < key_slots.len() && (#[trigger] key_slots[k]).path@ == path;
        assert(is_last_relation(key_slots, k)) by {
            assert forall|j: int| k < j < key_slots.len() implies (#[trigger] key_slots[j]).path@
                != key_slots[k].path@ by {
                assert(text_lt(relation_paths(key_slots)[k], relation_paths(key_slots)[j]));
            }
        }
        assert(binds_relation(ratio, pages, slots, key_slots[k], a[path]));
        assert(binds_relation(ratio, pages, slots, key_slots[k], b[path]));
        let slot = slots[slot_position(slots, key_slots[k].slot_id)->0];
        let page = pages[slot.page_id as int];
        lemma_same_quotient(ratio, slot.destination.x, page.width, a[path].1.min_x, b[path].1.min_x);
        lemma_same_quotient(
            ratio,
            slot.destination.right_edge() as u32,
            page.width,
            a[path].1.max_x,
            b[path].1.max_x,
        );
        lemma_same_quotient(
            ratio,
            slot.destination.y,
            page.height,
            a[path].1.min_y,
            b[path].1.min_y,
        );
        lemma_same_quotient(
            ratio,
            slot.destination.bottom_edge() as u32,
            page.height,
            a[path].1.max_y,
            b[path].1.max_y,
        );
    }
    assert(a =~= b);
}

proof fn lemma_same_quotient<F: Fn(u32, u32) -> u32>(ratio: F, a: u32, b: u32, x: u32, y: u32)
    requires
        single_valued(ratio),
        call_ensures(ratio, (a, b), x),
        call_ensures(ratio, (a, b), y),
    ensures
        x == y,
{
}

/// With a fixed quotient, evidence is never both valid and refuted.
pub proof fn lemma_validity_decided<F: Fn(u32, u32) -> u32>(
    ratio: F,
    family: CachedAtlasFamily,
    shared: AtlasSharedConfig,
)
    requires
        single_valued(ratio),
        family_valid(ratio, family, shared),
    ensures
        !family_refuted(ratio, family, shared),
{
    let a = choose|expected: Map<Seq<char>, (usize, UvBound)>| #[trigger]
        bindings_confirmed(ratio, family, expected);
    assert forall|b: Map<Seq<char>, (usize, UvBound)>| !#[trigger] bindings_refuted(
        ratio,
        family,
        b,
    ) by {
        if bindings_refuted(ratio, family, b) {
            lemma_bindings_determined(
                ratio,
                family.pages@,
                family.slots@,
                family.key_slots@,
                a,
                b,
            );
        }
    }
}

// ---------------------------------------------------------------------------------------------
// Committed pages
// ---------------------------------------------------------------------------------------------

/// The paths that name pages of the family, in order.
pub open spec fn paths_of_domain(paths: Seq<String>, domain: AtlasDomain) -> Seq<String>
    decreases paths.len(),
{
    if paths.len() == 0 {
        Seq::empty()
    } else {
        let before = paths_of_domain(paths.drop_last(), domain);
        if is_page_path(paths.last()@, domain) {
            before.push(paths.last())
        } else {
            before
        }
    }
}

/// The path names a page of one of the families.
pub open spec fn is_atlas_path(path: Seq<char>) -> bool {
    is_page_path(path, AtlasDomain::Opaque) || is_page_path(path, AtlasDomain::Alpha)
}

/// Every path names a page.
pub open spec fn all_classified(paths: Seq<String>) -> bool {
    forall|i: int| 0 <= i < paths.len() ==> is_atlas_path((#[trigger] paths[i])@)
}

/// Partitions committed atlas paths into opaque and alpha ones using the page grammar.
///
/// Returns `None` when any path cannot be classified.
pub fn partition_committed_atlas_paths(committed_atlas_paths: &[String]) -> (r: Option<
    AtlasTextureSet<Vec<String>>,
>)
    ensures
        r is Some <==> all_classified(committed_atlas_paths@),
        r matches Some(set) ==> {
            &&& set.opaque@ == paths_of_domain(committed_atlas_paths@, AtlasDomain::Opaque)
            &&& set.alpha@ == paths_of_domain(committed_atlas_paths@, AtlasDomain::Alpha)
        },
{
    let mut opaque: Vec<String> = Vec::new();
    let mut alpha: Vec<String> = Vec::new();
    let mut i: usize = 0;
    let ghost paths = committed_atlas_paths@;
    while i < committed_atlas_paths.len()
        invariant
            paths == committed_atlas_paths@,
            i <= paths.len(),
            forall|k: int| 0 <= k < i ==> is_atlas_path((#[trigger] paths[k])@),
            opaque@ == paths_of_domain(paths.take(i as int), AtlasDomain::Opaque),
            alpha@ == paths_of_domain(paths.take(i as int), AtlasDomain::Alpha),
        decreases paths.len() - i,
    {
        let path = &committed_atlas_paths[i];
        proof {
            assert(paths.take(i + 1).drop_last() =~= paths.take(i as int));
            assert(paths.take(i + 1).last() == *path);
        }
        let class = classify_atlas_page_path(path.as_str());
        proof {
            assert(class == Some(AtlasDomain::Opaque) <==> is_page_path(
                path@,
                AtlasDomain::Opaque,
            ));
            assert(class == Some(AtlasDomain::Alpha) <==> is_page_path(path@, AtlasDomain::Alpha));
        }
        match class {
            Some(AtlasDomain::Opaque) => {
                opaque.push(path.clone());
            },
            Some(AtlasDomain::Alpha) => {
                alpha.push(path.clone());
            },
            None => {
                assert(!is_atlas_path(paths[i as int]@));
                return None;
            },
        }
        i = i + 1;
    }
    assert(paths.take(i as int) =~= paths);
    Some(AtlasTextureSet::new(opaque, alpha))
}

/// Some page below `count` has the path.
pub open spec fn is_expected_path(domain: AtlasDomain, count: nat, path: Seq<char>) -> bool {
    exists|page: nat| page < count && path == #[trigger] page_path(domain, page)
}

/// The committed paths are exactly those of the family's pages.
pub open spec fn inventory_matches(
    committed: Seq<String>,
    domain: AtlasDomain,
    count: nat,
) -> bool {
    &&& forall|i: int|
        0 <= i < committed.len() ==> is_expected_path(domain, count, (#[trigger] committed[i])@)
    &&& forall|page: nat|
        page < count ==> lists_text(committed, #[trigger] page_path(domain, page))
}

/// Whether the committed paths are exactly those of a family with `count` pages.
fn is_inventory(committed: &[String], domain: AtlasDomain, count: usize) -> (r: bool)
    ensures
        r == inventory_matches(committed@, domain, count as nat),
{
    let mut expected: TextMap<()> = TextMap::new();
    let mut page: usize = 0;
    while page < count
        invariant
            page <= count,
            expected.wf(),
            forall|path: Seq<char>| #[trigger]
                expected@.dom().contains(path) <==> is_expected_path(domain, page as nat, path),
        decreases count - page,
    {
        let path = atlas_page_relative_path(domain, page);
        let ghost before = expected@;
        expected.insert(path, ());
        proof {
            assert forall|p: Seq<char>| #[trigger]
                expected@.dom().contains(p) <==> is_expected_path(domain, (page + 1) as nat, p) by {
                assert(before.dom().contains(p) <==> is_expected_path(domain, page as nat, p));
                if is_expected_path(domain, page as nat, p) {
                    let q = choose|q: nat| q < page && p == #[trigger] page_path(domain, q);
                    assert(q < page + 1);
                }
                if is_expected_path(domain, (page + 1) as nat, p) {
                    let q = choose|q: nat| q < page + 1 && p == #[trigger] page_path(domain, q);
                    if q == page {
                        assert(p == path@);
                    }
                }
            }
        }
        page = page + 1;
    }
    let mut present: TextMap<()> = TextMap::new();
    let mut i: usize = 0;
    while i < committed.len()
        invariant
            i <= committed@.len(),
            expected.wf(),
            present.wf(),
            forall|path: Seq<char>| #[trigger]
                expected@.dom().contains(path) <==> is_expected_path(domain, count as nat, path),
            forall|k: int|
                0 <= k < i ==> is_expected_path(domain, count as nat, (#[trigger] committed@[k])@),
            forall|path: Seq<char>| #[trigger]
                present@.dom().contains(path) <==> lists_text(committed@.take(i as int), path),
        decreases committed@.len() - i,
    {
        if !expected.contains_key(committed[i].as_str()) {
            assert(!is_expected_path(domain, count as nat, committed@[i as int]@));
            return false;
        }
        let ghost before = present@;
        present.insert(committed[i].clone(), ());
        proof {
            let seen = committed@.take(i as int);
            let now = committed@.take(i + 1);
            assert(now =~= seen.push(committed@[i as int]));
            assert forall|path: Seq<char>| #[trigger]
                present@.dom().contains(path) <==> lists_text(now, path) by {
                assert(before.dom().contains(path) <==> lists_text(seen, path));
                if lists_text(seen, path) {
                    let k = choose|k: int| 0 <= k < seen.len() && (#[trigger] seen[k])@ == path;
                    assert(now[k]@ == path);
                }
                if path == committed@[i as int]@ {
                    assert(now[i as int]@ == path);
                }
                if lists_text(now, path) && path != committed@[i as int]@ {
                    let k = choose|k: int| 0 <= k < now.len() && (#[trigger] now[k])@ == path;
                    assert(seen[k]@ == path);
                }
            }
        }
        i = i + 1;
    }
    assert(committed@.take(i as int) =~= committed@);
    let mut number: usize = 0;
    while number < count
        invariant
            number <= count,
            present.wf(),
            forall|path: Seq<char>| #[trigger]
                present@.dom().contains(path) <==> lists_text(committed@, path),
            forall|q: nat| q < number ==> lists_text(committed@, #[trigger] page_path(domain, q)),
        decreases count - number,
    {
        let path = atlas_page_relative_path(domain, number);
        if !present.contains_key(path.as_str()) {
            assert(!lists_text(committed@, page_path(domain, number as nat)));
            return false;
        }
        number = number + 1;
    }
    true
}

/// Accepts a family whose evidence is valid and whose pages are exactly the committed ones.
pub fn accept_family<F: Fn(u32, u32) -> u32>(
    ratio: &F,
    domain: AtlasDomain,
    family: CachedAtlasFamily,
    shared: &AtlasSharedConfig,
    committed: &[String],
) -> (r: Option<CachedAtlasFamily>)
    requires
        forall|a: u32, b: u32| #[trigger] call_requires(*ratio, (a, b)),
    ensures
        accepts_family(*ratio, domain, family, *shared, committed@, r),
{
    if !validate_family(ratio, &family, shared) {
        return None;
    }
    if !is_inventory(committed, domain, family.pages.len()) {
        return None;
    }
    Some(family)
}

/// The family is handed on exactly where its evidence and inventory are valid.
pub open spec fn accepts_family<F: Fn(u32, u32) -> u32>(
    ratio: F,
    domain: AtlasDomain,
    family: CachedAtlasFamily,
    shared: AtlasSharedConfig,
    committed: Seq<String>,
    accepted: Option<CachedAtlasFamily>,
) -> bool {
    match accepted {
        Some(handed) => {
            &&& handed == family
            &&& family_valid(ratio, family, shared)
            &&& inventory_matches(committed, domain, family.pages@.len())
        },
        None => family_refuted(ratio, family, shared) || !inventory_matches(
            committed,
            domain,
            family.pages@.len(),
        ),
    }
}

/// The cache can be considered at all: its version and settings are current, and every committed
/// path names a page.
pub open spec fn cache_comparable(
    cache: AtlasCache,
    shared: AtlasSharedConfig,
    committed: Seq<String>,
) -> bool {
    &&& cache.version == ATLAS_CACHE_VERSION
    &&& cache.shared_config == shared
    &&& all_classified(committed)
}

/// Validates atlas evidence loaded from generator state.
///
/// Global version and shared-configuration mismatches reject both families. After those checks
/// pass, structural, binding, and inventory inconsistencies reject only the affected family so a
/// valid sibling can still feed the family-local planner.
///
/// Source hashes may differ: they select page dirt after structural validation.
pub fn validate_cache<F: Fn(u32, u32) -> u32>(
    ratio: &F,
    plan: &SizingPlan,
    dedupe_mode: TextureDedupeMode,
    gpu_max: u32,
    recipe_version: u32,
    committed_atlas_paths: &[String],
    cache: AtlasCache,
) -> (r: AtlasTextureSet<Option<CachedAtlasFamily>>)
    requires
        forall|a: u32, b: u32| #[trigger] call_requires(*ratio, (a, b)),
    ensures
        ({
            let shared = shared_config_of(*plan, dedupe_mode, gpu_max, recipe_version);
            let committed = committed_atlas_paths@;
            if cache_comparable(cache, shared, committed) {
                &&& accepts_family(
                    *ratio,
                    AtlasDomain::Opaque,
                    cache.opaque,
                    shared,
                    paths_of_domain(committed, AtlasDomain::Opaque),
                    r.opaque,
                )
                &&& accepts_family(
                    *ratio,
                    AtlasDomain::Alpha,
                    cache.alpha,
                    shared,
                    paths_of_domain(committed, AtlasDomain::Alpha),
                    r.alpha,
                )
            } else {
                r.opaque is None && r.alpha is None
            }
        }),
{
    if cache.version != ATLAS_CACHE_VERSION {
        return AtlasTextureSet::new(None, None);
    }
    let shared = AtlasSharedConfig::current(plan, dedupe_mode, gpu_max, recipe_version);
    if cache.shared_config != shared {
        return AtlasTextureSet::new(None, None);
    }
    let committed = match partition_committed_atlas_paths(committed_atlas_paths) {
        Some(committed) => committed,
        None => {
            return AtlasTextureSet::new(None, None);
        },
    };
    let AtlasCache { version: _, shared_config: _, opaque, alpha } = cache;
    AtlasTextureSet::new(
        accept_family(ratio, AtlasDomain::Opaque, opaque, &shared, &committed.opaque),
        accept_family(ratio, AtlasDomain::Alpha, alpha, &shared, &committed.alpha),
    )
}

} // verus!
