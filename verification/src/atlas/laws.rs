//! Laws of allocation: what is written now is accepted on the next run.

use crate::atlas::cache::{
    bindings_confirmed, bindings_match, config_valid, coverage_valid, family_valid,
    fingerprint_paths, has_slot, ids_valid, page_interior, page_valid, relations_valid,
    reservations_apart, slot_geometry_valid, slot_valid, usage_valid,
};
use crate::atlas::error::AtlasError;
use crate::atlas::fresh::{
    group_items, is_empty_family, is_fresh_family, page_sizes, records_layout, slots_provide,
    FreshLayout,
};
use crate::atlas::group::{
    groups_partition, is_group, lists_text, PreparedAtlasGroup,
};
use crate::atlas::packer::{
    filled_item, frame_view, is_packed, is_packed_page, is_power_of_two, item_view, item_views,
    page_views, placed_record, reserved_apart, reserved_in_page, settings_for,
};
use crate::atlas::placement::{
    behind_frame, capture_fails, captured_at, captures_all, captures_sorted, chosen_items,
    frames_before, group_of_item, group_relates, is_first_uncaptured, lemma_captured_valid,
    lemma_places_chosen, places_chosen, places_group, relates, relates_groups, relation_paths,
    slots_repeat_captured, CapturedFrame,
};
use crate::atlas::reconcile::page_used;
use crate::atlas::slot::slot_repeats_frame;
use crate::atlas::types::{
    AtlasSharedConfig, CachedAtlasFamily, CachedAtlasPage, CachedAtlasSlot,
    CachedTextureFingerprint, LayoutItem, Page, UvBound, ATLAS_BORDER_PADDING,
    ATLAS_TEXTURE_EXTRUSION, ATLAS_TEXTURE_PADDING,
};
use crate::atlas::uv::{
    binds_relations, bound_of, bound_paths, is_cached_bound, lists_bindings, lists_path,
    relates_path,
};
use crate::sort::lemma_same_multiset;
use crate::text::{ascending, lemma_ascending_unique, text_lt};
use vstd::arithmetic::power2::{lemma_pow2_strictly_increases, lemma_pow2_unfold, pow2};
use vstd::prelude::*;

verus! {

/// The shared configuration carries the packer's own spacing.
pub open spec fn packer_spaced(shared: AtlasSharedConfig) -> bool {
    &&& shared.border_padding == ATLAS_BORDER_PADDING
    &&& shared.texture_padding == ATLAS_TEXTURE_PADDING
    &&& shared.texture_extrusion == ATLAS_TEXTURE_EXTRUSION
}

/// No page is larger than the page cap.
pub open spec fn within_cap(pages: Seq<CachedAtlasPage>, shared: AtlasSharedConfig) -> bool {
    forall|p: int|
        0 <= p < pages.len() ==> (#[trigger] pages[p]).width <= shared.gpu_max && pages[p].height
            <= shared.gpu_max
}

/// The item has content, and its source rectangle has the same size and lies within the source.
pub open spec fn item_sound(item: LayoutItem) -> bool {
    &&& item.w > 0
    &&& item.h > 0
    &&& item.source is Some
    &&& item.source_size is Some
    &&& item.source->0.w == item.w
    &&& item.source->0.h == item.h
    &&& item.source->0.x + item.w <= (item.source_size->0).0
    &&& item.source->0.y + item.h <= (item.source_size->0).1
}

/// Every group's item is sound.
pub open spec fn items_sound(groups: Seq<PreparedAtlasGroup>) -> bool {
    forall|g: int| 0 <= g < groups.len() ==> item_sound((#[trigger] groups[g]).item)
}

/// Some group lists the path.
pub open spec fn some_group_lists(groups: Seq<PreparedAtlasGroup>, path: Seq<char>) -> bool {
    exists|g: int| 0 <= g < groups.len() && lists_text((#[trigger] groups[g]).logical_keys@, path)
}

/// The fingerprint entries cover exactly the logical keys, in ascending order.
pub open spec fn fingerprints_cover(
    groups: Seq<PreparedAtlasGroup>,
    entries: Seq<CachedTextureFingerprint>,
) -> bool {
    &&& ascending(fingerprint_paths(entries))
    &&& forall|path: Seq<char>| #[trigger]
        fingerprint_paths(entries).contains(path) <==> some_group_lists(groups, path)
}

/// A power of two below twice another one does not exceed it.
proof fn lemma_power_within(value: u32, limit: u32)
    requires
        is_power_of_two(value),
        is_power_of_two(limit),
        value < 2 * limit,
    ensures
        0 < value <= limit,
{
    let a = choose|k: nat| value == #[trigger] pow2(k);
    let b = choose|k: nat| limit == #[trigger] pow2(k);
    vstd::arithmetic::power2::lemma_pow2_pos(a);
    if a > b {
        lemma_pow2_unfold(b + 1);
        if a > b + 1 {
            lemma_pow2_strictly_increases(b + 1, a);
        }
    } else if a < b {
        lemma_pow2_strictly_increases(a, b);
    }
}

/// Where the page cap is a power of two, packed pages keep to it.
pub proof fn lemma_packed_within_cap(pages: Seq<Page>, shared: AtlasSharedConfig)
    requires
        is_power_of_two(shared.gpu_max),
        forall|p: int|
            0 <= p < pages.len() ==> is_packed_page(
                #[trigger] page_views(pages)[p],
                p,
                settings_for(shared.gpu_max),
            ),
    ensures
        within_cap(page_sizes(pages), shared),
{
    assert forall|p: int| 0 <= p < page_sizes(pages).len() implies (
    #[trigger] page_sizes(pages)[p]).width <= shared.gpu_max && page_sizes(pages)[p].height
        <= shared.gpu_max by {
        let view = page_views(pages)[p];
        assert(is_packed_page(view, p, settings_for(shared.gpu_max)));
        lemma_power_within(view.width, shared.gpu_max);
        lemma_power_within(view.height, shared.gpu_max);
    }
}

/// Packed pages that keep to the cap are valid pages.
pub proof fn lemma_packed_page_valid(pages: Seq<Page>, shared: AtlasSharedConfig, p: int)
    requires
        packer_spaced(shared),
        0 <= p < pages.len(),
        is_packed_page(page_views(pages)[p], p, settings_for(shared.gpu_max)),
        page_sizes(pages)[p].width <= shared.gpu_max,
        page_sizes(pages)[p].height <= shared.gpu_max,
    ensures
        page_valid(page_sizes(pages)[p], shared),
{
    let view = page_views(pages)[p];
    assert(reserved_in_page(view, view.frames[0], settings_for(shared.gpu_max)));
}

/// Every frame of a packed layout has a valid reservation.
pub proof fn lemma_packed_captured(
    pages: Seq<Page>,
    shared: AtlasSharedConfig,
    p: int,
    f: int,
)
    requires
        packer_spaced(shared),
        0 <= p < pages.len(),
        0 <= f < pages[p].frames@.len(),
        is_packed_page(page_views(pages)[p], p, settings_for(shared.gpu_max)),
    ensures
        behind_frame(pages, p, f, shared) is Ok,
{
    let view = page_views(pages)[p];
    assert(view.frames[f] == frame_view(pages[p].frames@[f]));
    assert(reserved_in_page(view, view.frames[f], settings_for(shared.gpu_max)));
}

/// With the packer's own spacing, capturing the reservations of a packed layout never fails.
pub proof fn lemma_capture_never_fails(
    pages: Seq<Page>,
    shared: AtlasSharedConfig,
    error: AtlasError,
)
    requires
        packer_spaced(shared),
        forall|p: int|
            0 <= p < pages.len() ==> is_packed_page(
                #[trigger] page_views(pages)[p],
                p,
                settings_for(shared.gpu_max),
            ),
    ensures
        !capture_fails(pages, shared, error),
{
    if capture_fails(pages, shared, error) {
        let (p, f) = choose|p: int, f: int| #[trigger]
            is_first_uncaptured(pages, p, f, shared, error);
        assert(is_packed_page(page_views(pages)[p], p, settings_for(shared.gpu_max)));
        lemma_packed_captured(pages, shared, p, f);
    }
}

/// What a packed layout of chosen groups gives: the pages, the frames in slot order, and the slots.
pub open spec fn is_packed_run(
    groups: Seq<PreparedAtlasGroup>,
    chosen: Seq<int>,
    shared: AtlasSharedConfig,
    offset: int,
    first_id: u64,
    pages: Seq<Page>,
    captured: Seq<CapturedFrame>,
    slots: Seq<CachedAtlasSlot>,
) -> bool {
    &&& is_packed(
        item_views(chosen_items(groups, chosen)),
        settings_for(shared.gpu_max),
        page_views(pages),
    )
    &&& captures_sorted(pages, offset, shared, captured)
    &&& places_chosen(captured, groups, chosen)
    &&& slots_repeat_captured(captured, groups, first_id, slots)
    &&& 0 <= offset
    &&& offset + pages.len() <= usize::MAX
}

/// Slots of a packed layout lie validly on its pages.
pub proof fn lemma_packed_slot_valid(
    groups: Seq<PreparedAtlasGroup>,
    chosen: Seq<int>,
    shared: AtlasSharedConfig,
    offset: int,
    first_id: u64,
    pages: Seq<Page>,
    captured: Seq<CapturedFrame>,
    slots: Seq<CachedAtlasSlot>,
    i: int,
) -> (p: int)
    requires
        packer_spaced(shared),
        items_sound(groups),
        is_packed_run(groups, chosen, shared, offset, first_id, pages, captured, slots),
        0 <= i < slots.len(),
    ensures
        0 <= p < pages.len(),
        slots[i].page_id == offset + p,
        slot_geometry_valid(slots[i], page_interior(page_sizes(pages)[p], shared), shared),
{
    let (p, f) = lemma_captured_valid(pages, offset, shared, captured, i);
    assert(is_packed_page(page_views(pages)[p], p, settings_for(shared.gpu_max)));
    let g = group_of_item(groups, captured[i].frame.key@);
    assert(places_group(captured, groups, i, g));
    assert(item_sound(groups[g].item));
    let slot = slots[i];
    let frame = captured[i].frame;
    assert(placed_record(frame_view(frame)) == filled_item(item_view(groups[g].item)));
    assert(slot_repeats_frame(
        slot,
        captured[i].reserved,
        frame,
        groups[group_of_item(groups, captured[i].frame.key@)].content_fingerprint,
    ));
    assert(frame.source == groups[g].item.source->0);
    assert(frame.source_size == groups[g].item.source_size->0);
    assert(slot.source_size@[0] == frame.source_size.0);
    assert(slot.source_size@[1] == frame.source_size.1);
    p
}

/// Reservations of a packed layout on the same page share no texel.
pub proof fn lemma_packed_apart(
    groups: Seq<PreparedAtlasGroup>,
    chosen: Seq<int>,
    shared: AtlasSharedConfig,
    offset: int,
    first_id: u64,
    pages: Seq<Page>,
    captured: Seq<CapturedFrame>,
    slots: Seq<CachedAtlasSlot>,
    i: int,
    j: int,
)
    requires
        packer_spaced(shared),
        is_packed_run(groups, chosen, shared, offset, first_id, pages, captured, slots),
        0 <= i < j < slots.len(),
        slots[i].page_id == slots[j].page_id,
    ensures
        slots[i].reserved_rect.apart(slots[j].reserved_rect),
{
    let (p, f) = lemma_captured_valid(pages, offset, shared, captured, i);
    let (q, g) = lemma_captured_valid(pages, offset, shared, captured, j);
    assert(p == q);
    assert(captured[i].frame.key@ != captured[j].frame.key@);
    assert(f != g);
    let view = page_views(pages)[p];
    assert(is_packed_page(view, p, settings_for(shared.gpu_max)));
    assert(view.frames[f] == frame_view(pages[p].frames@[f]));
    assert(view.frames[g] == frame_view(pages[p].frames@[g]));
    if f < g {
        assert(reserved_apart(view.frames[f], view.frames[g], settings_for(shared.gpu_max)));
    } else {
        assert(reserved_apart(view.frames[g], view.frames[f], settings_for(shared.gpu_max)));
    }
}

/// Every page of a packed layout is in use.
proof fn lemma_packed_used(
    groups: Seq<PreparedAtlasGroup>,
    chosen: Seq<int>,
    shared: AtlasSharedConfig,
    offset: int,
    first_id: u64,
    pages: Seq<Page>,
    captured: Seq<CapturedFrame>,
    slots: Seq<CachedAtlasSlot>,
    p: int,
)
    requires
        is_packed_run(groups, chosen, shared, offset, first_id, pages, captured, slots),
        0 <= p < pages.len(),
    ensures
        page_used(slots, offset + p),
{
    assert(is_packed_page(page_views(pages)[p], p, settings_for(shared.gpu_max)));
    let list = choose|list: Seq<CapturedFrame>|
        #[trigger] captures_all(pages, offset, shared, list) && captured.to_multiset()
            == list.to_multiset();
    lemma_same_multiset(captured, list);
    let entry = captured_at(pages, p, 0, offset, shared);
    lemma_running_number(pages, p, 0);
    assert(list[frames_before(pages, p) + 0] == entry);
    assert(list.contains(entry));
    assert(captured.contains(entry));
    let i = choose|i: int| 0 <= i < captured.len() && captured[i] == entry;
    assert(slots[i].page_id == offset + p);
}

proof fn lemma_running_number(pages: Seq<Page>, p: int, f: int)
    requires
        0 <= p < pages.len(),
        0 <= f < pages[p].frames@.len(),
    ensures
        0 <= frames_before(pages, p) + f < frames_before(pages, pages.len() as int),
{
    lemma_frames_grow(pages, 0, p);
    lemma_frames_grow(pages, p + 1, pages.len() as int);
    assert(frames_before(pages, p + 1) == frames_before(pages, p) + pages[p].frames@.len());
}

proof fn lemma_frames_grow(pages: Seq<Page>, p: int, q: int)
    requires
        0 <= p <= q <= pages.len(),
    ensures
        0 <= frames_before(pages, p) <= frames_before(pages, q),
    decreases q,
{
    if p < q {
        lemma_frames_grow(pages, p, q - 1);
    } else if p > 0 {
        lemma_frames_grow(pages, 0, p - 1);
    }
}

/// Bindings listed from the slots cover the same paths as the key relations, and repeat what the
/// slots give.
pub proof fn lemma_listed_bindings<F: Fn(u32, u32) -> u32>(
    ratio: F,
    groups: Seq<PreparedAtlasGroup>,
    ids: Seq<u64>,
    family: CachedAtlasFamily,
    bindings: Map<Seq<char>, (usize, UvBound)>,
)
    requires
        fingerprints_cover(groups, family.texture_fingerprints@),
        ids.len() == groups.len(),
        relates_groups(groups, ids, family.key_slots@),
        binds_relations(ratio, family.pages@, family.slots@, family.key_slots@, bindings),
        lists_bindings(bindings, family.bindings@),
    ensures
        coverage_valid(family),
        bindings_confirmed(ratio, family, bindings),
{
    let paths = fingerprint_paths(family.texture_fingerprints@);
    let related = relation_paths(family.key_slots@);
    let bound = bound_paths(family.bindings@);
    assert forall|x: Seq<char>| #[trigger] related.contains(x) <==> paths.contains(x) by {
        if related.contains(x) {
            let k = choose|k: int| 0 <= k < related.len() && related[k] == x;
            let id = family.key_slots@[k].slot_id;
            assert(family.key_slots@[k].path@ == x);
            assert(relates(family.key_slots@, x, id));
            assert(group_relates(groups, ids, x, id));
            assert(some_group_lists(groups, x));
        }
        if paths.contains(x) {
            assert(some_group_lists(groups, x));
            let g = choose|g: int|
                0 <= g < groups.len() && lists_text((#[trigger] groups[g]).logical_keys@, x);
            assert(group_relates(groups, ids, x, ids[g]));
            assert(relates(family.key_slots@, x, ids[g]));
            let k = choose|k: int|
                0 <= k < family.key_slots@.len() && (#[trigger] family.key_slots@[k]).path@ == x
                    && family.key_slots@[k].slot_id == ids[g];
            assert(related[k] == x);
        }
    }
    lemma_ascending_unique(related, paths);
    assert forall|x: Seq<char>| #[trigger] bound.contains(x) <==> paths.contains(x) by {
        assert(related.contains(x) <==> paths.contains(x));
        if bound.contains(x) {
            let i = choose|i: int| 0 <= i < bound.len() && bound[i] == x;
            assert(bindings.dom().contains(family.bindings@[i].path@));
            assert(relates_path(family.key_slots@, x));
            let k = choose|k: int|
                0 <= k < family.key_slots@.len() && (#[trigger] family.key_slots@[k]).path@ == x;
            assert(related[k] == x);
        }
        if related.contains(x) {
            let k = choose|k: int| 0 <= k < related.len() && related[k] == x;
            assert(family.key_slots@[k].path@ == x);
            assert(relates_path(family.key_slots@, x));
            assert(bindings.dom().contains(x));
            assert(lists_path(family.bindings@, x));
            let i = choose|i: int|
                0 <= i < family.bindings@.len() && (#[trigger] family.bindings@[i]).path@ == x;
            assert(bound[i] == x);
        }
    }
    lemma_ascending_unique(bound, paths);
    assert(bindings_match(bindings, family.bindings@)) by {
        assert forall|i: int| 0 <= i < family.bindings@.len() implies {
            &&& bindings.dom().contains((#[trigger] family.bindings@[i]).path@)
            &&& family.bindings@[i].page == bindings[family.bindings@[i].path@].0
            &&& bound_of(family.bindings@[i]) == bindings[family.bindings@[i].path@].1
        } by {
            let entry = family.bindings@[i];
            assert(bindings.dom().contains(entry.path@));
            assert(is_cached_bound(entry, entry.path@, bindings[entry.path@]));
            lemma_binding_page_small(ratio, family, bindings, entry.path@);
            assert(bound_of(entry) == bindings[entry.path@].1);
        }
    }
}

/// A bound page number comes from a slot and fits 32 bits.
pub proof fn lemma_binding_page_small<F: Fn(u32, u32) -> u32>(
    ratio: F,
    family: CachedAtlasFamily,
    bindings: Map<Seq<char>, (usize, UvBound)>,
    path: Seq<char>,
)
    requires
        ascending(relation_paths(family.key_slots@)),
        binds_relations(ratio, family.pages@, family.slots@, family.key_slots@, bindings),
        bindings.dom().contains(path),
    ensures
        bindings[path].0 <= u32::MAX,
{
    assert(relates_path(family.key_slots@, path));
    let k = choose|k: int|
        0 <= k < family.key_slots@.len() && (#[trigger] family.key_slots@[k]).path@ == path;
    assert(crate::atlas::uv::is_last_relation(family.key_slots@, k)) by {
        assert forall|j: int| k < j < family.key_slots@.len() implies (
        #[trigger] family.key_slots@[j]).path@ != family.key_slots@[k].path@ by {
            assert(text_lt(
                relation_paths(family.key_slots@)[k],
                relation_paths(family.key_slots@)[j],
            ));
        }
    }
    assert(crate::atlas::uv::binds_relation(
        ratio,
        family.pages@,
        family.slots@,
        family.key_slots@[k],
        bindings[path],
    ));
}

/// A freshly packed family passes validation: the evidence written by one run is accepted by the
/// next, where the pages keep to the page cap.
pub proof fn lemma_fresh_family_valid<F: Fn(u32, u32) -> u32>(
    ratio: F,
    groups: Seq<PreparedAtlasGroup>,
    shared: AtlasSharedConfig,
    family: CachedAtlasFamily,
    bindings: Map<Seq<char>, (usize, UvBound)>,
)
    requires
        packer_spaced(shared),
        groups_partition(groups),
        items_sound(groups),
        config_valid(family.family_config, shared),
        fingerprints_cover(groups, family.texture_fingerprints@),
        is_fresh_family(ratio, groups, shared, family, bindings),
        within_cap(family.pages@, shared),
    ensures
        family_valid(ratio, family, shared),
{
    if groups.len() == 0 {
        lemma_empty_family_valid(ratio, groups, shared, family, bindings);
    } else {
        let layout = choose|layout: FreshLayout| #[trigger]
            records_layout(ratio, groups, shared, layout, family, bindings);
        let chosen = Seq::new(groups.len(), |g: int| g);
        assert(chosen_items(groups, chosen) =~= group_items(groups));
        let pages = layout.pages;
        let captured = layout.captured;
        let slots = family.slots@;
        lemma_places_chosen(
            groups,
            chosen,
            settings_for(shared.gpu_max),
            pages,
            0,
            shared,
            captured,
        );
        assert(is_packed_run(groups, chosen, shared, 0, 0, pages, captured, slots));
        lemma_listed_bindings(ratio, groups, layout.ids, family, bindings);
        assert forall|p: int| 0 <= p < family.pages@.len() implies page_valid(
            #[trigger] family.pages@[p],
            shared,
        ) by {
            assert(is_packed_page(page_views(pages)[p], p, settings_for(shared.gpu_max)));
            assert(family.pages@[p].width <= shared.gpu_max);
            lemma_packed_page_valid(pages, shared, p);
        }
        assert forall|s: int| 0 <= s < slots.len() implies slot_valid(
            #[trigger] slots[s],
            family.pages@,
            shared,
        ) by {
            let p = lemma_packed_slot_valid(
                groups,
                chosen,
                shared,
                0,
                0,
                pages,
                captured,
                slots,
                s,
            );
        }
        assert(reservations_apart(slots)) by {
            assert forall|i: int, j: int|
                0 <= i < j < slots.len() && (#[trigger] slots[i]).page_id == (
                #[trigger] slots[j]).page_id implies slots[i].reserved_rect.apart(
                slots[j].reserved_rect,
            ) by {
                lemma_packed_apart(
                    groups,
                    chosen,
                    shared,
                    0,
                    0,
                    pages,
                    captured,
                    slots,
                    i,
                    j,
                );
            }
        }
        assert(usage_valid(family)) by {
            assert(slots.len() == captured.len());
            if pages.len() > 0 {
                lemma_packed_used(
                    groups,
                    chosen,
                    shared,
                    0,
                    0,
                    pages,
                    captured,
                    slots,
                    pages.len() - 1,
                );
            }
        }
        assert(ids_valid(slots, family.next_slot_id));
        lemma_fresh_relations_valid(groups, layout, family);
    }
}

proof fn lemma_empty_family_valid<F: Fn(u32, u32) -> u32>(
    ratio: F,
    groups: Seq<PreparedAtlasGroup>,
    shared: AtlasSharedConfig,
    family: CachedAtlasFamily,
    bindings: Map<Seq<char>, (usize, UvBound)>,
)
    requires
        groups.len() == 0,
        config_valid(family.family_config, shared),
        fingerprints_cover(groups, family.texture_fingerprints@),
        is_empty_family(family, bindings),
    ensures
        family_valid(ratio, family, shared),
{
    let paths = fingerprint_paths(family.texture_fingerprints@);
    if paths.len() > 0 {
        assert(paths.contains(paths[0]));
        assert(some_group_lists(groups, paths[0]));
    }
    assert(relation_paths(family.key_slots@) =~= paths);
    assert(bound_paths(family.bindings@) =~= paths);
    assert(binds_relations(
        ratio,
        family.pages@,
        family.slots@,
        family.key_slots@,
        bindings,
    )) by {
        assert forall|path: Seq<char>| #[trigger]
            bindings.dom().contains(path) <==> relates_path(family.key_slots@, path) by {}
    }
    assert(bindings_confirmed(ratio, family, bindings));
}

proof fn lemma_fresh_relations_valid(
    groups: Seq<PreparedAtlasGroup>,
    layout: FreshLayout,
    family: CachedAtlasFamily,
)
    requires
        groups_partition(groups),
        slots_repeat_captured(layout.captured, groups, 0, family.slots@),
        places_chosen(layout.captured, groups, Seq::new(groups.len(), |g: int| g)),
        slots_provide(family.slots@, 0, groups, layout.ids),
        relates_groups(groups, layout.ids, family.key_slots@),
    ensures
        relations_valid(family.slots@, family.key_slots@),
{
    let slots = family.slots@;
    let key_slots = family.key_slots@;
    let ids = layout.ids;
    assert forall|k: int| 0 <= k < key_slots.len() implies has_slot(
        slots,
        (#[trigger] key_slots[k]).slot_id,
    ) by {
        let id = key_slots[k].slot_id;
        assert(relates(key_slots, key_slots[k].path@, id));
        assert(group_relates(groups, ids, key_slots[k].path@, id));
        assert(slots[id as int].slot_id == id);
    }
    assert forall|s: int| 0 <= s < slots.len() implies relates(
        key_slots,
        (#[trigger] slots[s]).provider_key@,
        slots[s].slot_id,
    ) by {
        let key = layout.captured[s].frame.key@;
        let g = group_of_item(groups, key);
        assert(places_group(layout.captured, groups, s, g));
        assert(groups[g].item.key@ == key);
        assert(slots[s].provider_key@ == key);
        let t = ids[g] as int;
        assert(slots[t].provider_key@ == key);
        assert(layout.captured[t].frame.key@ == key);
        if s < t {
            assert(layout.captured[s].frame.key@ != layout.captured[t].frame.key@);
        } else if t < s {
            assert(layout.captured[t].frame.key@ != layout.captured[s].frame.key@);
        }
        assert(is_group(groups[g]));
        assert(lists_text(groups[g].logical_keys@, key));
        assert(group_relates(groups, ids, key, ids[g]));
    }
}

} // verus!
