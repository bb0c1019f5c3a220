//! Packing a family without prior evidence.

use crate::atlas::allocate::{
    allocation_stats, describes_pages, pages_from_cache, stats_of, AllocatedAtlasFamily,
    AtlasAllocationStats,
};
use crate::atlas::error::AtlasError;
use crate::atlas::group::{groups_partition, has_provider, PreparedAtlasGroup};
use crate::atlas::packer::{
    is_packed, is_packed_page, item_views, layout_feasible, pack_layout_only, packed_layout, page_views,
    settings_for,
};
use crate::atlas::placement::{
    behind_frame, capture_fails, capture_frames, captures_key, captures_sorted, chosen_items,
    group_of_item, group_relates, item_groups, key_slots_for_groups, lemma_captured_valid,
    lemma_places_chosen, place_captured, places_group, placing_fails, relates, relates_groups,
    slots_repeat_captured, CapturedFrame,
};
use crate::atlas::types::{
    AtlasFamilyConfig, AtlasSharedConfig, CachedAtlasFamily, CachedAtlasPage, CachedAtlasSlot,
    CachedTextureFingerprint, LayoutItem, Page, UvBound,
};
use crate::atlas::uv::{
    bindings_from_relations, binds_relations, destinations_fit, lemma_slot_position, lists_bindings,
    map_to_cached_bounds, relation_resolves, slot_position,
};
use crate::text_map::TextMap;
use vstd::prelude::*;

verus! {

/// The items of all groups, in order.
pub open spec fn group_items(groups: Seq<PreparedAtlasGroup>) -> Seq<LayoutItem> {
    groups.map_values(|group: PreparedAtlasGroup| group.item)
}

/// The texel count of every item is representable in 32 bits.
pub open spec fn items_measurable(groups: Seq<PreparedAtlasGroup>) -> bool {
    forall|g: int|
        0 <= g < groups.len() ==> (#[trigger] groups[g]).item.w * groups[g].item.h <= u32::MAX
}

/// Dimensions of the pages.
pub open spec fn page_sizes(pages: Seq<Page>) -> Seq<CachedAtlasPage> {
    pages.map_values(|page: Page| CachedAtlasPage { width: page.width, height: page.height })
}

/// Slot `ids[g]` is provided by the item of group `g`.
pub open spec fn slots_provide(
    slots: Seq<CachedAtlasSlot>,
    first_id: u64,
    groups: Seq<PreparedAtlasGroup>,
    ids: Seq<u64>,
) -> bool {
    &&& ids.len() == groups.len()
    &&& forall|g: int|
        0 <= g < groups.len() ==> {
            &&& first_id <= #[trigger] ids[g] < first_id + slots.len()
            &&& slots[ids[g] - first_id].provider_key@ == groups[g].item.key@
        }
}

/// The layout from which a fresh family comes: the packed pages, the frames in slot order, and the
/// slot of each group.
pub struct FreshLayout {
    pub pages: Seq<Page>,
    pub captured: Seq<CapturedFrame>,
    pub ids: Seq<u64>,
}

/// The family records the layout: slots numbered in the order of page, row, column, and key, each
/// logical key related to the slot of its group, and bindings that follow from the slots.
pub open spec fn records_layout<F: Fn(u32, u32) -> u32>(
    ratio: F,
    groups: Seq<PreparedAtlasGroup>,
    shared: AtlasSharedConfig,
    layout: FreshLayout,
    family: CachedAtlasFamily,
    bindings: Map<Seq<char>, (usize, UvBound)>,
) -> bool {
    &&& packed_layout(item_views(group_items(groups)), settings_for(shared.gpu_max)) == Some(
        page_views(layout.pages),
    )
    &&& is_packed(
        item_views(group_items(groups)),
        settings_for(shared.gpu_max),
        page_views(layout.pages),
    )
    &&& layout.pages.len() <= usize::MAX
    &&& captures_sorted(layout.pages, 0, shared, layout.captured)
    &&& slots_repeat_captured(layout.captured, groups, 0, family.slots@)
    &&& family.next_slot_id == family.slots@.len()
    &&& family.pages@ == page_sizes(layout.pages)
    &&& slots_provide(family.slots@, 0, groups, layout.ids)
    &&& relates_groups(groups, layout.ids, family.key_slots@)
    &&& binds_relations(
        ratio,
        family.pages@,
        family.slots@,
        family.key_slots@,
        bindings,
    )
    &&& lists_bindings(bindings, family.bindings@)
}

/// The family of no groups.
pub open spec fn is_empty_family(
    family: CachedAtlasFamily,
    bindings: Map<Seq<char>, (usize, UvBound)>,
) -> bool {
    &&& family.next_slot_id == 0
    &&& family.pages@.len() == 0
    &&& family.slots@.len() == 0
    &&& family.key_slots@.len() == 0
    &&& family.bindings@.len() == 0
    &&& bindings.dom() == Set::<Seq<char>>::empty()
}

/// The evidence of a fresh family.
pub open spec fn is_fresh_family<F: Fn(u32, u32) -> u32>(
    ratio: F,
    groups: Seq<PreparedAtlasGroup>,
    shared: AtlasSharedConfig,
    family: CachedAtlasFamily,
    bindings: Map<Seq<char>, (usize, UvBound)>,
) -> bool {
    if groups.len() == 0 {
        is_empty_family(family, bindings)
    } else {
        exists|layout: FreshLayout| #[trigger]
            records_layout(ratio, groups, shared, layout, family, bindings)
    }
}

/// Packing a family afresh stops with `error`.
pub open spec fn fresh_fails<F: Fn(u32, u32) -> u32>(
    ratio: F,
    groups: Seq<PreparedAtlasGroup>,
    shared: AtlasSharedConfig,
    error: AtlasError,
) -> bool {
    let items = item_views(group_items(groups));
    let settings = settings_for(shared.gpu_max);
    &&& groups.len() > 0
    &&& {
        ||| error == AtlasError::PackingFailed && !layout_feasible(items, settings)
        ||| layout_feasible(items, settings) && exists|layout: FreshLayout|
            {
                &&& packed_layout(items, settings) == Some(page_views(layout.pages))
                &&& #[trigger] layout_fails(layout, shared, error)
            }
        ||| layout_feasible(items, settings) && exists|
            family: CachedAtlasFamily,
            bindings: Map<Seq<char>, (usize, UvBound)>,
        |
            #[trigger] is_fresh_family(ratio, groups, shared, family, bindings) && stats_of(
                family,
                shared,
            ) == Err::<AtlasAllocationStats, AtlasError>(error)
    }
}

/// The reservations of the layout, or its numbering, stop with `error`.
pub open spec fn layout_fails(
    layout: FreshLayout,
    shared: AtlasSharedConfig,
    error: AtlasError,
) -> bool {
    ||| capture_fails(layout.pages, shared, error)
    ||| captures_sorted(layout.pages, 0, shared, layout.captured) && placing_fails(
        layout.captured,
        0,
        error,
    )
}

/// Copies the items of the groups.
fn cloned_items(groups: &[PreparedAtlasGroup]) -> (items: Vec<LayoutItem>)
    ensures
        items@ == group_items(groups@),
{
    let mut items: Vec<LayoutItem> = Vec::new();
    let mut i: usize = 0;
    while i < groups.len()
        invariant
            i <= groups@.len(),
            items@.len() == i,
            forall|k: int| 0 <= k < i ==> #[trigger] items@[k] == groups@[k].item,
        decreases groups@.len() - i,
    {
        items.push(groups[i].item.clone());
        i = i + 1;
    }
    assert(items@ =~= group_items(groups@));
    items
}

/// The dimensions of the pages.
pub(crate) fn sizes_of_pages(pages: &[Page]) -> (sizes: Vec<CachedAtlasPage>)
    ensures
        sizes@ == page_sizes(pages@),
{
    let mut sizes: Vec<CachedAtlasPage> = Vec::new();
    let mut i: usize = 0;
    while i < pages.len()
        invariant
            i <= pages@.len(),
            sizes@ == page_sizes(pages@).take(i as int),
        decreases pages@.len() - i,
    {
        sizes.push(CachedAtlasPage { width: pages[i].width, height: pages[i].height });
        proof {
            assert(page_sizes(pages@).take(i + 1) =~= page_sizes(pages@).take(i as int).push(
                page_sizes(pages@)[i as int],
            ));
        }
        i = i + 1;
    }
    assert(page_sizes(pages@).take(i as int) =~= page_sizes(pages@));
    sizes
}

/// Marks for every page.
fn all_marked(count: usize) -> (marks: Vec<bool>)
    ensures
        marks@ == Seq::new(count as nat, |p: int| true),
{
    let mut marks: Vec<bool> = Vec::new();
    let mut i: usize = 0;
    while i < count
        invariant
            i <= count,
            marks@ == Seq::new(i as nat, |p: int| true),
        decreases count - i,
    {
        marks.push(true);
        assert(marks@ =~= Seq::new((i + 1) as nat, |p: int| true));
        i = i + 1;
    }
    marks
}

/// The slot identity of each group, read from the slots' providers.
fn ids_of_groups(slots: &[CachedAtlasSlot], groups: &[PreparedAtlasGroup]) -> (ids: Vec<u64>)
    requires
        forall|i: int| 0 <= i < slots@.len() ==> (#[trigger] slots@[i]).slot_id == i,
        forall|i: int, k: int|
            0 <= i < k < slots@.len() ==> (#[trigger] slots@[i]).provider_key@ != (
            #[trigger] slots@[k]).provider_key@,
        forall|g: int|
            0 <= g < groups@.len() ==> provides_slot(
                slots@,
                (#[trigger] groups@[g]).item.key@,
            ),
    ensures
        slots_provide(slots@, 0, groups@, ids@),
{
    let mut by_provider: TextMap<u64> = TextMap::new();
    let mut i: usize = 0;
    while i < slots.len()
        invariant
            i <= slots@.len(),
            forall|k: int| 0 <= k < slots@.len() ==> (#[trigger] slots@[k]).slot_id == k,
            by_provider.wf(),
            forall|key: Seq<char>| #[trigger]
                by_provider@.dom().contains(key) ==> by_provider@[key] < i
                    && slots@[by_provider@[key] as int].provider_key@ == key,
            forall|k: int|
                0 <= k < i ==> by_provider@.dom().contains((#[trigger] slots@[k]).provider_key@),
        decreases slots@.len() - i,
    {
        by_provider.insert(slots[i].provider_key.clone(), slots[i].slot_id);
        i = i + 1;
    }
    let mut ids: Vec<u64> = Vec::new();
    let mut g: usize = 0;
    while g < groups.len()
        invariant
            g <= groups@.len(),
            ids@.len() == g,
            by_provider.wf(),
            forall|key: Seq<char>| #[trigger]
                by_provider@.dom().contains(key) ==> by_provider@[key] < slots@.len()
                    && slots@[by_provider@[key] as int].provider_key@ == key,
            forall|k: int|
                0 <= k < slots@.len() ==> by_provider@.dom().contains(
                    (#[trigger] slots@[k]).provider_key@,
                ),
            forall|h: int|
                0 <= h < groups@.len() ==> provides_slot(
                    slots@,
                    (#[trigger] groups@[h]).item.key@,
                ),
            forall|h: int|
                0 <= h < g ==> {
                    &&& #[trigger] ids@[h] < slots@.len()
                    &&& slots@[ids@[h] as int].provider_key@ == groups@[h].item.key@
                },
        decreases groups@.len() - g,
    {
        proof {
            assert(provides_slot(slots@, groups@[g as int].item.key@));
            let k = choose|k: int|
                0 <= k < slots@.len() && (#[trigger] slots@[k]).provider_key@
                    == groups@[g as int].item.key@;
            assert(by_provider@.dom().contains(slots@[k].provider_key@));
        }
        ids.push(*by_provider.get(groups[g].item.key.as_str()).unwrap());
        g = g + 1;
    }
    ids
}

/// Some slot has the provider.
pub open spec fn provides_slot(slots: Seq<CachedAtlasSlot>, key: Seq<char>) -> bool {
    exists|i: int| 0 <= i < slots.len() && (#[trigger] slots[i]).provider_key@ == key
}

/// In a list numbered by position the identity is the position.
proof fn lemma_numbered_position(slots: Seq<CachedAtlasSlot>, id: u64)
    requires
        forall|i: int| 0 <= i < slots.len() ==> (#[trigger] slots[i]).slot_id == i,
        id < slots.len(),
    ensures
        slot_position(slots, id) == Some(id as int),
{
    lemma_slot_position(slots, id);
    assert(slots[id as int].slot_id == id);
}

/// The far edges of a captured frame are representable.
pub proof fn lemma_captured_fits(
    pages: Seq<Page>,
    offset: int,
    shared: AtlasSharedConfig,
    captured: Seq<CapturedFrame>,
    i: int,
)
    requires
        captures_sorted(pages, offset, shared, captured),
        0 <= i < captured.len(),
        0 <= offset,
        offset + pages.len() <= usize::MAX,
    ensures
        captured[i].frame.frame.x + captured[i].frame.frame.w <= u32::MAX,
        captured[i].frame.frame.y + captured[i].frame.frame.h <= u32::MAX,
        offset <= captured[i].page_id < offset + pages.len(),
{
    let (p, f) = lemma_captured_valid(pages, offset, shared, captured, i);
    assert(behind_frame(pages, p, f, shared) is Ok);
}

/// Slots that repeat captured frames relate every group to a slot on an existing page.
proof fn lemma_fresh_relations(
    groups: Seq<PreparedAtlasGroup>,
    shared: AtlasSharedConfig,
    pages: Seq<Page>,
    captured: Seq<CapturedFrame>,
    slots: Seq<CachedAtlasSlot>,
    ids: Seq<u64>,
    key_slots: Seq<crate::atlas::types::CachedAtlasKeySlot>,
)
    requires
        pages.len() <= usize::MAX,
        captures_sorted(pages, 0, shared, captured),
        slots_repeat_captured(captured, groups, 0, slots),
        slots_provide(slots, 0, groups, ids),
        relates_groups(groups, ids, key_slots),
    ensures
        destinations_fit(slots, key_slots),
        forall|k: int|
            0 <= k < key_slots.len() ==> relation_resolves(
                page_sizes(pages),
                slots,
                #[trigger] key_slots[k],
            ),
{
    assert forall|k: int| 0 <= k < key_slots.len() implies relation_resolves(
        page_sizes(pages),
        slots,
        #[trigger] key_slots[k],
    ) && slots[slot_position(slots, key_slots[k].slot_id)->0].destination.fits() by {
        let path = key_slots[k].path@;
        let id = key_slots[k].slot_id;
        assert(relates(key_slots, path, id));
        assert(group_relates(groups, ids, path, id));
        lemma_numbered_position(slots, id);
        lemma_captured_fits(pages, 0, shared, captured, id as int);
    }
}

/// Fresh-packs a family with deterministic initial slot ids.
pub fn fresh_allocate_family<F: Fn(u32, u32) -> u32>(
    ratio: &F,
    family_config: AtlasFamilyConfig,
    layout_input_digest: [u8; 32],
    groups: &[PreparedAtlasGroup],
    texture_fingerprints: Vec<CachedTextureFingerprint>,
    shared: &AtlasSharedConfig,
) -> (r: Result<AllocatedAtlasFamily, AtlasError>)
    requires
        forall|a: u32, b: u32| #[trigger] call_requires(*ratio, (a, b)),
        groups_partition(groups@),
        items_measurable(groups@),
        shared.gpu_max <= 0x8000_0000,
    ensures
        match r {
            Ok(family) => {
                &&& is_fresh_family(
                    *ratio,
                    groups@,
                    *shared,
                    family.cache,
                    family.bindings@,
                )
                &&& family.cache.family_config == family_config
                &&& family.cache.layout_input_digest == layout_input_digest
                &&& family.cache.texture_fingerprints == texture_fingerprints
                &&& family.bindings.wf()
                &&& describes_pages(
                    family.cache,
                    Seq::new(family.cache.pages@.len(), |p: int| true),
                    family.pages@,
                )
                &&& family.provider_renames@.len() == 0
                &&& stats_of(family.cache, *shared) is Ok
                &&& family.stats == (AtlasAllocationStats {
                    allocated_slots: family.cache.slots@.len() as usize,
                    ..stats_of(family.cache, *shared)->Ok_0
                })
            },
            Err(e) => fresh_fails(*ratio, groups@, *shared, e),
        },
{
    if groups.len() == 0 {
        let cache = CachedAtlasFamily {
            family_config,
            layout_input_digest,
            next_slot_id: 0,
            pages: Vec::new(),
            slots: Vec::new(),
            key_slots: Vec::new(),
            bindings: Vec::new(),
            texture_fingerprints,
        };
        let pages = pages_from_cache(&cache, &Vec::new());
        return Ok(
            AllocatedAtlasFamily {
                cache,
                bindings: TextMap::new(),
                pages,
                provider_renames: Vec::new(),
                stats: AtlasAllocationStats::default(),
            },
        );
    }
    let items = cloned_items(groups);
    proof {
        assert forall|i: int| 0 <= i < items@.len() implies (#[trigger] items@[i]).w * items@[i].h
            <= u32::MAX by {
            assert(groups@[i].item.w * groups@[i].item.h <= u32::MAX);
        }
    }
    let pages = match pack_layout_only(&items, shared.gpu_max) {
        Ok(pages) => pages,
        Err(e) => {
            return Err(e);
        },
    };
    proof {
        assert(pages@.len() == pages.len());
        assert forall|p: int| 0 <= p < pages@.len() implies (#[trigger] pages@[p]).id == p by {
            assert(is_packed_page(page_views(pages@)[p], p, settings_for(shared.gpu_max)));
        }
    }
    let captured = match capture_frames(&pages, 0, shared) {
        Ok(captured) => captured,
        Err(e) => {
            proof {
                let layout = FreshLayout { pages: pages@, captured: seq![], ids: seq![] };
                assert(layout_fails(layout, *shared, e));
            }
            return Err(e);
        },
    };
    let by_item = item_groups(groups);
    let ghost chosen = Seq::new(groups@.len(), |g: int| g);
    proof {
        assert(chosen_items(groups@, chosen) =~= group_items(groups@));
        lemma_places_chosen(
            groups@,
            chosen,
            settings_for(shared.gpu_max),
            pages@,
            0,
            *shared,
            captured@,
        );
        assert forall|i: int| 0 <= i < captured@.len() implies by_item@.dom().contains(
            (#[trigger] captured@[i]).frame.key@,
        ) by {
            let g = group_of_item(groups@, captured@[i].frame.key@);
            assert(places_group(captured@, groups@, i, g));
            assert(groups@[g].item.key@ == captured@[i].frame.key@);
            assert(has_provider(groups@, captured@[i].frame.key@));
        }
    }
    let slots = match place_captured(&captured, groups, &by_item, 0) {
        Ok(slots) => slots,
        Err(e) => {
            proof {
                let layout = FreshLayout { pages: pages@, captured: captured@, ids: seq![] };
                assert(layout_fails(layout, *shared, e));
            }
            return Err(e);
        },
    };
    proof {
        assert forall|g: int| 0 <= g < groups@.len() implies provides_slot(
            slots@,
            (#[trigger] groups@[g]).item.key@,
        ) by {
            assert(chosen[g] == g);
            assert(captures_key(captured@, groups@[g].item.key@));
            let i = choose|i: int|
                0 <= i < captured@.len() && (#[trigger] captured@[i]).frame.key@
                    == groups@[g].item.key@;
            assert(slots@[i].provider_key@ == groups@[g].item.key@);
        }
        assert forall|i: int, k: int| 0 <= i < k < slots@.len() implies (
        #[trigger] slots@[i]).provider_key@ != (#[trigger] slots@[k]).provider_key@ by {
            assert(captured@[i].frame.key@ != captured@[k].frame.key@);
        }
    }
    let ids = ids_of_groups(&slots, groups);
    let key_slots = key_slots_for_groups(groups, &ids);
    let sizes = sizes_of_pages(&pages);
    proof {
        lemma_fresh_relations(
            groups@,
            *shared,
            pages@,
            captured@,
            slots@,
            ids@,
            key_slots@,
        );
    }
    let bindings = match bindings_from_relations(ratio, &sizes, &slots, &key_slots) {
        Ok(bindings) => bindings,
        Err(e) => {
            assert(false);
            return Err(e);
        },
    };
    let next_slot_id: u64 = slots.len() as u64;
    let cache = CachedAtlasFamily {
        family_config,
        layout_input_digest,
        next_slot_id,
        pages: sizes,
        slots,
        key_slots,
        bindings: map_to_cached_bounds(&bindings),
        texture_fingerprints,
    };
    proof {
        let layout = FreshLayout { pages: pages@, captured: captured@, ids: ids@ };
        assert(records_layout(*ratio, groups@, *shared, layout, cache, bindings@));
    }
    let marks = all_marked(cache.pages.len());
    let result_pages = pages_from_cache(&cache, &marks);
    let mut stats = match allocation_stats(&cache, shared) {
        Ok(stats) => stats,
        Err(e) => {
            assert(is_fresh_family(*ratio, groups@, *shared, cache, bindings@));
            return Err(e);
        },
    };
    stats.allocated_slots = cache.slots.len();
    Ok(
        AllocatedAtlasFamily {
            cache,
            bindings,
            pages: result_pages,
            provider_renames: Vec::new(),
            stats,
        },
    )
}

} // verus!
