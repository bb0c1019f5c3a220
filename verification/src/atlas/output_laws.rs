//! Laws of what planning hands on: renamed images, pages to build, and totals.

use crate::atlas::allocate::{
    active_total, describes_pages, frame_of_slot, frames_on_page, page_total, reserved_total,
    stats_of, usable_total, AtlasAllocationStats, ReconciledPage,
};
use crate::atlas::cache::paths_of_domain;
use crate::atlas::error::AtlasError;
use crate::atlas::publish::{
    built_before, built_page, canvas_bytes, largest_canvas, pages_work,
    AtlasPagePublishPlan,
};
use crate::atlas::rect::interior;
use crate::atlas::renames::{all_liftable, lifted, liftable, refiled, unclaimed};
use crate::atlas::sizing::AtlasDomain;
use crate::atlas::types::{
    AtlasSharedConfig, CachedAtlasFamily, CachedAtlasPage, CachedAtlasSlot, Frame,
};
use crate::atlas::write::is_page_path;
use crate::picks::{lemma_pick_next, picks};
use vstd::prelude::*;

verus! {

// ---------------------------------------------------------------------------------------------
// Renames
// ---------------------------------------------------------------------------------------------

proof fn lemma_lifted_names<V>(
    images: Map<Seq<char>, V>,
    renames: Seq<(String, String)>,
    count: int,
    key: Seq<char>,
)
    requires
        0 <= count <= renames.len(),
    ensures
        lifted(images, renames, count).dom().contains(key) <==> images.dom().contains(key) && (
        forall|i: int| 0 <= i < count ==> (#[trigger] renames[i]).0@ != key),
        lifted(images, renames, count).dom().contains(key) ==> lifted(images, renames, count)[key]
            == images[key],
    decreases count,
{
    if count > 0 {
        lemma_lifted_names(images, renames, count - 1, key);
    }
}

proof fn lemma_refiled_names<V>(
    images: Map<Seq<char>, V>,
    renames: Seq<(String, String)>,
    count: int,
    key: Seq<char>,
)
    requires
        0 <= count <= renames.len(),
        forall|i: int| 0 <= i < renames.len() ==> #[trigger] unclaimed(images, renames, i),
    ensures
        (forall|i: int| 0 <= i < count ==> (#[trigger] renames[i]).1@ != key) ==> {
            &&& refiled(images, renames, count).dom().contains(key) <==> lifted(
                images,
                renames,
                renames.len() as int,
            ).dom().contains(key)
            &&& refiled(images, renames, count).dom().contains(key) ==> refiled(
                images,
                renames,
                count,
            )[key] == images[key]
        },
        forall|i: int|
            0 <= i < count && (#[trigger] renames[i]).1@ == key ==> refiled(
                images,
                renames,
                count,
            ).dom().contains(key) && refiled(images, renames, count)[key]
                == images[renames[i].0@],
    decreases count,
{
    lemma_lifted_names(images, renames, renames.len() as int, key);
    if count > 0 {
        lemma_refiled_names(images, renames, count - 1, key);
        assert(unclaimed(images, renames, count - 1));
        let before = refiled(images, renames, count - 1);
        let after = refiled(images, renames, count);
        assert forall|i: int| 0 <= i < count && (#[trigger] renames[i]).1@ == key implies after.dom().contains(
            key,
        ) && after[key] == images[renames[i].0@] by {
            if i < count - 1 {
                assert(before.dom().contains(key));
                assert(renames[count - 1].1@ != key);
            }
        }
    }
}

/// Renaming moves each image to its new name and leaves the others where they are: nothing stays
/// under an old name but what was moved there, nothing is lost and nothing overwritten.
pub proof fn lemma_renames_move<V>(
    images: Map<Seq<char>, V>,
    renames: Seq<(String, String)>,
    key: Seq<char>,
)
    requires
        all_liftable(images, renames),
        forall|i: int| 0 <= i < renames.len() ==> #[trigger] unclaimed(images, renames, i),
    ensures
        ({
            let after = refiled(images, renames, renames.len() as int);
            &&& forall|i: int|
                0 <= i < renames.len() && (#[trigger] renames[i]).1@ == key
                    ==> after.dom().contains(key) && after[key] == images[renames[i].0@]
            &&& (forall|i: int|
                0 <= i < renames.len() ==> (#[trigger] renames[i]).0@ != key && renames[i].1@
                    != key) ==> (after.dom().contains(key) <==> images.dom().contains(key)) && (
            images.dom().contains(key) ==> after[key] == images[key])
            &&& (exists|i: int| 0 <= i < renames.len() && (#[trigger] renames[i]).0@ == key) && (
            forall|i: int| 0 <= i < renames.len() ==> (#[trigger] renames[i]).1@ != key)
                ==> !after.dom().contains(key)
            &&& forall|i: int|
                0 <= i < renames.len() && (#[trigger] renames[i]).0@ == key ==> images.dom().contains(
                    key,
                )
            &&& forall|i: int, j: int|
                0 <= i < j < renames.len() ==> (#[trigger] renames[i]).0@ != (
                #[trigger] renames[j]).0@ && renames[i].1@ != renames[j].1@
        }),
{
    let n = renames.len() as int;
    lemma_refiled_names(images, renames, n, key);
    lemma_lifted_names(images, renames, n, key);
    assert forall|i: int| 0 <= i < n && (#[trigger] renames[i]).0@ == key implies images.dom().contains(
        key,
    ) by {
        assert(liftable(images, renames, i));
        lemma_lifted_names(images, renames, i, key);
    }
    assert forall|i: int, j: int| 0 <= i < j < n implies (#[trigger] renames[i]).0@ != (
    #[trigger] renames[j]).0@ && renames[i].1@ != renames[j].1@ by {
        assert(liftable(images, renames, j));
        lemma_lifted_names(images, renames, j, renames[j].0@);
        assert(unclaimed(images, renames, j));
        lemma_refiled_names(images, renames, j, renames[j].1@);
    }
}

// ---------------------------------------------------------------------------------------------
// Pages
// ---------------------------------------------------------------------------------------------

/// Exactly the changed pages are built, with their frames; the others are carried under their
/// number.
pub proof fn lemma_changed_pages_built(pages: Seq<ReconciledPage>, p: int)
    requires
        0 <= p < pages.len(),
    ensures
        pages_work(pages).len() == pages.len(),
        pages[p].dirty ==> pages_work(pages)[p] == AtlasPagePublishPlan::Build(pages[p].page),
        !pages[p].dirty ==> pages_work(pages)[p] == (AtlasPagePublishPlan::Carry {
            page_id: pages[p].page.id,
        }),
{
}

/// As many pages are counted as built as are changed.
pub proof fn lemma_built_counted(pages: Seq<ReconciledPage>, end: int) -> (list: Seq<int>)
    requires
        0 <= end <= pages.len(),
    ensures
        picks(list, end, |p: int| pages[p].dirty),
        built_before(pages, end) == list.len(),
    decreases end,
{
    if end <= 0 {
        Seq::empty()
    } else {
        let before = lemma_built_counted(pages, end - 1);
        lemma_pick_next(before, end - 1, |p: int| pages[p].dirty);
        if pages[end - 1].dirty {
            before.push(end - 1)
        } else {
            before
        }
    }
}

/// The largest canvas is that of a page that is built, four bytes for each texel, and no page that
/// is built has a larger one.
pub proof fn lemma_largest_canvas(work: Seq<AtlasPagePublishPlan>, end: int)
    requires
        0 <= end <= work.len(),
    ensures
        forall|w: int|
            0 <= w < end ==> (#[trigger] work[w] matches AtlasPagePublishPlan::Build(page)
                ==> page.width * page.height * 4 <= largest_canvas(work, end) || largest_canvas(
                work,
                end,
            ) == u64::MAX),
        largest_canvas(work, end) > 0 ==> exists|w: int|
            0 <= w < end && #[trigger] is_canvas_of(work[w], largest_canvas(work, end)),
    decreases end,
{
    if end > 0 {
        lemma_largest_canvas(work, end - 1);
        let before = largest_canvas(work, end - 1);
        let now = largest_canvas(work, end);
        if now == before {
            if now > 0 {
                let w = choose|w: int| 0 <= w < end - 1 && #[trigger] is_canvas_of(work[w], before);
                assert(is_canvas_of(work[w], now));
            }
        } else {
            assert(is_canvas_of(work[end - 1], now));
        }
        assert forall|w: int| 0 <= w < end implies (#[trigger] work[w] matches
            AtlasPagePublishPlan::Build(page) ==> page.width * page.height * 4 <= now || now
            == u64::MAX) by {
            if w == end - 1 {
                if let Some(page) = built_page(work[w]) {
                    assert(canvas_bytes(page) == page.width * page.height * 4);
                }
            }
        }
    }
}

/// The work builds a page with a canvas of so many bytes.
pub open spec fn is_canvas_of(work: AtlasPagePublishPlan, bytes: u64) -> bool {
    work matches AtlasPagePublishPlan::Build(page) && (page.width * page.height * 4 == bytes || (
    bytes == u64::MAX && page.width * page.height * 4 >= u64::MAX))
}

/// A page is described with its size and with one frame for each slot on it, in order: the slot's
/// content, at its place, from the image of its provider.
pub proof fn lemma_pages_show_slots(
    cache: CachedAtlasFamily,
    dirty: Seq<bool>,
    pages: Seq<ReconciledPage>,
    p: int,
) -> (list: Seq<int>)
    requires
        describes_pages(cache, dirty, pages),
        0 <= p < pages.len(),
    ensures
        pages[p].page.width == cache.pages@[p].width,
        pages[p].page.height == cache.pages@[p].height,
        pages[p].page.id == p,
        pages[p].dirty == (p < dirty.len() && dirty[p]),
        picks(list, cache.slots@.len() as int, |s: int| cache.slots@[s].page_id == p),
        pages[p].page.frames@.len() == list.len(),
        forall|f: int|
            0 <= f < list.len() ==> shows_slot(
                #[trigger] pages[p].page.frames@[f],
                cache.slots@[list[f]],
            ),
{
    let list = lemma_frames_listed(cache.slots@, p, cache.slots@.len() as int);
    assert(cache.slots@.take(cache.slots@.len() as int) =~= cache.slots@);
    assert forall|f: int| 0 <= f < list.len() implies shows_slot(
        #[trigger] pages[p].page.frames@[f],
        cache.slots@[list[f]],
    ) by {
        assert(0 <= list[f]);
    }
    list
}

/// The frame shows the content of the slot at its place, from the image of its provider.
pub open spec fn shows_slot(frame: Frame, slot: CachedAtlasSlot) -> bool {
    &&& frame.key@ == slot.provider_key@
    &&& frame.frame.x == slot.destination.x && frame.frame.y == slot.destination.y
    &&& frame.frame.w == slot.destination.width && frame.frame.h == slot.destination.height
    &&& frame.source.x == slot.source.x && frame.source.y == slot.source.y
    &&& frame.source.w == slot.source.width && frame.source.h == slot.source.height
    &&& frame.source_size.0 == slot.source_size@[0] && frame.source_size.1 == slot.source_size@[1]
    &&& frame.rotated == slot.rotated && frame.trimmed == slot.trimmed
}

proof fn lemma_frames_listed(slots: Seq<CachedAtlasSlot>, p: int, end: int) -> (list: Seq<int>)
    requires
        0 <= end <= slots.len(),
    ensures
        picks(list, end, |s: int| slots[s].page_id == p),
        frames_on_page(slots.take(end), p).len() == list.len(),
        forall|f: int|
            0 <= f < list.len() ==> 0 <= #[trigger] list[f] < end && shows_slot(
                frames_on_page(slots.take(end), p)[f],
                slots[list[f]],
            ),
    decreases end,
{
    if end <= 0 {
        Seq::empty()
    } else {
        let before = lemma_frames_listed(slots, p, end - 1);
        lemma_pick_next(before, end - 1, |s: int| slots[s].page_id == p);
        assert(slots.take(end).drop_last() =~= slots.take(end - 1));
        let frames = frames_on_page(slots.take(end), p);
        let earlier = frames_on_page(slots.take(end - 1), p);
        let list = if slots[end - 1].page_id == p {
            before.push(end - 1)
        } else {
            before
        };
        assert forall|f: int| 0 <= f < list.len() implies 0 <= #[trigger] list[f] < end && shows_slot(
            frames[f],
            slots[list[f]],
        ) by {
            if f < before.len() {
                assert(list[f] == before[f]);
                assert(frames[f] == earlier[f]);
            } else {
                assert(frames[f] == frame_of_slot(slots[end - 1]));
            }
        }
        list
    }
}

/// Committed paths are shared out: each family gets exactly those that name its pages, in order.
pub proof fn lemma_paths_shared_out(paths: Seq<String>, domain: AtlasDomain, end: int) -> (list: Seq<
    int,
>)
    requires
        0 <= end <= paths.len(),
    ensures
        picks(list, end, |i: int| is_page_path(paths[i]@, domain)),
        paths_of_domain(paths.take(end), domain) == list.map_values(|i: int| paths[i]),
    decreases end,
{
    if end <= 0 {
        assert(paths_of_domain(paths.take(end), domain) =~= Seq::<int>::empty().map_values(
            |i: int| paths[i],
        ));
        Seq::empty()
    } else {
        let before = lemma_paths_shared_out(paths, domain, end - 1);
        lemma_pick_next(before, end - 1, |i: int| is_page_path(paths[i]@, domain));
        assert(paths.take(end).drop_last() =~= paths.take(end - 1));
        let list = if is_page_path(paths[end - 1]@, domain) {
            before.push(end - 1)
        } else {
            before
        };
        assert(paths_of_domain(paths.take(end), domain) =~= list.map_values(|i: int| paths[i]));
        list
    }
}

// ---------------------------------------------------------------------------------------------
// Totals
// ---------------------------------------------------------------------------------------------

/// One more slot adds its own area, and one more page its own.
pub proof fn lemma_totals_add(
    slots: Seq<CachedAtlasSlot>,
    slot: CachedAtlasSlot,
    pages: Seq<CachedAtlasPage>,
    page: CachedAtlasPage,
)
    ensures
        active_total(slots.push(slot)) == active_total(slots) + slot.destination.width
            * slot.destination.height,
        reserved_total(slots.push(slot)) == reserved_total(slots) + slot.reserved_rect.width
            * slot.reserved_rect.height,
        page_total(pages.push(page)) == page_total(pages) + page.width * page.height,
        active_total(Seq::empty()) == 0,
        reserved_total(Seq::empty()) == 0,
        page_total(Seq::empty()) == 0,
{
    assert(slots.push(slot).drop_last() =~= slots);
    assert(pages.push(page).drop_last() =~= pages);
}

/// One more page adds the area within its borders.
pub proof fn lemma_usable_adds(
    pages: Seq<CachedAtlasPage>,
    page: CachedAtlasPage,
    border: u32,
    before: int,
    after: int,
)
    requires
        usable_total(pages, border) == Ok::<int, AtlasError>(before),
        usable_total(pages.push(page), border) == Ok::<int, AtlasError>(after),
    ensures
        after == before + (page.width - 2 * border) * (page.height - 2 * border),
{
    assert(pages.push(page).drop_last() =~= pages);
    let usable = interior(page.width, page.height, border)->Ok_0;
    assert(usable.width == page.width - 2 * border);
    assert(usable.height == page.height - 2 * border);
}

proof fn lemma_totals_positive(
    slots: Seq<CachedAtlasSlot>,
    pages: Seq<CachedAtlasPage>,
    border: u32,
)
    ensures
        active_total(slots) >= 0,
        reserved_total(slots) >= 0,
        page_total(pages) >= 0,
        usable_total(pages, border) matches Ok(sum) ==> 0 <= sum <= u64::MAX,
    decreases slots.len() + pages.len(),
{
    if slots.len() > 0 {
        lemma_totals_positive(slots.drop_last(), pages, border);
        let slot = slots.last();
        assert(slot.destination.width * slot.destination.height >= 0 && slot.reserved_rect.width
            * slot.reserved_rect.height >= 0) by (nonlinear_arith)
            requires
                slot.destination.width >= 0,
                slot.destination.height >= 0,
                slot.reserved_rect.width >= 0,
                slot.reserved_rect.height >= 0,
        ;
    } else if pages.len() > 0 {
        lemma_totals_positive(slots, pages.drop_last(), border);
        let page = pages.last();
        assert(page.width * page.height >= 0) by (nonlinear_arith)
            requires
                page.width >= 0,
                page.height >= 0,
        ;
        if let Ok(usable) = interior(page.width, page.height, border) {
            assert(usable.width * usable.height >= 0) by (nonlinear_arith)
                requires
                    usable.width >= 0,
                    usable.height >= 0,
            ;
        }
    }
}

/// The totals are those of the slots and pages, and the fragmentation is the free share of the
/// usable area in millionths, rounded down.
pub proof fn lemma_stats_mean(
    family: CachedAtlasFamily,
    shared: AtlasSharedConfig,
    r: AtlasAllocationStats,
)
    requires
        stats_of(family, shared) == Ok::<AtlasAllocationStats, AtlasError>(r),
        r.usable_page_area > 0,
    ensures
        r.active_area == active_total(family.slots@),
        r.reserved_area == reserved_total(family.slots@),
        r.page_area == page_total(family.pages@),
        r.reserved_area <= r.usable_page_area,
        r.fragmentation_ppm * r.usable_page_area <= (r.usable_page_area - r.reserved_area)
            * 1_000_000 < (r.fragmentation_ppm + 1) * r.usable_page_area,
{
    let usable = r.usable_page_area as int;
    let free = (usable - r.reserved_area) * 1_000_000;
    lemma_totals_positive(family.slots@, family.pages@, shared.border_padding);
    assert(usable_total(family.pages@, shared.border_padding)->Ok_0 == usable);
    assert(reserved_total(family.slots@) == r.reserved_area);
    assert(free / usable <= 1_000_000 && 0 <= free / usable) by (nonlinear_arith)
        requires
            usable > 0,
            0 <= free <= usable * 1_000_000,
    ;
    assert(r.fragmentation_ppm == free / usable);
    assert(free / usable * usable <= free < (free / usable + 1) * usable) by (nonlinear_arith)
        requires
            usable > 0,
            0 <= free,
    ;
}

} // verus!
