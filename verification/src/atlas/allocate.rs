//! Allocation of one atlas family: slots, pages, key relations, and area totals.

use crate::atlas::error::AtlasError;
use crate::atlas::rect::{area, interior, lemma_u32_product, usable_rect};
use crate::atlas::slot::{as_packed, restored_rect};
use crate::atlas::types::{
    AtlasSharedConfig, CachedAtlasFamily, CachedAtlasPage, CachedAtlasSlot, Frame, Page,
};
use crate::atlas::uv::FrameMap;
use vstd::prelude::*;

verus! {

/// A page with whether it must be composed anew.
#[derive(Debug)]
pub struct ReconciledPage {
    pub page: Page,
    pub dirty: bool,
}

/// Slot, page, and area totals of one allocation.
#[derive(Clone, Copy, Debug, PartialEq, Eq, Structural)]
pub struct AtlasAllocationStats {
    pub retained_slots: usize,
    pub allocated_slots: usize,
    pub freed_slots: usize,
    pub relocated_slots: usize,
    pub provider_promoted_slots: usize,
    pub active_area: u64,
    pub reserved_area: u64,
    pub page_area: u64,
    pub usable_page_area: u64,
    pub fragmentation_ppm: u32,
    pub appended_pages: usize,
    pub retained_empty_pages: usize,
    pub truncated_pages: usize,
}

/// All totals zero.
pub open spec fn zero_stats() -> AtlasAllocationStats {
    AtlasAllocationStats {
        retained_slots: 0,
        allocated_slots: 0,
        freed_slots: 0,
        relocated_slots: 0,
        provider_promoted_slots: 0,
        active_area: 0,
        reserved_area: 0,
        page_area: 0,
        usable_page_area: 0,
        fragmentation_ppm: 0,
        appended_pages: 0,
        retained_empty_pages: 0,
        truncated_pages: 0,
    }
}

impl Default for AtlasAllocationStats {
    fn default() -> (r: Self)
        ensures
            r == zero_stats(),
    {
        AtlasAllocationStats {
            retained_slots: 0,
            allocated_slots: 0,
            freed_slots: 0,
            relocated_slots: 0,
            provider_promoted_slots: 0,
            active_area: 0,
            reserved_area: 0,
            page_area: 0,
            usable_page_area: 0,
            fragmentation_ppm: 0,
            appended_pages: 0,
            retained_empty_pages: 0,
            truncated_pages: 0,
        }
    }
}

/// A family's evidence with what its publication needs.
pub struct AllocatedAtlasFamily {
    pub cache: CachedAtlasFamily,
    pub bindings: FrameMap,
    pub pages: Vec<ReconciledPage>,
    /// Prepared-image keys to rename before composing pages, as `(prepared key, provider key)`.
    ///
    /// Frames are keyed by the slot's provider, so a retained slot that keeps a provider other
    /// than its group's prepared key leaves the prepared image filed under the wrong name. Only
    /// reconciliation can produce these; a fresh pack always provides under the prepared key.
    pub provider_renames: Vec<(String, String)>,
    pub stats: AtlasAllocationStats,
}

// ---------------------------------------------------------------------------------------------
// Area totals
// ---------------------------------------------------------------------------------------------

/// Sum of the visible areas.
pub open spec fn active_total(slots: Seq<CachedAtlasSlot>) -> int
    decreases slots.len(),
{
    if slots.len() == 0 {
        0
    } else {
        active_total(slots.drop_last()) + slots.last().destination.spec_area()
    }
}

/// Sum of the reserved areas.
pub open spec fn reserved_total(slots: Seq<CachedAtlasSlot>) -> int
    decreases slots.len(),
{
    if slots.len() == 0 {
        0
    } else {
        reserved_total(slots.drop_last()) + slots.last().reserved_rect.spec_area()
    }
}

/// Sum of the page areas.
pub open spec fn page_total(pages: Seq<CachedAtlasPage>) -> int
    decreases pages.len(),
{
    if pages.len() == 0 {
        0
    } else {
        page_total(pages.drop_last()) + pages.last().width * pages.last().height
    }
}

/// Sum of the interior areas, or what prevents it.
pub open spec fn usable_total(pages: Seq<CachedAtlasPage>, border: u32) -> Result<int, AtlasError>
    decreases pages.len(),
{
    if pages.len() == 0 {
        Ok(0)
    } else {
        match usable_total(pages.drop_last(), border) {
            Err(e) => Err(e),
            Ok(sum) => match interior(pages.last().width, pages.last().height, border) {
                Err(e) => Err(e),
                Ok(usable) => if sum + usable.spec_area() > u64::MAX {
                    Err(AtlasError::UsableAreaOverflow)
                } else {
                    Ok(sum + usable.spec_area())
                },
            },
        }
    }
}

/// Area totals of a family, or the first that cannot be formed.
pub open spec fn stats_of(family: CachedAtlasFamily, shared: AtlasSharedConfig) -> Result<
    AtlasAllocationStats,
    AtlasError,
> {
    let active = active_total(family.slots@);
    let reserved = reserved_total(family.slots@);
    let pages = page_total(family.pages@);
    if active > u64::MAX {
        Err(AtlasError::ActiveAreaOverflow)
    } else if reserved > u64::MAX {
        Err(AtlasError::ReservedAreaOverflow)
    } else if pages > u64::MAX {
        Err(AtlasError::PageAreaOverflow)
    } else {
        match usable_total(family.pages@, shared.border_padding) {
            Err(e) => Err(e),
            Ok(usable) => if reserved > usable {
                Err(AtlasError::ReservedExceedsUsable)
            } else if (usable - reserved) * 1_000_000 > u64::MAX {
                Err(AtlasError::FragmentationOverflow)
            } else {
                Ok(
                    AtlasAllocationStats {
                        active_area: active as u64,
                        reserved_area: reserved as u64,
                        page_area: pages as u64,
                        usable_page_area: usable as u64,
                        fragmentation_ppm: if usable == 0 {
                            0
                        } else {
                            ((usable - reserved) * 1_000_000 / usable) as u32
                        },
                        ..zero_stats()
                    },
                )
            },
        }
    }
}

proof fn lemma_active_prefix(slots: Seq<CachedAtlasSlot>, i: int)
    requires
        0 <= i <= slots.len(),
    ensures
        0 <= active_total(slots.take(i)) <= active_total(slots),
    decreases slots.len(),
{
    if i == slots.len() {
        assert(slots.take(i) =~= slots);
        if slots.len() > 0 {
            lemma_active_prefix(slots.drop_last(), slots.len() - 1);
            assert(slots.drop_last().take(slots.len() - 1) =~= slots.drop_last());
            lemma_u32_product(slots.last().destination.width, slots.last().destination.height);
        }
    } else {
        lemma_active_prefix(slots.drop_last(), i);
        assert(slots.drop_last().take(i) =~= slots.take(i));
        lemma_u32_product(slots.last().destination.width, slots.last().destination.height);
    }
}

proof fn lemma_reserved_prefix(slots: Seq<CachedAtlasSlot>, i: int)
    requires
        0 <= i <= slots.len(),
    ensures
        0 <= reserved_total(slots.take(i)) <= reserved_total(slots),
    decreases slots.len(),
{
    if i == slots.len() {
        assert(slots.take(i) =~= slots);
        if slots.len() > 0 {
            lemma_reserved_prefix(slots.drop_last(), slots.len() - 1);
            assert(slots.drop_last().take(slots.len() - 1) =~= slots.drop_last());
            lemma_u32_product(slots.last().reserved_rect.width, slots.last().reserved_rect.height);
        }
    } else {
        lemma_reserved_prefix(slots.drop_last(), i);
        assert(slots.drop_last().take(i) =~= slots.take(i));
        lemma_u32_product(slots.last().reserved_rect.width, slots.last().reserved_rect.height);
    }
}

proof fn lemma_page_prefix(pages: Seq<CachedAtlasPage>, i: int)
    requires
        0 <= i <= pages.len(),
    ensures
        0 <= page_total(pages.take(i)) <= page_total(pages),
    decreases pages.len(),
{
    if i == pages.len() {
        assert(pages.take(i) =~= pages);
        if pages.len() > 0 {
            lemma_page_prefix(pages.drop_last(), pages.len() - 1);
            assert(pages.drop_last().take(pages.len() - 1) =~= pages.drop_last());
            lemma_u32_product(pages.last().width, pages.last().height);
        }
    } else {
        lemma_page_prefix(pages.drop_last(), i);
        assert(pages.drop_last().take(i) =~= pages.take(i));
        lemma_u32_product(pages.last().width, pages.last().height);
    }
}

fn sum_active(slots: &[CachedAtlasSlot]) -> (r: Option<u64>)
    ensures
        r is Some <==> active_total(slots@) <= u64::MAX,
        r is Some ==> r->0 == active_total(slots@),
{
    let mut sum: u64 = 0;
    let mut i: usize = 0;
    while i < slots.len()
        invariant
            i <= slots.len(),
            sum == active_total(slots@.take(i as int)),
        decreases slots.len() - i,
    {
        proof {
            assert(slots@.take(i + 1).drop_last() =~= slots@.take(i as int));
            assert(slots@.take(i + 1).last() == slots@[i as int]);
            lemma_active_prefix(slots@, i + 1);
        }
        sum = match sum.checked_add(area(slots[i].destination)) {
            Some(next) => next,
            None => {
                return None;
            },
        };
        i = i + 1;
    }
    assert(slots@.take(i as int) =~= slots@);
    Some(sum)
}

fn sum_reserved(slots: &[CachedAtlasSlot]) -> (r: Option<u64>)
    ensures
        r is Some <==> reserved_total(slots@) <= u64::MAX,
        r is Some ==> r->0 == reserved_total(slots@),
{
    let mut sum: u64 = 0;
    let mut i: usize = 0;
    while i < slots.len()
        invariant
            i <= slots.len(),
            sum == reserved_total(slots@.take(i as int)),
        decreases slots.len() - i,
    {
        proof {
            assert(slots@.take(i + 1).drop_last() =~= slots@.take(i as int));
            assert(slots@.take(i + 1).last() == slots@[i as int]);
            lemma_reserved_prefix(slots@, i + 1);
        }
        sum = match sum.checked_add(area(slots[i].reserved_rect)) {
            Some(next) => next,
            None => {
                return None;
            },
        };
        i = i + 1;
    }
    assert(slots@.take(i as int) =~= slots@);
    Some(sum)
}

fn sum_pages(pages: &[CachedAtlasPage]) -> (r: Option<u64>)
    ensures
        r is Some <==> page_total(pages@) <= u64::MAX,
        r is Some ==> r->0 == page_total(pages@),
{
    let mut sum: u64 = 0;
    let mut i: usize = 0;
    while i < pages.len()
        invariant
            i <= pages.len(),
            sum == page_total(pages@.take(i as int)),
        decreases pages.len() - i,
    {
        let page = pages[i];
        proof {
            assert(pages@.take(i + 1).drop_last() =~= pages@.take(i as int));
            assert(pages@.take(i + 1).last() == pages@[i as int]);
            lemma_page_prefix(pages@, i + 1);
            lemma_u32_product(page.width, page.height);
        }
        sum = match sum.checked_add(page.width as u64 * page.height as u64) {
            Some(next) => next,
            None => {
                return None;
            },
        };
        i = i + 1;
    }
    assert(pages@.take(i as int) =~= pages@);
    Some(sum)
}

proof fn lemma_usable_error(pages: Seq<CachedAtlasPage>, i: int, border: u32)
    requires
        0 <= i <= pages.len(),
        usable_total(pages.take(i), border) is Err,
    ensures
        usable_total(pages, border) == usable_total(pages.take(i), border),
    decreases pages.len() - i,
{
    if i < pages.len() {
        assert(pages.take(i + 1).drop_last() =~= pages.take(i));
        lemma_usable_error(pages, i + 1, border);
    } else {
        assert(pages.take(i) =~= pages);
    }
}

fn sum_usable(pages: &[CachedAtlasPage], border: u32) -> (r: Result<u64, AtlasError>)
    ensures
        match r {
            Ok(sum) => usable_total(pages@, border) == Ok::<int, AtlasError>(sum as int),
            Err(e) => usable_total(pages@, border) == Err::<int, AtlasError>(e),
        },
{
    let mut sum: u64 = 0;
    let mut i: usize = 0;
    while i < pages.len()
        invariant
            i <= pages.len(),
            usable_total(pages@.take(i as int), border) == Ok::<int, AtlasError>(sum as int),
        decreases pages.len() - i,
    {
        let page = pages[i];
        proof {
            assert(pages@.take(i + 1).drop_last() =~= pages@.take(i as int));
            assert(pages@.take(i + 1).last() == pages@[i as int]);
        }
        let usable = match usable_rect(page.width, page.height, border) {
            Ok(usable) => usable,
            Err(e) => {
                proof {
                    lemma_usable_error(pages@, i + 1, border);
                }
                return Err(e);
            },
        };
        sum = match sum.checked_add(area(usable)) {
            Some(next) => next,
            None => {
                proof {
                    lemma_usable_error(pages@, i + 1, border);
                }
                return Err(AtlasError::UsableAreaOverflow);
            },
        };
        i = i + 1;
    }
    assert(pages@.take(i as int) =~= pages@);
    Ok(sum)
}

/// Totals the areas of a family.
pub fn allocation_stats(family: &CachedAtlasFamily, shared: &AtlasSharedConfig) -> (r: Result<
    AtlasAllocationStats,
    AtlasError,
>)
    ensures
        r == stats_of(*family, *shared),
{
    let active_area: u64 = match sum_active(&family.slots) {
        Some(sum) => sum,
        None => {
            return Err(AtlasError::ActiveAreaOverflow);
        },
    };
    let reserved_area: u64 = match sum_reserved(&family.slots) {
        Some(sum) => sum,
        None => {
            return Err(AtlasError::ReservedAreaOverflow);
        },
    };
    let page_area: u64 = match sum_pages(&family.pages) {
        Some(sum) => sum,
        None => {
            return Err(AtlasError::PageAreaOverflow);
        },
    };
    let usable_page_area: u64 = match sum_usable(&family.pages, shared.border_padding) {
        Ok(sum) => sum,
        Err(e) => {
            return Err(e);
        },
    };
    if reserved_area > usable_page_area {
        return Err(AtlasError::ReservedExceedsUsable);
    }
    let numerator: u64 = match (usable_page_area - reserved_area).checked_mul(1_000_000) {
        Some(numerator) => numerator,
        None => {
            return Err(AtlasError::FragmentationOverflow);
        },
    };
    let fragmentation_ppm: u32 = if usable_page_area == 0 {
        0
    } else {
        let share: u64 = numerator / usable_page_area;
        proof {
            assert(share <= 1_000_000) by (nonlinear_arith)
                requires
                    usable_page_area > 0,
                    numerator == (usable_page_area - reserved_area) * 1_000_000,
                    share == numerator / usable_page_area,
                    reserved_area <= usable_page_area,
            ;
        }
        share as u32
    };
    Ok(
        AtlasAllocationStats {
            active_area,
            reserved_area,
            page_area,
            usable_page_area,
            fragmentation_ppm,
            ..AtlasAllocationStats::default()
        },
    )
}

// ---------------------------------------------------------------------------------------------
// Pages
// ---------------------------------------------------------------------------------------------

/// The frame that a slot is composed into.
pub open spec fn frame_of_slot(slot: CachedAtlasSlot) -> Frame {
    Frame {
        key: slot.provider_key,
        frame: as_packed(slot.destination),
        rotated: slot.rotated,
        trimmed: slot.trimmed,
        source: as_packed(slot.source),
        source_size: (slot.source_size@[0], slot.source_size@[1]),
    }
}

/// Frames of the slots on a page, in slot order.
pub open spec fn frames_on_page(slots: Seq<CachedAtlasSlot>, page_id: int) -> Seq<Frame>
    decreases slots.len(),
{
    if slots.len() == 0 {
        Seq::empty()
    } else {
        let before = frames_on_page(slots.drop_last(), page_id);
        if slots.last().page_id == page_id {
            before.push(frame_of_slot(slots.last()))
        } else {
            before
        }
    }
}

/// The page is marked.
pub open spec fn is_marked(marks: Seq<bool>, page_id: int) -> bool {
    0 <= page_id < marks.len() && marks[page_id]
}

/// The pages that a family's evidence describes, with the marked ones to be composed anew.
pub open spec fn describes_pages(
    cache: CachedAtlasFamily,
    dirty: Seq<bool>,
    pages: Seq<ReconciledPage>,
) -> bool {
    &&& pages.len() == cache.pages@.len()
    &&& forall|p: int|
        0 <= p < pages.len() ==> {
            &&& (#[trigger] pages[p]).page.id == p
            &&& pages[p].page.width == cache.pages@[p].width
            &&& pages[p].page.height == cache.pages@[p].height
            &&& pages[p].page.frames@ == frames_on_page(cache.slots@, p)
            &&& pages[p].dirty == is_marked(dirty, p)
        }
}

fn page_frames(slots: &[CachedAtlasSlot], page_id: usize) -> (frames: Vec<Frame>)
    ensures
        frames@ == frames_on_page(slots@, page_id as int),
{
    let mut frames: Vec<Frame> = Vec::new();
    let mut i: usize = 0;
    while i < slots.len()
        invariant
            i <= slots.len(),
            frames@ == frames_on_page(slots@.take(i as int), page_id as int),
        decreases slots.len() - i,
    {
        let slot = &slots[i];
        proof {
            assert(slots@.take(i + 1).drop_last() =~= slots@.take(i as int));
            assert(slots@.take(i + 1).last() == slots@[i as int]);
        }
        if slot.page_id as usize == page_id {
            let size: [u32; 2] = slot.source_size;
            frames.push(
                Frame {
                    key: slot.provider_key.clone(),
                    frame: restored_rect(slot.destination),
                    rotated: slot.rotated,
                    trimmed: slot.trimmed,
                    source: restored_rect(slot.source),
                    source_size: (size[0], size[1]),
                },
            );
        }
        i = i + 1;
    }
    assert(slots@.take(i as int) =~= slots@);
    frames
}

/// Rebuilds the pages of a family from its evidence.
pub fn pages_from_cache(cache: &CachedAtlasFamily, dirty: &[bool]) -> (pages: Vec<ReconciledPage>)
    ensures
        describes_pages(*cache, dirty@, pages@),
{
    let mut pages: Vec<ReconciledPage> = Vec::new();
    let mut p: usize = 0;
    while p < cache.pages.len()
        invariant
            p <= cache.pages@.len(),
            pages@.len() == p,
            forall|q: int|
                0 <= q < p ==> {
                    &&& (#[trigger] pages@[q]).page.id == q
                    &&& pages@[q].page.width == cache.pages@[q].width
                    &&& pages@[q].page.height == cache.pages@[q].height
                    &&& pages@[q].page.frames@ == frames_on_page(cache.slots@, q)
                    &&& pages@[q].dirty == is_marked(dirty@, q)
                },
        decreases cache.pages@.len() - p,
    {
        let page = cache.pages[p];
        pages.push(
            ReconciledPage {
                page: Page {
                    id: p,
                    width: page.width,
                    height: page.height,
                    frames: page_frames(&cache.slots, p),
                },
                dirty: p < dirty.len() && dirty[p],
            },
        );
        p = p + 1;
    }
    pages
}

} // verus!
