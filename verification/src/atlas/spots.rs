//! Free page area for groups without a prior slot.

use crate::atlas::error::AtlasError;
use crate::atlas::freelist::{
    has_room, is_best_score, is_seeded, is_subtracted, within_one, FitScore, SeededFreeList,
};
use crate::atlas::group::PreparedAtlasGroup;
use crate::atlas::rect::{interior, CachedAtlasRect};
use crate::atlas::slot::{
    fill_slot, reservation_area, reservation_dimensions, reserved_size, slot_failure,
    slot_holds_item, spec_reservation_area,
};
use crate::atlas::types::{AtlasSharedConfig, CachedAtlasPage, CachedAtlasSlot};
use crate::sort::{ranked, sort_ranked, Ranked};
use crate::text::{lemma_text_order, lemma_text_transitive, str_le, text_le};
use vstd::prelude::*;

verus! {

// ---------------------------------------------------------------------------------------------
// Seeding
// ---------------------------------------------------------------------------------------------

/// Identities and reservations of the slots on a page, in slot order.
pub open spec fn occupied_on(slots: Seq<CachedAtlasSlot>, page_id: int) -> Seq<
    (u64, CachedAtlasRect),
>
    decreases slots.len(),
{
    if slots.len() == 0 {
        Seq::empty()
    } else {
        let before = occupied_on(slots.drop_last(), page_id);
        if slots.last().page_id == page_id {
            before.push((slots.last().slot_id, slots.last().reserved_rect))
        } else {
            before
        }
    }
}

/// `free` is what the occupied reservations leave of the page interior.
pub open spec fn page_seeded(
    page: CachedAtlasPage,
    border: u32,
    occupied: Seq<(u64, CachedAtlasRect)>,
    free: Seq<CachedAtlasRect>,
) -> bool {
    &&& interior(page.width, page.height, border) is Ok
    &&& forall|i: int|
        0 <= i < occupied.len() ==> (#[trigger] occupied[i]).1.fits() && interior(
            page.width,
            page.height,
            border,
        )->Ok_0.encloses(occupied[i].1)
    &&& exists|sorted: Seq<(u64, CachedAtlasRect)>|
        {
            &&& #[trigger] ranked(sorted)
            &&& sorted.to_multiset() == occupied.to_multiset()
            &&& is_seeded(interior(page.width, page.height, border)->Ok_0, sorted, free)
        }
}

/// Seeding the page stops with `error`.
pub open spec fn seeding_fails(
    page: CachedAtlasPage,
    border: u32,
    occupied: Seq<(u64, CachedAtlasRect)>,
    error: AtlasError,
) -> bool {
    match interior(page.width, page.height, border) {
        Err(e) => error == e,
        Ok(usable) => {
            &&& error == AtlasError::OccupiedOutsideInterior
            &&& exists|i: int|
                0 <= i < occupied.len() && !((#[trigger] occupied[i]).1.fits() && usable.encloses(
                    occupied[i].1,
                ))
        },
    }
}

/// The free areas of the pages.
pub open spec fn free_areas(lists: Seq<SeededFreeList>) -> Seq<Seq<CachedAtlasRect>> {
    lists.map_values(|list: SeededFreeList| list.free@)
}

/// Every free list is well formed.
pub open spec fn all_wf(lists: Seq<SeededFreeList>) -> bool {
    forall|p: int| 0 <= p < lists.len() ==> (#[trigger] lists[p]).wf()
}

/// `free` holds the seeded free area of every page.
pub open spec fn pages_seeded(
    pages: Seq<CachedAtlasPage>,
    slots: Seq<CachedAtlasSlot>,
    border: u32,
    free: Seq<Seq<CachedAtlasRect>>,
) -> bool {
    &&& free.len() == pages.len()
    &&& forall|p: int|
        0 <= p < pages.len() ==> page_seeded(
            pages[p],
            border,
            occupied_on(slots, p),
            #[trigger] free[p],
        )
}

/// Some page is the first that cannot be seeded.
pub open spec fn seeding_pages_fails(
    pages: Seq<CachedAtlasPage>,
    slots: Seq<CachedAtlasSlot>,
    border: u32,
    error: AtlasError,
) -> bool {
    exists|p: int|
        0 <= p < pages.len() && seeding_fails(
            #[trigger] pages[p],
            border,
            occupied_on(slots, p),
            error,
        )
}

fn collect_occupied(slots: &[CachedAtlasSlot], page_id: usize) -> (occupied: Vec<
    (u64, CachedAtlasRect),
>)
    ensures
        occupied@ == occupied_on(slots@, page_id as int),
{
    let mut occupied: Vec<(u64, CachedAtlasRect)> = Vec::new();
    let mut i: usize = 0;
    while i < slots.len()
        invariant
            i <= slots@.len(),
            occupied@ == occupied_on(slots@.take(i as int), page_id as int),
        decreases slots@.len() - i,
    {
        proof {
            assert(slots@.take(i + 1).drop_last() =~= slots@.take(i as int));
            assert(slots@.take(i + 1).last() == slots@[i as int]);
        }
        if slots[i].page_id as usize == page_id {
            occupied.push((slots[i].slot_id, slots[i].reserved_rect));
        }
        i = i + 1;
    }
    assert(slots@.take(i as int) =~= slots@);
    occupied
}

/// Finds what the slots leave free on every page.
pub fn seed_pages(pages: &[CachedAtlasPage], slots: &[CachedAtlasSlot], border: u32) -> (r: Result<
    Vec<SeededFreeList>,
    AtlasError,
>)
    ensures
        match r {
            Ok(lists) => all_wf(lists@) && pages_seeded(
                pages@,
                slots@,
                border,
                free_areas(lists@),
            ),
            Err(e) => seeding_pages_fails(pages@, slots@, border, e),
        },
{
    let mut lists: Vec<SeededFreeList> = Vec::new();
    let mut p: usize = 0;
    while p < pages.len()
        invariant
            p <= pages@.len(),
            lists@.len() == p,
            all_wf(lists@),
            forall|q: int|
                0 <= q < p ==> page_seeded(
                    pages@[q],
                    border,
                    occupied_on(slots@, q),
                    (#[trigger] lists@[q]).free@,
                ),
        decreases pages@.len() - p,
    {
        let page = pages[p];
        let occupied = collect_occupied(slots, p);
        match SeededFreeList::new(page.width, page.height, border, &occupied) {
            Ok(list) => {
                assert(page_seeded(page, border, occupied@, list.free@));
                lists.push(list);
            },
            Err(e) => {
                assert(seeding_fails(page, border, occupied@, e));
                assert(pages@[p as int] == page);
                return Err(e);
            },
        }
        p = p + 1;
    }
    proof {
        assert forall|q: int| 0 <= q < pages@.len() implies page_seeded(
            pages@[q],
            border,
            occupied_on(slots@, q),
            #[trigger] free_areas(lists@)[q],
        ) by {
            assert(free_areas(lists@)[q] == lists@[q].free@);
        }
    }
    Ok(lists)
}

// ---------------------------------------------------------------------------------------------
// Order
// ---------------------------------------------------------------------------------------------

/// A group to be placed, with what decides its turn.
pub struct Candidate {
    pub area: u64,
    pub key: String,
    pub index: usize,
}

/// Large reservations go first, then groups early in key order.
impl Ranked for Candidate {
    open spec fn ranks_le(self, other: Self) -> bool {
        if self.area != other.area {
            self.area > other.area
        } else {
            text_le(self.key@, other.key@)
        }
    }

    proof fn rank_total(a: Self, b: Self) {
        lemma_text_order(a.key@, b.key@);
    }

    proof fn rank_transitive(a: Self, b: Self, c: Self) {
        if a.area == b.area && b.area == c.area {
            lemma_text_transitive(a.key@, b.key@, c.key@);
        }
    }

    fn rank_le(&self, other: &Self) -> (r: bool) {
        if self.area != other.area {
            self.area > other.area
        } else {
            str_le(self.key.as_str(), other.key.as_str())
        }
    }
}

/// Group `a` is placed no later than group `b`.
pub open spec fn goes_before(
    a: PreparedAtlasGroup,
    b: PreparedAtlasGroup,
    shared: AtlasSharedConfig,
) -> bool {
    let left = spec_reservation_area(a.item, shared);
    let right = spec_reservation_area(b.item, shared);
    left > right || (left == right && text_le(a.group_key@, b.group_key@))
}

/// `order` lists the groups without a prior slot in the order in which they are placed.
pub open spec fn is_placing_order(
    groups: Seq<PreparedAtlasGroup>,
    claims: Seq<Option<usize>>,
    shared: AtlasSharedConfig,
    order: Seq<usize>,
) -> bool {
    &&& order.no_duplicates()
    &&& forall|g: usize| #[trigger]
        order.contains(g) <==> g < groups.len() && claims[g as int] is None
    &&& forall|i: int, j: int|
        0 <= i < j < order.len() ==> goes_before(
            groups[#[trigger] order[i] as int],
            groups[#[trigger] order[j] as int],
            shared,
        )
}

spec fn candidate_of(
    groups: Seq<PreparedAtlasGroup>,
    shared: AtlasSharedConfig,
    candidate: Candidate,
) -> bool {
    &&& candidate.index < groups.len()
    &&& candidate.area == spec_reservation_area(groups[candidate.index as int].item, shared)
    &&& candidate.key == groups[candidate.index as int].group_key
}

/// Orders the groups without a prior slot: larger reservations first, then by group key.
pub fn order_unmatched(
    groups: &[PreparedAtlasGroup],
    claims: &[Option<usize>],
    shared: &AtlasSharedConfig,
) -> (order: Vec<usize>)
    requires
        claims@.len() == groups@.len(),
    ensures
        is_placing_order(groups@, claims@, *shared, order@),
{
    let mut list: Vec<Candidate> = Vec::new();
    let mut g: usize = 0;
    while g < groups.len()
        invariant
            g <= groups@.len(),
            claims@.len() == groups@.len(),
            forall|i: int|
                0 <= i < list@.len() ==> candidate_of(groups@, *shared, #[trigger] list@[i])
                    && list@[i].index < g && claims@[list@[i].index as int] is None,
            forall|i: int, j: int|
                0 <= i < j < list@.len() ==> (#[trigger] list@[i]).index < (
                #[trigger] list@[j]).index,
            forall|h: int|
                0 <= h < g && (#[trigger] claims@[h]) is None ==> lists_index(list@, h as usize),
        decreases groups@.len() - g,
    {
        if claims[g].is_none() {
            let ghost before = list@;
            list.push(
                Candidate {
                    area: reservation_area(&groups[g].item, shared),
                    key: groups[g].group_key.clone(),
                    index: g,
                },
            );
            proof {
                assert(list@[before.len() as int].index == g);
                assert forall|h: usize| lists_index(before, h) implies lists_index(list@, h) by {
                    let i = choose|i: int|
                        0 <= i < before.len() && (#[trigger] before[i]).index == h;
                    assert(list@[i].index == h);
                }
            }
        }
        g = g + 1;
    }
    let ghost source = list@;
    proof {
        assert forall|i: int, j: int|
            0 <= i < source.len() && 0 <= j < source.len() && i != j implies source[i]
            != source[j] by {
            if i < j {
                assert(source[i].index < source[j].index);
            } else {
                assert(source[j].index < source[i].index);
            }
        }
        assert(source.no_duplicates());
    }
    let sorted = sort_ranked(list);
    let mut order: Vec<usize> = Vec::new();
    let mut i: usize = 0;
    while i < sorted.len()
        invariant
            i <= sorted@.len(),
            order@.len() == i,
            forall|k: int| 0 <= k < i ==> #[trigger] order@[k] == sorted@[k].index,
        decreases sorted@.len() - i,
    {
        order.push(sorted[i].index);
        i = i + 1;
    }
    proof {
        crate::sort::lemma_same_multiset_distinct(source, sorted@);
        assert forall|k: int| 0 <= k < sorted@.len() implies source.contains(
            #[trigger] sorted@[k],
        ) by {
            assert(sorted@.contains(sorted@[k]));
        }
        assert forall|k: int| 0 <= k < sorted@.len() implies candidate_of(
            groups@,
            *shared,
            #[trigger] sorted@[k],
        ) && claims@[sorted@[k].index as int] is None by {
            assert(source.contains(sorted@[k]));
            let j = choose|j: int| 0 <= j < source.len() && source[j] == sorted@[k];
            assert(candidate_of(groups@, *shared, source[j]));
        }
        assert(order@.no_duplicates()) by {
            assert forall|a: int, b: int|
                0 <= a < order@.len() && 0 <= b < order@.len() && a != b implies order@[a]
                != order@[b] by {
                assert(sorted@[a] != sorted@[b]);
                assert(source.contains(sorted@[a]) && source.contains(sorted@[b]));
                let x = choose|x: int| 0 <= x < source.len() && source[x] == sorted@[a];
                let y = choose|y: int| 0 <= y < source.len() && source[y] == sorted@[b];
                assert(x != y);
                if x < y {
                    assert(source[x].index < source[y].index);
                } else {
                    assert(source[y].index < source[x].index);
                }
            }
        }
        assert forall|h: usize| #[trigger] order@.contains(h) <==> h < groups@.len()
            && claims@[h as int] is None by {
            if order@.contains(h) {
                let k = choose|k: int| 0 <= k < order@.len() && order@[k] == h;
                assert(candidate_of(groups@, *shared, sorted@[k]));
            }
            if h < groups@.len() && claims@[h as int] is None {
                assert(lists_index(source, h));
                let j = choose|j: int| 0 <= j < source.len() && (#[trigger] source[j]).index == h;
                assert(source.contains(source[j]));
                assert(sorted@.contains(source[j]));
                let k = choose|k: int| 0 <= k < sorted@.len() && sorted@[k] == source[j];
                assert(order@[k] == h);
            }
        }
        assert forall|a: int, b: int| 0 <= a < b < order@.len() implies goes_before(
            groups@[#[trigger] order@[a] as int],
            groups@[#[trigger] order@[b] as int],
            *shared,
        ) by {
            assert(sorted@[a].ranks_le(sorted@[b]));
            assert(candidate_of(groups@, *shared, sorted@[a]));
            assert(candidate_of(groups@, *shared, sorted@[b]));
        }
    }
    order
}

/// Some candidate has the index.
spec fn lists_index(list: Seq<Candidate>, index: usize) -> bool {
    exists|i: int| 0 <= i < list.len() && (#[trigger] list[i]).index == index
}

// ---------------------------------------------------------------------------------------------
// Best page
// ---------------------------------------------------------------------------------------------

/// `score` is page `p`'s best offer, attributed to that page.
pub open spec fn is_page_offer(
    free: Seq<Seq<CachedAtlasRect>>,
    width: u32,
    height: u32,
    p: int,
    score: FitScore,
) -> bool {
    exists|plain: FitScore|
        #[trigger] is_best_score(free[p], width, height, plain) && score == (FitScore {
            page_id: p as usize,
            ..plain
        })
}

/// Page `p` makes the best offer of all pages.
pub open spec fn is_best_page(
    free: Seq<Seq<CachedAtlasRect>>,
    width: u32,
    height: u32,
    p: int,
) -> bool {
    &&& 0 <= p < free.len()
    &&& has_room(free[p], width, height)
    &&& exists|score: FitScore|
        {
            &&& #[trigger] is_page_offer(free, width, height, p, score)
            &&& forall|q: int, other: FitScore|
                0 <= q < free.len() && #[trigger] is_page_offer(free, width, height, q, other)
                    ==> score.at_least(other)
        }
}

/// No page has room.
pub open spec fn no_page_has_room(
    free: Seq<Seq<CachedAtlasRect>>,
    width: u32,
    height: u32,
) -> bool {
    forall|p: int| 0 <= p < free.len() ==> !has_room(#[trigger] free[p], width, height)
}

proof fn lemma_at_least_transitive(a: FitScore, b: FitScore, c: FitScore)
    requires
        a.at_least(b),
        b.at_least(c),
    ensures
        a.at_least(c),
{
}

proof fn lemma_best_score_unique(
    free: Seq<CachedAtlasRect>,
    width: u32,
    height: u32,
    a: FitScore,
    b: FitScore,
)
    requires
        is_best_score(free, width, height, a),
        is_best_score(free, width, height, b),
    ensures
        a == b,
{
    assert(a.at_least(b) && b.at_least(a));
}

/// Finds the page with the best offer.
pub fn best_page(lists: &[SeededFreeList], width: u32, height: u32) -> (r: Option<usize>)
    requires
        all_wf(lists@),
    ensures
        match r {
            Some(p) => is_best_page(free_areas(lists@), width, height, p as int),
            None => no_page_has_room(free_areas(lists@), width, height),
        },
{
    let ghost free = free_areas(lists@);
    let mut best: Option<FitScore> = None;
    let mut p: usize = 0;
    while p < lists.len()
        invariant
            p <= lists@.len(),
            all_wf(lists@),
            free == free_areas(lists@),
            best is None ==> forall|q: int|
                0 <= q < p ==> !has_room(#[trigger] free[q], width, height),
            best matches Some(score) ==> {
                &&& score.page_id < p
                &&& has_room(free[score.page_id as int], width, height)
                &&& is_page_offer(free, width, height, score.page_id as int, score)
                &&& forall|q: int, other: FitScore|
                    0 <= q < p && #[trigger] is_page_offer(free, width, height, q, other)
                        ==> score.at_least(other)
            },
        decreases lists@.len() - p,
    {
        let list = &lists[p];
        assert(free[p as int] == list.free@);
        match list.best_fit(width, height) {
            None => {
                assert forall|other: FitScore| !#[trigger] is_page_offer(
                    free,
                    width,
                    height,
                    p as int,
                    other,
                ) by {
                    if is_page_offer(free, width, height, p as int, other) {
                        let plain = choose|plain: FitScore|
                            #[trigger] is_best_score(free[p as int], width, height, plain) && other
                                == (FitScore { page_id: p as usize, ..plain });
                        assert(has_room(free[p as int], width, height));
                    }
                }
            },
            Some(plain) => {
                let offer = plain.with_page(p);
                proof {
                    assert(is_page_offer(free, width, height, p as int, offer));
                    assert forall|other: FitScore| #[trigger]
                        is_page_offer(free, width, height, p as int, other) implies other == offer by {
                        let second = choose|second: FitScore|
                            #[trigger] is_best_score(free[p as int], width, height, second) && other
                                == (FitScore { page_id: p as usize, ..second });
                        lemma_best_score_unique(free[p as int], width, height, plain, second);
                    }
                }
                match best {
                    None => {
                        proof {
                            assert forall|q: int, other: FitScore|
                                0 <= q < p + 1 && #[trigger] is_page_offer(
                                    free,
                                    width,
                                    height,
                                    q,
                                    other,
                                ) implies offer.at_least(other) by {
                                if q < p {
                                    let second = choose|second: FitScore|
                                        #[trigger] is_best_score(free[q], width, height, second)
                                            && other == (FitScore { page_id: q as usize, ..second });
                                    assert(has_room(free[q], width, height));
                                }
                            }
                        }
                        best = Some(offer);
                    },
                    Some(score) => {
                        if !score.fits_as_well(&offer) {
                            proof {
                                assert(offer.at_least(score));
                                assert forall|q: int, other: FitScore|
                                    0 <= q < p + 1 && #[trigger] is_page_offer(
                                        free,
                                        width,
                                        height,
                                        q,
                                        other,
                                    ) implies offer.at_least(other) by {
                                    if q < p {
                                        lemma_at_least_transitive(offer, score, other);
                                    }
                                }
                            }
                            best = Some(offer);
                        }
                    },
                }
            },
        }
        p = p + 1;
    }
    match best {
        Some(score) => Some(score.page_id),
        None => None,
    }
}

// ---------------------------------------------------------------------------------------------
// Spots
// ---------------------------------------------------------------------------------------------

/// A reservation takes its spot: the best page's best corner, or none where no page has room.
pub open spec fn takes_spot(
    width: u32,
    height: u32,
    before: Seq<Seq<CachedAtlasRect>>,
    spot: Option<(usize, CachedAtlasRect)>,
    after: Seq<Seq<CachedAtlasRect>>,
) -> bool {
    match spot {
        None => no_page_has_room(before, width, height) && after == before,
        Some((p, rect)) => {
            &&& is_best_page(before, width, height, p as int)
            &&& rect.width == width
            &&& rect.height == height
            &&& rect.fits()
            &&& within_one(before[p as int], rect)
            &&& exists|score: FitScore|
                {
                    &&& #[trigger] is_best_score(before[p as int], width, height, score)
                    &&& score.x == rect.x
                    &&& score.top == rect.y + height
                }
            &&& is_subtracted(before[p as int], rect, after[p as int])
            &&& after == before.update(p as int, after[p as int])
        },
    }
}

/// The group's reservation takes its spot.
pub open spec fn group_takes_spot(
    group: PreparedAtlasGroup,
    shared: AtlasSharedConfig,
    before: Seq<Seq<CachedAtlasRect>>,
    spot: Option<(usize, CachedAtlasRect)>,
    after: Seq<Seq<CachedAtlasRect>>,
) -> bool {
    reserved_size(group.item.w, group.item.h, shared) matches Ok((width, height)) && takes_spot(
        width,
        height,
        before,
        spot,
        after,
    )
}

/// The groups take their spots one after the other.
pub open spec fn take_spots(
    groups: Seq<PreparedAtlasGroup>,
    shared: AtlasSharedConfig,
    order: Seq<usize>,
    free: Seq<Seq<CachedAtlasRect>>,
    spots: Seq<Option<(usize, CachedAtlasRect)>>,
    rest: Seq<Seq<CachedAtlasRect>>,
) -> bool
    decreases spots.len(),
{
    if spots.len() == 0 {
        rest == free
    } else {
        exists|before: Seq<Seq<CachedAtlasRect>>|
            take_spots(groups, shared, order, free, spots.drop_last(), before)
                && #[trigger] group_takes_spot(
                groups[order[spots.len() - 1] as int],
                shared,
                before,
                spots.last(),
                rest,
            )
    }
}

/// Finds a spot for every group in order.
pub fn choose_spots(
    groups: &[PreparedAtlasGroup],
    shared: &AtlasSharedConfig,
    order: &[usize],
    lists: &mut Vec<SeededFreeList>,
) -> (spots: Vec<Option<(usize, CachedAtlasRect)>>)
    requires
        all_wf(old(lists)@),
        forall|i: int| 0 <= i < order@.len() ==> (#[trigger] order@[i]) < groups@.len(),
        forall|g: int|
            0 <= g < groups@.len() ==> reserved_size(
                (#[trigger] groups@[g]).item.w,
                groups@[g].item.h,
                *shared,
            ) is Ok,
    ensures
        spots@.len() == order@.len(),
        take_spots(
            groups@,
            *shared,
            order@,
            free_areas(old(lists)@),
            spots@,
            free_areas(final(lists)@),
        ),
{
    let mut spots: Vec<Option<(usize, CachedAtlasRect)>> = Vec::new();
    let mut i: usize = 0;
    let ghost free = free_areas(lists@);
    while i < order.len()
        invariant
            i <= order@.len(),
            spots@.len() == i,
            all_wf(lists@),
            free == free_areas(old(lists)@),
            forall|k: int| 0 <= k < order@.len() ==> (#[trigger] order@[k]) < groups@.len(),
            forall|g: int|
                0 <= g < groups@.len() ==> reserved_size(
                    (#[trigger] groups@[g]).item.w,
                    groups@[g].item.h,
                    *shared,
                ) is Ok,
            take_spots(groups@, *shared, order@, free, spots@, free_areas(lists@)),
        decreases order@.len() - i,
    {
        let group = &groups[order[i]];
        let ghost before = free_areas(lists@);
        let ghost lists_before = lists@;
        let ghost spots_before = spots@;
        assert(reserved_size(group.item.w, group.item.h, *shared) is Ok);
        let size = reservation_dimensions(group.item.w, group.item.h, shared);
        let (width, height) = size.unwrap();
        match best_page(lists, width, height) {
            None => {
                spots.push(None);
                assert(group_takes_spot(*group, *shared, before, None, before));
            },
            Some(p) => {
                assert(before[p as int] == lists_before[p as int].free@);
                let list: &mut SeededFreeList = &mut lists[p];
                let placed = list.insert(width, height);
                let rect = placed.unwrap();
                spots.push(Some((p, rect)));
                proof {
                    let after = free_areas(lists@);
                    assert(lists@ =~= lists_before.update(p as int, lists@[p as int]));
                    assert(after[p as int] == lists@[p as int].free@);
                    assert(after =~= before.update(p as int, after[p as int]));
                    assert(group_takes_spot(*group, *shared, before, Some((p, rect)), after));
                    assert forall|q: int| 0 <= q < lists@.len() implies (
                    #[trigger] lists@[q]).wf() by {
                        if q != p {
                            assert(lists@[q] == lists_before[q]);
                        }
                    }
                }
            },
        }
        proof {
            assert(spots@.drop_last() =~= spots_before);
            assert(group_takes_spot(
                groups@[order@[spots@.len() - 1] as int],
                *shared,
                before,
                spots@.last(),
                free_areas(lists@),
            ));
        }
        i = i + 1;
    }
    spots
}

/// The groups with a spot, each with its page and reservation, in order.
pub open spec fn spotted(
    order: Seq<usize>,
    spots: Seq<Option<(usize, CachedAtlasRect)>>,
    end: int,
) -> Seq<(usize, usize, CachedAtlasRect)>
    decreases end,
{
    if end <= 0 {
        Seq::empty()
    } else {
        let before = spotted(order, spots, end - 1);
        match spots[end - 1] {
            Some((p, rect)) => before.push((order[end - 1], p, rect)),
            None => before,
        }
    }
}

/// The groups without a spot, in order.
pub open spec fn unspotted(
    order: Seq<usize>,
    spots: Seq<Option<(usize, CachedAtlasRect)>>,
    end: int,
) -> Seq<usize>
    decreases end,
{
    if end <= 0 {
        Seq::empty()
    } else {
        let before = unspotted(order, spots, end - 1);
        match spots[end - 1] {
            Some(_) => before,
            None => before.push(order[end - 1]),
        }
    }
}

/// What filling the spots yields.
pub struct Filled {
    /// The groups with a spot, each with its page and reservation, in order.
    pub taken: Vec<(usize, usize, CachedAtlasRect)>,
    /// Their slots.
    pub slots: Vec<CachedAtlasSlot>,
    /// The groups without a spot, in order.
    pub unplaced: Vec<usize>,
}

/// Slot `i` fills the reservation of the `i`-th taken spot and has identity `first_id + i`.
pub open spec fn slots_fill_spots(
    groups: Seq<PreparedAtlasGroup>,
    shared: AtlasSharedConfig,
    taken: Seq<(usize, usize, CachedAtlasRect)>,
    first_id: u64,
    slots: Seq<CachedAtlasSlot>,
) -> bool {
    &&& slots.len() == taken.len()
    &&& forall|i: int|
        0 <= i < slots.len() ==> {
            let group = groups[taken[i].0 as int];
            &&& (#[trigger] slots[i]).slot_id == first_id + i
            &&& slots[i].page_id == taken[i].1
            &&& slot_holds_item(
                slots[i],
                taken[i].2,
                group.item,
                group.item.key@,
                group.content_fingerprint,
                shared,
            )
        }
}

/// Why the spot taken as number `i` cannot be filled.
pub open spec fn spot_failure(
    groups: Seq<PreparedAtlasGroup>,
    shared: AtlasSharedConfig,
    taken: (usize, usize, CachedAtlasRect),
    first_id: u64,
    i: int,
) -> Option<AtlasError> {
    if taken.1 > u32::MAX {
        Some(AtlasError::PageIdExceedsRange)
    } else {
        match slot_failure(taken.2, groups[taken.0 as int].item, shared) {
            Some(e) => Some(e),
            None => if first_id + i + 1 > u64::MAX {
                Some(AtlasError::SlotIdOverflow)
            } else {
                None
            },
        }
    }
}

/// The `i`-th taken spot is the first that cannot be filled.
pub open spec fn is_first_unfilled(
    groups: Seq<PreparedAtlasGroup>,
    shared: AtlasSharedConfig,
    taken: Seq<(usize, usize, CachedAtlasRect)>,
    first_id: u64,
    i: int,
    error: AtlasError,
) -> bool {
    &&& 0 <= i < taken.len()
    &&& spot_failure(groups, shared, taken[i], first_id, i) == Some(error)
    &&& forall|k: int|
        0 <= k < i ==> spot_failure(groups, shared, #[trigger] taken[k], first_id, k) is None
}

/// Taken spots keep their numbers as the list grows.
pub proof fn lemma_spotted_prefix(
    order: Seq<usize>,
    spots: Seq<Option<(usize, CachedAtlasRect)>>,
    k: int,
    end: int,
)
    requires
        0 <= k <= end,
    ensures
        spotted(order, spots, k).len() <= spotted(order, spots, end).len(),
        forall|i: int|
            0 <= i < spotted(order, spots, k).len() ==> #[trigger] spotted(order, spots, k)[i]
                == spotted(order, spots, end)[i],
    decreases end,
{
    if k < end {
        lemma_spotted_prefix(order, spots, k, end - 1);
    }
}

/// Fills the spots with the groups' content.
pub fn fill_spots(
    groups: &[PreparedAtlasGroup],
    shared: &AtlasSharedConfig,
    order: &[usize],
    spots: &[Option<(usize, CachedAtlasRect)>],
    first_id: u64,
) -> (r: Result<Filled, AtlasError>)
    requires
        spots@.len() == order@.len(),
        forall|i: int| 0 <= i < order@.len() ==> (#[trigger] order@[i]) < groups@.len(),
    ensures
        match r {
            Ok(filled) => {
                &&& filled.taken@ == spotted(order@, spots@, order@.len() as int)
                &&& filled.unplaced@ == unspotted(order@, spots@, order@.len() as int)
                &&& slots_fill_spots(groups@, *shared, filled.taken@, first_id, filled.slots@)
                &&& first_id + filled.slots@.len() <= u64::MAX
            },
            Err(e) => exists|i: int| #[trigger]
                is_first_unfilled(
                    groups@,
                    *shared,
                    spotted(order@, spots@, order@.len() as int),
                    first_id,
                    i,
                    e,
                ),
        },
{
    let mut filled = Filled { taken: Vec::new(), slots: Vec::new(), unplaced: Vec::new() };
    let mut next_id: u64 = first_id;
    let mut i: usize = 0;
    let ghost all = spotted(order@, spots@, order@.len() as int);
    while i < order.len()
        invariant
            i <= order@.len(),
            spots@.len() == order@.len(),
            forall|k: int| 0 <= k < order@.len() ==> (#[trigger] order@[k]) < groups@.len(),
            all == spotted(order@, spots@, order@.len() as int),
            filled.taken@ == spotted(order@, spots@, i as int),
            filled.unplaced@ == unspotted(order@, spots@, i as int),
            slots_fill_spots(groups@, *shared, filled.taken@, first_id, filled.slots@),
            next_id == first_id + filled.slots@.len(),
            forall|k: int|
                0 <= k < filled.taken@.len() ==> spot_failure(
                    groups@,
                    *shared,
                    #[trigger] filled.taken@[k],
                    first_id,
                    k,
                ) is None,
        decreases order@.len() - i,
    {
        match spots[i] {
            None => {
                filled.unplaced.push(order[i]);
            },
            Some((p, rect)) => {
                let group = &groups[order[i]];
                let ghost n = filled.taken@.len() as int;
                let ghost before = filled;
                proof {
                    lemma_spotted_prefix(order@, spots@, i + 1, order@.len() as int);
                    assert(spotted(order@, spots@, i + 1)[n] == (order@[i as int], p, rect));
                    assert(all[n] == (order@[i as int], p, rect));
                    assert forall|k: int| 0 <= k < n implies #[trigger] all[k]
                        == filled.taken@[k] by {
                        assert(spotted(order@, spots@, i + 1)[k] == filled.taken@[k]);
                    }
                    assert forall|k: int| 0 <= k < n implies spot_failure(
                        groups@,
                        *shared,
                        #[trigger] all[k],
                        first_id,
                        k,
                    ) is None by {
                        assert(spot_failure(
                            groups@,
                            *shared,
                            filled.taken@[k],
                            first_id,
                            k,
                        ) is None);
                    }
                }
                if p > u32::MAX as usize {
                    assert(is_first_unfilled(
                        groups@,
                        *shared,
                        all,
                        first_id,
                        n,
                        AtlasError::PageIdExceedsRange,
                    ));
                    return Err(AtlasError::PageIdExceedsRange);
                }
                let slot = match fill_slot(
                    next_id,
                    p as u32,
                    rect,
                    &group.item,
                    group.item.key.clone(),
                    group.content_fingerprint,
                    shared,
                ) {
                    Ok(slot) => slot,
                    Err(e) => {
                        assert(is_first_unfilled(groups@, *shared, all, first_id, n, e));
                        return Err(e);
                    },
                };
                next_id = match next_id.checked_add(1) {
                    Some(next) => next,
                    None => {
                        assert(is_first_unfilled(
                            groups@,
                            *shared,
                            all,
                            first_id,
                            n,
                            AtlasError::SlotIdOverflow,
                        ));
                        return Err(AtlasError::SlotIdOverflow);
                    },
                };
                filled.taken.push((order[i], p, rect));
                filled.slots.push(slot);
                proof {
                    assert(slots_fill_spots(
                        groups@,
                        *shared,
                        filled.taken@,
                        first_id,
                        filled.slots@,
                    )) by {
                        assert forall|k: int| 0 <= k < filled.slots@.len() implies {
                            let group = groups@[filled.taken@[k].0 as int];
                            &&& (#[trigger] filled.slots@[k]).slot_id == first_id + k
                            &&& filled.slots@[k].page_id == filled.taken@[k].1
                            &&& slot_holds_item(
                                filled.slots@[k],
                                filled.taken@[k].2,
                                group.item,
                                group.item.key@,
                                group.content_fingerprint,
                                *shared,
                            )
                        } by {
                            if k < n {
                                assert(filled.slots@[k] == before.slots@[k]);
                                assert(filled.taken@[k] == before.taken@[k]);
                            }
                        }
                    }
                    assert forall|k: int| 0 <= k < filled.taken@.len() implies spot_failure(
                        groups@,
                        *shared,
                        #[trigger] filled.taken@[k],
                        first_id,
                        k,
                    ) is None by {
                        if k < n {
                            assert(filled.taken@[k] == before.taken@[k]);
                        }
                    }
                }
            },
        }
        i = i + 1;
    }
    Ok(filled)
}

} // verus!
