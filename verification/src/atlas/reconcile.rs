//! Reconciling current groups with prior family evidence.

use crate::atlas::allocate::{
    allocation_stats, describes_pages, pages_from_cache, stats_of, AllocatedAtlasFamily,
    AtlasAllocationStats,
};
use crate::atlas::error::AtlasError;
use crate::atlas::fresh::{
    items_measurable, lemma_captured_fits, page_sizes, sizes_of_pages,
};
use crate::atlas::graph::{is_cheapest_matching, lists_pairs, takes_pair, MatchEdge};
use crate::atlas::group::{
    groups_partition, has_provider, is_group, lists_text, overlap_count, shared_count,
    PreparedAtlasGroup,
};
use crate::atlas::matching::{
    all_measured, claims_of, is_best_matching, is_candidate, lists_candidates, lists_prior_keys,
    matching_fails, maximum_weight_matching, prior_groups, slot_has_keys, spread_matching,
};
use crate::atlas::packer::{
    is_packed, is_packed_page, item_views, layout_feasible, pack_layout_only, packed_layout, page_views,
    settings_for,
};
use crate::atlas::placement::{
    are_distinct_groups, capture_fails, capture_frames, captures_key, captures_sorted,
    chosen_items, group_of_item, group_relates, item_groups, key_slots_for_groups,
    lemma_group_of_item, lemma_places_chosen, place_captured, places_chosen, places_group,
    placing_fails, relates, relates_groups, slots_repeat_captured, CapturedFrame,
};
use crate::atlas::rect::CachedAtlasRect;
use crate::atlas::retain::{
    as_ints, claimed_groups, claims_name_slots, is_first_unretained, is_retained,
    lemma_claimed_groups, retain_slots, Retained,
};
use crate::atlas::slot::destination_within;
use crate::atlas::spots::{
    choose_spots, fill_spots, free_areas, group_takes_spot, is_first_unfilled, is_placing_order,
    occupied_on, order_unmatched, page_seeded, pages_seeded, seed_pages, seeding_pages_fails,
    slots_fill_spots, spotted, take_spots, unspotted, Filled,
};
use crate::atlas::types::{
    AtlasFamilyConfig, AtlasSharedConfig, CachedAtlasFamily, CachedAtlasKeySlot, CachedAtlasPage,
    CachedAtlasSlot, CachedTextureFingerprint, LayoutItem, Page, UvBound,
};
use crate::atlas::uv::{
    bindings_from_relations, binds_relations, destinations_fit, lemma_slot_position,
    lists_bindings, map_to_cached_bounds, relation_resolves, slot_position,
};
use crate::sort::{lemma_same_multiset, ranked, sort_ranked};
use crate::text::texts;
use vstd::prelude::*;

verus! {

// ---------------------------------------------------------------------------------------------
// Spots partition the order
// ---------------------------------------------------------------------------------------------

/// Every group of the order is either placed on a prior page or left over, exactly once.
pub proof fn lemma_spot_partition(
    order: Seq<usize>,
    spots: Seq<Option<(usize, CachedAtlasRect)>>,
    end: int,
)
    requires
        0 <= end <= order.len(),
        spots.len() == order.len(),
        order.no_duplicates(),
    ensures
        spotted(order, spots, end).len() + unspotted(order, spots, end).len() == end,
        forall|i: int|
            0 <= i < spotted(order, spots, end).len() ==> takes_from(
                order,
                spots,
                end,
                #[trigger] spotted(order, spots, end)[i],
            ),
        forall|i: int|
            0 <= i < unspotted(order, spots, end).len() ==> leaves_from(
                order,
                spots,
                end,
                #[trigger] unspotted(order, spots, end)[i],
            ),
        forall|i: int, j: int|
            0 <= i < j < spotted(order, spots, end).len() ==> (#[trigger] spotted(
                order,
                spots,
                end,
            )[i]).0 != (#[trigger] spotted(order, spots, end)[j]).0,
        unspotted(order, spots, end).no_duplicates(),
        forall|k: int|
            0 <= k < end ==> (#[trigger] spots[k] is Some ==> has_spot(
                spotted(order, spots, end),
                order[k],
            )) && (spots[k] is None ==> unspotted(order, spots, end).contains(order[k])),
    decreases end,
{
    if end > 0 {
        lemma_spot_partition(order, spots, end - 1);
        let taken0 = spotted(order, spots, end - 1);
        let left0 = unspotted(order, spots, end - 1);
        let taken = spotted(order, spots, end);
        let left = unspotted(order, spots, end);
        let last = order[end - 1];
        assert forall|i: int| 0 <= i < taken.len() implies takes_from(
            order,
            spots,
            end,
            #[trigger] taken[i],
        ) by {
            if i < taken0.len() {
                assert(taken[i] == taken0[i]);
                assert(takes_from(order, spots, end - 1, taken0[i]));
                let k = choose|k: int|
                    0 <= k < end - 1 && #[trigger] order[k] == taken0[i].0 && spots[k] == Some(
                        (taken0[i].1, taken0[i].2),
                    );
                assert(order[k] == taken[i].0);
            } else {
                assert(order[end - 1] == taken[i].0);
            }
        }
        assert forall|i: int| 0 <= i < left.len() implies leaves_from(
            order,
            spots,
            end,
            #[trigger] left[i],
        ) by {
            if i < left0.len() {
                assert(left[i] == left0[i]);
                assert(leaves_from(order, spots, end - 1, left0[i]));
                let k = choose|k: int|
                    0 <= k < end - 1 && #[trigger] order[k] == left0[i] && spots[k] is None;
                assert(order[k] == left[i]);
            } else {
                assert(order[end - 1] == left[i]);
            }
        }
        assert forall|i: int, j: int| 0 <= i < j < taken.len() implies (#[trigger] taken[i]).0 != (
        #[trigger] taken[j]).0 by {
            assert(taken[i] == taken0[i]);
            if j < taken0.len() {
                assert(taken[j] == taken0[j]);
                assert(taken0[i].0 != taken0[j].0);
            } else {
                assert(takes_from(order, spots, end - 1, taken0[i]));
                let k = choose|k: int|
                    0 <= k < end - 1 && #[trigger] order[k] == taken0[i].0 && spots[k] == Some(
                        (taken0[i].1, taken0[i].2),
                    );
                assert(order[k] != order[end - 1]);
            }
        }
        assert(left.no_duplicates()) by {
            assert forall|i: int, j: int| 0 <= i < left.len() && 0 <= j < left.len() && i
                != j implies left[i] != left[j] by {
                let a = if i < j { i } else { j };
                let b = if i < j { j } else { i };
                if b >= left0.len() {
                    assert(left[a] == left0[a]);
                    assert(leaves_from(order, spots, end - 1, left0[a]));
                    let k = choose|k: int|
                        0 <= k < end - 1 && #[trigger] order[k] == left0[a] && spots[k] is None;
                    assert(order[k] != order[end - 1]);
                } else {
                    assert(left[a] == left0[a] && left[b] == left0[b]);
                }
            }
        }
        assert forall|k: int| 0 <= k < end implies (#[trigger] spots[k] is Some ==> has_spot(
            taken,
            order[k],
        )) && (spots[k] is None ==> left.contains(order[k])) by {
            if spots[k] is Some {
                if k < end - 1 {
                    assert(has_spot(taken0, order[k]));
                    let i = choose|i: int| 0 <= i < taken0.len() && (#[trigger] taken0[i]).0 == order[k];
                    assert(taken[i].0 == order[k]);
                } else {
                    assert(taken[taken.len() - 1].0 == order[k]);
                }
            } else {
                if k < end - 1 {
                    assert(left0.contains(order[k]));
                    let i = choose|i: int| 0 <= i < left0.len() && left0[i] == order[k];
                    assert(left[i] == order[k]);
                } else {
                    assert(left[left.len() - 1] == order[k]);
                }
            }
        }
    }
}

/// The taken spot is that of some group before `end`.
pub open spec fn takes_from(
    order: Seq<usize>,
    spots: Seq<Option<(usize, CachedAtlasRect)>>,
    end: int,
    taken: (usize, usize, CachedAtlasRect),
) -> bool {
    exists|k: int|
        0 <= k < end && #[trigger] order[k] == taken.0 && spots[k] == Some((taken.1, taken.2))
}

/// The group stands before `end` and has no spot.
pub open spec fn leaves_from(
    order: Seq<usize>,
    spots: Seq<Option<(usize, CachedAtlasRect)>>,
    end: int,
    group: usize,
) -> bool {
    exists|k: int| 0 <= k < end && #[trigger] order[k] == group && spots[k] is None
}

/// Some taken spot is the group's.
pub open spec fn has_spot(taken: Seq<(usize, usize, CachedAtlasRect)>, group: usize) -> bool {
    exists|i: int| 0 <= i < taken.len() && (#[trigger] taken[i]).0 == group
}

/// Spots lie on the pages they were chosen from, and their edges are representable.
pub proof fn lemma_spots_valid(
    groups: Seq<PreparedAtlasGroup>,
    shared: AtlasSharedConfig,
    order: Seq<usize>,
    free: Seq<Seq<CachedAtlasRect>>,
    spots: Seq<Option<(usize, CachedAtlasRect)>>,
    rest: Seq<Seq<CachedAtlasRect>>,
)
    requires
        take_spots(groups, shared, order, free, spots, rest),
    ensures
        rest.len() == free.len(),
        forall|k: int|
            0 <= k < spots.len() ==> (#[trigger] spots[k] matches Some((p, rect)) ==> p < free.len()
                && rect.fits()),
    decreases spots.len(),
{
    if spots.len() > 0 {
        let before = choose|before: Seq<Seq<CachedAtlasRect>>|
            take_spots(groups, shared, order, free, spots.drop_last(), before)
                && #[trigger] group_takes_spot(
                groups[order[spots.len() - 1] as int],
                shared,
                before,
                spots.last(),
                rest,
            );
        lemma_spots_valid(groups, shared, order, free, spots.drop_last(), before);
        assert forall|k: int| 0 <= k < spots.len() implies (#[trigger] spots[k] matches Some(
            (p, rect),
        ) ==> p < free.len() && rect.fits()) by {
            if k < spots.len() - 1 {
                assert(spots.drop_last()[k] == spots[k]);
            }
        }
    }
}

// ---------------------------------------------------------------------------------------------
// Appended pages
// ---------------------------------------------------------------------------------------------

/// Pages appended for the groups that no prior page has room for.
pub struct Appended {
    pub pages: Vec<Page>,
    pub captured: Vec<CapturedFrame>,
    pub slots: Vec<CachedAtlasSlot>,
}

/// Appended pages as plain sequences.
pub struct AppendedView {
    pub pages: Seq<Page>,
    pub captured: Seq<CapturedFrame>,
    pub slots: Seq<CachedAtlasSlot>,
}

impl View for Appended {
    type V = AppendedView;

    open spec fn view(&self) -> AppendedView {
        AppendedView { pages: self.pages@, captured: self.captured@, slots: self.slots@ }
    }
}

/// The left-over groups are packed onto pages of their own, numbered from `offset`.
pub open spec fn appends(
    groups: Seq<PreparedAtlasGroup>,
    shared: AtlasSharedConfig,
    unplaced: Seq<usize>,
    offset: int,
    first_id: u64,
    appended: AppendedView,
) -> bool {
    if unplaced.len() == 0 {
        &&& appended.pages.len() == 0
        &&& appended.captured.len() == 0
        &&& appended.slots.len() == 0
    } else {
        &&& packed_layout(
            item_views(chosen_items(groups, as_ints(unplaced))),
            settings_for(shared.gpu_max),
        ) == Some(page_views(appended.pages))
        &&& is_packed(
            item_views(chosen_items(groups, as_ints(unplaced))),
            settings_for(shared.gpu_max),
            page_views(appended.pages),
        )
        &&& captures_sorted(appended.pages, offset, shared, appended.captured)
        &&& places_chosen(appended.captured, groups, as_ints(unplaced))
        &&& slots_repeat_captured(appended.captured, groups, first_id, appended.slots)
    }
}

/// Appending stops with `error`.
pub open spec fn appending_fails(
    groups: Seq<PreparedAtlasGroup>,
    shared: AtlasSharedConfig,
    unplaced: Seq<usize>,
    offset: int,
    first_id: u64,
    error: AtlasError,
) -> bool {
    let items = item_views(chosen_items(groups, as_ints(unplaced)));
    let settings = settings_for(shared.gpu_max);
    &&& unplaced.len() > 0
    &&& {
        ||| error == AtlasError::AppendPackingFailed && !layout_feasible(items, settings)
        ||| layout_feasible(items, settings) && exists|attempt: AppendedView|
            {
                &&& packed_layout(items, settings) == Some(page_views(attempt.pages))
                &&& #[trigger] attempt_fails(attempt, shared, offset, first_id, error)
            }
    }
}

/// The reservations of the appended pages, or their numbering, stop with `error`.
pub open spec fn attempt_fails(
    attempt: AppendedView,
    shared: AtlasSharedConfig,
    offset: int,
    first_id: u64,
    error: AtlasError,
) -> bool {
    ||| capture_fails(attempt.pages, shared, error)
    ||| captures_sorted(attempt.pages, offset, shared, attempt.captured) && placing_fails(
        attempt.captured,
        first_id,
        error,
    )
}

fn unplaced_items(groups: &[PreparedAtlasGroup], unplaced: &[usize]) -> (items: Vec<LayoutItem>)
    requires
        forall|i: int| 0 <= i < unplaced@.len() ==> (#[trigger] unplaced@[i]) < groups@.len(),
    ensures
        items@ == chosen_items(groups@, as_ints(unplaced@)),
{
    let mut items: Vec<LayoutItem> = Vec::new();
    let mut i: usize = 0;
    while i < unplaced.len()
        invariant
            i <= unplaced@.len(),
            items@.len() == i,
            forall|k: int| 0 <= k < unplaced@.len() ==> (#[trigger] unplaced@[k]) < groups@.len(),
            forall|k: int|
                0 <= k < i ==> #[trigger] items@[k] == groups@[unplaced@[k] as int].item,
        decreases unplaced@.len() - i,
    {
        items.push(groups[unplaced[i]].item.clone());
        i = i + 1;
    }
    assert(items@ =~= chosen_items(groups@, as_ints(unplaced@)));
    items
}

/// Packs the left-over groups onto pages appended after the prior ones.
pub fn append_unplaced(
    groups: &[PreparedAtlasGroup],
    shared: &AtlasSharedConfig,
    unplaced: &[usize],
    offset: usize,
    first_id: u64,
) -> (r: Result<Appended, AtlasError>)
    requires
        groups_partition(groups@),
        items_measurable(groups@),
        shared.gpu_max <= 0x8000_0000,
        unplaced@.no_duplicates(),
        forall|i: int| 0 <= i < unplaced@.len() ==> (#[trigger] unplaced@[i]) < groups@.len(),
        offset + groups@.len() <= usize::MAX,
    ensures
        match r {
            Ok(appended) => {
                &&& appends(groups@, *shared, unplaced@, offset as int, first_id, appended@)
                &&& first_id + appended.slots@.len() <= u64::MAX
                &&& offset + appended.pages@.len() <= usize::MAX
            },
            Err(e) => appending_fails(
                groups@,
                *shared,
                unplaced@,
                offset as int,
                first_id,
                e,
            ),
        },
{
    if unplaced.len() == 0 {
        return Ok(Appended { pages: Vec::new(), captured: Vec::new(), slots: Vec::new() });
    }
    let items = unplaced_items(groups, unplaced);
    let ghost chosen = as_ints(unplaced@);
    let ghost settings = settings_for(shared.gpu_max);
    proof {
        assert forall|i: int| 0 <= i < items@.len() implies (#[trigger] items@[i]).w * items@[i].h
            <= u32::MAX by {
            let g = unplaced@[i] as int;
            assert(groups@[g].item.w * groups@[g].item.h <= u32::MAX);
        }
        assert(are_distinct_groups(groups@, chosen)) by {
            assert forall|i: int, j: int|
                0 <= i < chosen.len() && 0 <= j < chosen.len() && i != j implies chosen[i]
                != chosen[j] by {
                assert(unplaced@[i] != unplaced@[j]);
            }
        }
    }
    let pages = match pack_layout_only(&items, shared.gpu_max) {
        Ok(pages) => pages,
        Err(_) => {
            return Err(AtlasError::AppendPackingFailed);
        },
    };
    proof {
        assert forall|p: int| 0 <= p < pages@.len() implies (#[trigger] pages@[p]).id == p by {
            assert(is_packed_page(page_views(pages@)[p], p, settings));
        }
        lemma_page_count(pages@, settings, item_views(items@));
        lemma_distinct_count(unplaced@, groups@.len());
    }
    let captured = match capture_frames(&pages, offset, shared) {
        Ok(captured) => captured,
        Err(e) => {
            proof {
                let attempt = AppendedView { pages: pages@, captured: seq![], slots: seq![] };
                assert(attempt_fails(attempt, *shared, offset as int, first_id, e));
            }
            return Err(e);
        },
    };
    let by_item = item_groups(groups);
    proof {
        lemma_places_chosen(
            groups@,
            chosen,
            settings,
            pages@,
            offset as int,
            *shared,
            captured@,
        );
        assert forall|i: int| 0 <= i < captured@.len() implies by_item@.dom().contains(
            (#[trigger] captured@[i]).frame.key@,
        ) by {
            let g = group_of_item(groups@, captured@[i].frame.key@);
            assert(places_group(captured@, groups@, i, g));
            assert(groups@[g].item.key@ == captured@[i].frame.key@);
            assert(has_provider(groups@, captured@[i].frame.key@));
        }
    }
    match place_captured(&captured, groups, &by_item, first_id) {
        Ok(slots) => Ok(Appended { pages, captured, slots }),
        Err(e) => {
            proof {
                let attempt = AppendedView { pages: pages@, captured: captured@, slots: seq![] };
                assert(attempt_fails(attempt, *shared, offset as int, first_id, e));
            }
            Err(e)
        },
    }
}

/// A packed layout has no more pages than items.
pub proof fn lemma_page_count(
    pages: Seq<Page>,
    settings: crate::atlas::packer::PackerSettings,
    items: Seq<crate::atlas::packer::ItemView>,
)
    requires
        crate::atlas::packer::is_packed(items, settings, page_views(pages)),
    ensures
        pages.len() <= items.len(),
{
    let flat = crate::atlas::packer::frames_of(page_views(pages));
    lemma_same_multiset(
        flat.map_values(|frame| crate::atlas::packer::placed_record(frame)),
        items.map_values(|item| crate::atlas::packer::filled_item(item)),
    );
    lemma_frames_at_least_pages(page_views(pages), settings);
}

proof fn lemma_frames_at_least_pages(
    pages: Seq<crate::atlas::packer::PageView>,
    settings: crate::atlas::packer::PackerSettings,
)
    requires
        forall|p: int| 0 <= p < pages.len() ==> is_packed_page(#[trigger] pages[p], p, settings),
    ensures
        crate::atlas::packer::frames_of(pages).len() >= pages.len(),
    decreases pages.len(),
{
    if pages.len() > 0 {
        let before = pages.drop_last();
        assert forall|p: int| 0 <= p < before.len() implies is_packed_page(
            #[trigger] before[p],
            p,
            settings,
        ) by {
            assert(before[p] == pages[p]);
        }
        lemma_frames_at_least_pages(before, settings);
        assert(is_packed_page(pages[pages.len() - 1], pages.len() - 1, settings));
    }
}

/// Distinct indices below a count are no more than the count.
proof fn lemma_distinct_count(indices: Seq<usize>, count: nat)
    requires
        indices.no_duplicates(),
        forall|i: int| 0 <= i < indices.len() ==> (#[trigger] indices[i]) < count,
    ensures
        indices.len() <= count,
{
    let as_nats = indices.map_values(|index: usize| index as int);
    assert(as_nats.no_duplicates());
    as_nats.unique_seq_to_set();
    vstd::seq_lib::seq_to_set_is_finite(as_nats);
    let range = vstd::set_lib::set_int_range(0, count as int);
    vstd::set_lib::lemma_int_range(0, count as int);
    assert(as_nats.to_set().subset_of(range)) by {
        assert forall|x: int| as_nats.to_set().contains(x) implies range.contains(x) by {
            let i = choose|i: int| 0 <= i < as_nats.len() && as_nats[i] == x;
            assert(indices[i] < count);
        }
    }
    vstd::set_lib::lemma_len_subset(as_nats.to_set(), range);
}

// ---------------------------------------------------------------------------------------------
// Claims
// ---------------------------------------------------------------------------------------------

/// Pairs of a matching name known groups and slots.
proof fn lemma_pairs_valid(
    groups: Seq<PreparedAtlasGroup>,
    slots: Seq<CachedAtlasSlot>,
    prior_keys: Seq<Vec<String>>,
    shared: AtlasSharedConfig,
    pairs: Seq<(usize, usize)>,
)
    requires
        is_best_matching(groups, slots, prior_keys, shared, pairs),
    ensures
        forall|i: int|
            0 <= i < pairs.len() ==> (#[trigger] pairs[i]).0 < groups.len() && pairs[i].1
                < slots.len(),
        forall|i: int, j: int|
            0 <= i < j < pairs.len() ==> (#[trigger] pairs[i]).0 < (#[trigger] pairs[j]).0,
        forall|i: int, j: int|
            0 <= i < j < pairs.len() ==> (#[trigger] pairs[i]).1 != (#[trigger] pairs[j]).1,
{
    let (edges, chosen) = choose|edges: Seq<MatchEdge>, chosen: Seq<MatchEdge>|
        {
            &&& lists_candidates(groups, slots, prior_keys, shared, edges)
            &&& #[trigger] is_cheapest_matching(
                groups.len() as usize,
                slots.len() as usize,
                edges,
                chosen,
            )
            &&& lists_pairs(chosen, pairs)
        };
    assert forall|i: int| 0 <= i < pairs.len() implies (#[trigger] pairs[i]).0 < groups.len()
        && pairs[i].1 < slots.len() by {
        assert(takes_pair(chosen, pairs[i]));
        let k = choose|k: int|
            0 <= k < chosen.len() && (#[trigger] chosen[k]).group == pairs[i].0 && chosen[k].slot
                == pairs[i].1;
        assert(edges.contains(chosen[k]));
        assert(is_candidate(groups, slots, prior_keys, shared, chosen[k]));
    }
    assert forall|i: int, j: int| 0 <= i < j < pairs.len() implies (#[trigger] pairs[i]).1 != (
    #[trigger] pairs[j]).1 by {
        assert(takes_pair(chosen, pairs[i]));
        assert(takes_pair(chosen, pairs[j]));
        let k = choose|k: int|
            0 <= k < chosen.len() && (#[trigger] chosen[k]).group == pairs[i].0 && chosen[k].slot
                == pairs[i].1;
        let m = choose|m: int|
            0 <= m < chosen.len() && (#[trigger] chosen[m]).group == pairs[j].0 && chosen[m].slot
                == pairs[j].1;
        assert(pairs[i].0 < pairs[j].0);
        if k < m {
            assert(chosen[k].slot != chosen[m].slot);
        } else {
            assert(m < k);
            assert(chosen[m].slot != chosen[k].slot);
        }
    }
}

/// No two groups claim the same slot.
pub open spec fn claims_distinct(claims: Seq<Option<usize>>) -> bool {
    forall|g: int, h: int|
        0 <= g < claims.len() && 0 <= h < claims.len() && g != h && (#[trigger] claims[g]) is Some
            && (#[trigger] claims[h]) is Some ==> claims[g] != claims[h]
}

pub proof fn lemma_claims_valid(
    groups: Seq<PreparedAtlasGroup>,
    slots: Seq<CachedAtlasSlot>,
    prior_keys: Seq<Vec<String>>,
    shared: AtlasSharedConfig,
    pairs: Seq<(usize, usize)>,
    claims: Seq<Option<usize>>,
)
    requires
        groups.len() <= usize::MAX,
        is_best_matching(groups, slots, prior_keys, shared, pairs),
        claims_of(groups.len() as int, pairs, claims),
    ensures
        claims_name_slots(claims, slots),
        claims_distinct(claims),
{
    lemma_pairs_valid(groups, slots, prior_keys, shared, pairs);
    assert forall|g: int| 0 <= g < claims.len() implies ((#[trigger] claims[g]) matches Some(s)
        ==> s < slots.len()) by {
        if let Some(s) = claims[g] {
            assert(pairs.contains((g as usize, s)));
            let i = choose|i: int| 0 <= i < pairs.len() && pairs[i] == (g as usize, s);
            assert(pairs[i].1 < slots.len());
        }
    }
    assert forall|g: int, h: int|
        0 <= g < claims.len() && 0 <= h < claims.len() && g != h && (#[trigger] claims[g]) is Some
            && (#[trigger] claims[h]) is Some implies claims[g] != claims[h] by {
        let s = claims[g]->0;
        let t = claims[h]->0;
        assert(pairs.contains((g as usize, s)));
        assert(pairs.contains((h as usize, t)));
        let i = choose|i: int| 0 <= i < pairs.len() && pairs[i] == (g as usize, s);
        let j = choose|j: int| 0 <= j < pairs.len() && pairs[j] == (h as usize, t);
        if i < j {
            assert(pairs[i].1 != pairs[j].1);
        } else if j < i {
            assert(pairs[j].1 != pairs[i].1);
        }
    }
}

/// No more slots are retained than there were.
proof fn lemma_kept_count(
    slots: Seq<CachedAtlasSlot>,
    claims: Seq<Option<usize>>,
    kept: Seq<usize>,
)
    requires
        claims_name_slots(claims, slots),
        claims_distinct(claims),
        as_ints(kept) == claimed_groups(claims, claims.len() as int),
    ensures
        kept.len() <= slots.len(),
{
    lemma_claimed_groups(claims, claims.len() as int);
    let list = claimed_groups(claims, claims.len() as int);
    let claimed = Seq::new(kept.len(), |i: int| claims[kept[i] as int]->0);
    assert forall|i: int| 0 <= i < kept.len() implies kept[i] as int == #[trigger] list[i] by {
        assert(as_ints(kept)[i] == kept[i] as int);
    }
    assert(claimed.no_duplicates()) by {
        assert forall|i: int, j: int|
            0 <= i < claimed.len() && 0 <= j < claimed.len() && i != j implies claimed[i]
            != claimed[j] by {
            assert(kept[i] as int == list[i] && kept[j] as int == list[j]);
            if i < j {
                assert(list[i] < list[j]);
            } else {
                assert(list[j] < list[i]);
            }
            assert(claims[list[i]] is Some && claims[list[j]] is Some);
            assert(claims[list[i]] != claims[list[j]]);
        }
    }
    assert forall|i: int| 0 <= i < claimed.len() implies (#[trigger] claimed[i]) < slots.len() by {
        assert(kept[i] as int == list[i]);
        assert(claims[list[i]] is Some);
    }
    lemma_distinct_count(claimed, slots.len());
}

// ---------------------------------------------------------------------------------------------
// Slot identities of the groups
// ---------------------------------------------------------------------------------------------

/// The groups of the retained, placed, and appended slots, in that order.
pub open spec fn slot_groups(
    groups: Seq<PreparedAtlasGroup>,
    kept: Seq<usize>,
    taken: Seq<(usize, usize, CachedAtlasRect)>,
    captured: Seq<CapturedFrame>,
) -> Seq<int> {
    Seq::new(kept.len(), |i: int| kept[i] as int) + Seq::new(
        taken.len(),
        |i: int| taken[i].0 as int,
    ) + Seq::new(captured.len(), |i: int| group_of_item(groups, captured[i].frame.key@))
}

/// `ids` holds, for each group, the identity of the slot that stands for it.
pub open spec fn ids_follow(
    owners: Seq<int>,
    slots: Seq<CachedAtlasSlot>,
    ids: Seq<u64>,
) -> bool {
    &&& owners.len() == slots.len()
    &&& forall|i: int|
        0 <= i < owners.len() ==> 0 <= #[trigger] owners[i] < ids.len() && ids[owners[i]]
            == slots[i].slot_id
}

/// Every group owns exactly one slot.
pub open spec fn owns_once(group_count: int, owners: Seq<int>) -> bool {
    &&& owners.no_duplicates()
    &&& forall|g: int| #[trigger] owners.contains(g) <==> 0 <= g < group_count
}

/// Retained, placed, and appended slots together stand for every group exactly once.
proof fn lemma_owns_once(
    groups: Seq<PreparedAtlasGroup>,
    shared: AtlasSharedConfig,
    claims: Seq<Option<usize>>,
    kept: Seq<usize>,
    order: Seq<usize>,
    spots: Seq<Option<(usize, CachedAtlasRect)>>,
    captured: Seq<CapturedFrame>,
)
    requires
        groups.len() <= usize::MAX,
        claims.len() == groups.len(),
        groups_partition(groups),
        as_ints(kept) == claimed_groups(claims, groups.len() as int),
        is_placing_order(groups, claims, shared, order),
        spots.len() == order.len(),
        places_chosen(captured, groups, as_ints(unspotted(order, spots, order.len() as int))),
    ensures
        owns_once(
            groups.len() as int,
            slot_groups(groups, kept, spotted(order, spots, order.len() as int), captured),
        ),
{
    let n = groups.len() as int;
    let end = order.len() as int;
    let taken = spotted(order, spots, end);
    let left = unspotted(order, spots, end);
    let owners = slot_groups(groups, kept, taken, captured);
    lemma_claimed_groups(claims, n);
    lemma_spot_partition(order, spots, end);
    let listed = claimed_groups(claims, n);
    let a = kept.len() as int;
    let b = a + taken.len();
    assert forall|i: int| 0 <= i < a implies #[trigger] owners[i] == listed[i] by {
        assert(as_ints(kept)[i] == kept[i] as int);
    }
    assert forall|i: int| a <= i < b implies #[trigger] owners[i] == taken[i - a].0 by {}
    assert forall|i: int| b <= i < owners.len() implies #[trigger] owners[i] == group_of_item(
        groups,
        captured[i - b].frame.key@,
    ) by {}
    // Which part an entry belongs to shows in the claims and spots.
    assert forall|i: int| a <= i < b implies order.contains((#[trigger] owners[i]) as usize)
        && has_spot(taken, owners[i] as usize) && 0 <= owners[i] < n by {
        assert(takes_from(order, spots, end, taken[i - a]));
        let k = choose|k: int|
            0 <= k < end && #[trigger] order[k] == taken[i - a].0 && spots[k] == Some(
                (taken[i - a].1, taken[i - a].2),
            );
        assert(order.contains(order[k]));
        assert(taken[i - a].0 == owners[i]);
    }
    assert forall|i: int| b <= i < owners.len() implies order.contains(
        (#[trigger] owners[i]) as usize,
    ) && left.contains(owners[i] as usize) && 0 <= owners[i] < n by {
        let key = captured[i - b].frame.key@;
        assert(as_ints(left).contains(group_of_item(groups, key)));
        let j = choose|j: int| 0 <= j < as_ints(left).len() && as_ints(left)[j] == owners[i];
        assert(left[j] as int == owners[i]);
        assert(left.contains(left[j]));
        assert(leaves_from(order, spots, end, left[j]));
        let k = choose|k: int| 0 <= k < end && #[trigger] order[k] == left[j] && spots[k] is None;
        assert(order.contains(order[k]));
    }
    assert forall|g: usize| has_spot(taken, g) implies !left.contains(g) by {
        if left.contains(g) {
            let j = choose|j: int| 0 <= j < left.len() && left[j] == g;
            assert(leaves_from(order, spots, end, left[j]));
            let k = choose|k: int| 0 <= k < end && #[trigger] order[k] == g && spots[k] is None;
            let i = choose|i: int| 0 <= i < taken.len() && (#[trigger] taken[i]).0 == g;
            assert(takes_from(order, spots, end, taken[i]));
            let m = choose|m: int|
                0 <= m < end && #[trigger] order[m] == taken[i].0 && spots[m] == Some(
                    (taken[i].1, taken[i].2),
                );
            assert(order[k] == order[m]);
        }
    }
    assert(owners.no_duplicates()) by {
        assert forall|i: int, j: int| 0 <= i < owners.len() && 0 <= j < owners.len() && i
            != j implies owners[i] != owners[j] by {
            let x = if i < j { i } else { j };
            let y = if i < j { j } else { i };
            if y < a {
                assert(listed[x] < listed[y]);
            } else if x < a {
                assert(claims[listed[x]] is Some);
                assert(order.contains(owners[y] as usize));
            } else if y < b {
                assert(taken[x - a].0 != taken[y - a].0);
            } else if x < b {
                assert(has_spot(taken, owners[x] as usize));
                assert(left.contains(owners[y] as usize));
            } else {
                assert(captured[x - b].frame.key@ != captured[y - b].frame.key@);
                let g = group_of_item(groups, captured[x - b].frame.key@);
                let h = group_of_item(groups, captured[y - b].frame.key@);
                assert(places_group(captured, groups, x - b, g));
                assert(places_group(captured, groups, y - b, h));
                assert(groups[g].item.key@ == captured[x - b].frame.key@);
                assert(groups[h].item.key@ == captured[y - b].frame.key@);
            }
        }
    }
    assert forall|g: int| #[trigger] owners.contains(g) <==> 0 <= g < n by {
        if owners.contains(g) {
            let i = choose|i: int| 0 <= i < owners.len() && owners[i] == g;
            if i < a {
                assert(0 <= listed[i] < n);
            }
        }
        if 0 <= g < n {
            if claims[g] is Some {
                assert(listed.contains(g));
                let i = choose|i: int| 0 <= i < listed.len() && listed[i] == g;
                assert(owners[i] == g);
            } else {
                assert(order.contains(g as usize));
                let k = choose|k: int| 0 <= k < order.len() && order[k] == g as usize;
                if spots[k] is Some {
                    assert(has_spot(taken, order[k]));
                    let i = choose|i: int|
                        0 <= i < taken.len() && (#[trigger] taken[i]).0 == order[k];
                    assert(owners[a + i] == g);
                } else {
                    assert(left.contains(order[k]));
                    let j = choose|j: int| 0 <= j < left.len() && left[j] == order[k];
                    assert(as_ints(left)[j] == g);
                    assert(captures_key(captured, groups[as_ints(left)[j]].item.key@));
                    let i = choose|i: int|
                        0 <= i < captured.len() && (#[trigger] captured[i]).frame.key@
                            == groups[g].item.key@;
                    lemma_group_of_item(groups, g);
                    assert(owners[b + i] == g);
                }
            }
        }
    }
}

/// Files each slot's identity under the group that owns it.
fn assign_ids(group_count: usize, owners: &[usize], slots: &[CachedAtlasSlot]) -> (ids: Vec<u64>)
    requires
        owners@.len() == slots@.len(),
        owners@.no_duplicates(),
        forall|i: int| 0 <= i < owners@.len() ==> (#[trigger] owners@[i]) < group_count,
    ensures
        ids@.len() == group_count,
        ids_follow(as_ints(owners@), slots@, ids@),
{
    let mut ids: Vec<u64> = Vec::new();
    let mut g: usize = 0;
    while g < group_count
        invariant
            g <= group_count,
            ids@.len() == g,
        decreases group_count - g,
    {
        ids.push(0);
        g = g + 1;
    }
    let mut i: usize = 0;
    while i < owners.len()
        invariant
            i <= owners@.len(),
            owners@.len() == slots@.len(),
            owners@.no_duplicates(),
            ids@.len() == group_count,
            forall|k: int| 0 <= k < owners@.len() ==> (#[trigger] owners@[k]) < group_count,
            forall|k: int|
                0 <= k < i ==> ids@[#[trigger] owners@[k] as int] == slots@[k].slot_id,
        decreases owners@.len() - i,
    {
        let ghost before = ids@;
        ids.set(owners[i], slots[i].slot_id);
        proof {
            assert forall|k: int| 0 <= k < i + 1 implies ids@[#[trigger] owners@[k] as int]
                == slots@[k].slot_id by {
                if k < i {
                    assert(owners@[k] != owners@[i as int]);
                }
            }
        }
        i = i + 1;
    }
    ids
}

/// Lists the owners of the retained, placed, and appended slots.
fn list_owners(
    groups: &[PreparedAtlasGroup],
    kept: &[usize],
    taken: &[(usize, usize, CachedAtlasRect)],
    captured: &[CapturedFrame],
) -> (owners: Vec<usize>)
    requires
        groups_partition(groups@),
        forall|i: int|
            0 <= i < captured@.len() ==> has_provider(
                groups@,
                (#[trigger] captured@[i]).frame.key@,
            ),
    ensures
        as_ints(owners@) == slot_groups(groups@, kept@, taken@, captured@),
{
    let by_item = item_groups(groups);
    let mut owners: Vec<usize> = Vec::new();
    let mut i: usize = 0;
    while i < kept.len()
        invariant
            i <= kept@.len(),
            owners@.len() == i,
            forall|k: int| 0 <= k < i ==> #[trigger] owners@[k] == kept@[k],
        decreases kept@.len() - i,
    {
        owners.push(kept[i]);
        i = i + 1;
    }
    let mut t: usize = 0;
    while t < taken.len()
        invariant
            t <= taken@.len(),
            owners@.len() == kept@.len() + t,
            forall|k: int| 0 <= k < kept@.len() ==> #[trigger] owners@[k] == kept@[k],
            forall|k: int|
                kept@.len() <= k < owners@.len() ==> #[trigger] owners@[k] == taken@[k
                    - kept@.len()].0,
        decreases taken@.len() - t,
    {
        owners.push(taken[t].0);
        t = t + 1;
    }
    let mut c: usize = 0;
    while c < captured.len()
        invariant
            c <= captured@.len(),
            by_item.wf(),
            forall|key: Seq<char>| #[trigger]
                by_item@.dom().contains(key) <==> has_provider(groups@, key),
            forall|key: Seq<char>| #[trigger]
                by_item@.dom().contains(key) ==> by_item@[key] as int == group_of_item(
                    groups@,
                    key,
                ),
            forall|k: int|
                0 <= k < captured@.len() ==> has_provider(
                    groups@,
                    (#[trigger] captured@[k]).frame.key@,
                ),
            owners@.len() == kept@.len() + taken@.len() + c,
            forall|k: int| 0 <= k < kept@.len() ==> #[trigger] owners@[k] == kept@[k],
            forall|k: int|
                kept@.len() <= k < kept@.len() + taken@.len() ==> #[trigger] owners@[k] == taken@[k
                    - kept@.len()].0,
            forall|k: int|
                kept@.len() + taken@.len() <= k < owners@.len() ==> #[trigger] owners@[k] as int
                    == group_of_item(
                    groups@,
                    captured@[k - kept@.len() - taken@.len()].frame.key@,
                ),
        decreases captured@.len() - c,
    {
        proof {
            assert(has_provider(groups@, captured@[c as int].frame.key@));
            assert(by_item@.dom().contains(captured@[c as int].frame.key@));
        }
        owners.push(*by_item.get(captured[c].frame.key.as_str()).unwrap());
        c = c + 1;
    }
    assert(as_ints(owners@) =~= slot_groups(groups@, kept@, taken@, captured@));
    owners
}

// ---------------------------------------------------------------------------------------------
// Pages
// ---------------------------------------------------------------------------------------------

/// Some slot lies on the page.
pub open spec fn page_used(slots: Seq<CachedAtlasSlot>, page_id: int) -> bool {
    exists|i: int| 0 <= i < slots.len() && (#[trigger] slots[i]).page_id == page_id
}

/// `kept` is `pages` without its trailing pages that no slot lies on.
pub open spec fn is_truncated(
    pages: Seq<CachedAtlasPage>,
    slots: Seq<CachedAtlasSlot>,
    kept: Seq<CachedAtlasPage>,
) -> bool {
    &&& kept.len() <= pages.len()
    &&& kept == pages.take(kept.len() as int)
    &&& kept.len() > 0 ==> page_used(slots, kept.len() - 1)
    &&& forall|p: int| kept.len() <= p < pages.len() ==> !#[trigger] page_used(slots, p)
}

/// Whether some slot lies on the page.
pub fn uses_page(slots: &[CachedAtlasSlot], page_id: usize) -> (r: bool)
    ensures
        r == page_used(slots@, page_id as int),
{
    let mut i: usize = 0;
    while i < slots.len()
        invariant
            i <= slots@.len(),
            forall|k: int| 0 <= k < i ==> (#[trigger] slots@[k]).page_id != page_id,
        decreases slots@.len() - i,
    {
        if slots[i].page_id as usize == page_id {
            assert(slots@[i as int].page_id == page_id);
            return true;
        }
        i = i + 1;
    }
    false
}

/// Drops the trailing pages that no slot lies on.
pub fn truncate_pages(pages: Vec<CachedAtlasPage>, slots: &[CachedAtlasSlot]) -> (r: Vec<
    CachedAtlasPage,
>)
    ensures
        is_truncated(pages@, slots@, r@),
{
    let mut kept: Vec<CachedAtlasPage> = pages;
    assert(kept@ =~= pages@.take(kept@.len() as int));
    while kept.len() > 0 && !uses_page(slots, kept.len() - 1)
        invariant
            kept@.len() <= pages@.len(),
            kept@ == pages@.take(kept@.len() as int),
            forall|p: int|
                kept@.len() <= p < pages@.len() ==> !#[trigger] page_used(slots@, p),
        decreases kept@.len(),
    {
        kept.pop();
        assert(kept@ =~= pages@.take(kept@.len() as int));
    }
    kept
}

/// Pages before `end` that no slot lies on.
pub open spec fn unused_before(slots: Seq<CachedAtlasSlot>, end: int) -> int
    decreases end,
{
    if end <= 0 {
        0
    } else if page_used(slots, end - 1) {
        unused_before(slots, end - 1)
    } else {
        unused_before(slots, end - 1) + 1
    }
}

fn count_unused(slots: &[CachedAtlasSlot], page_count: usize) -> (count: usize)
    ensures
        count == unused_before(slots@, page_count as int),
{
    let mut count: usize = 0;
    let mut p: usize = 0;
    while p < page_count
        invariant
            p <= page_count,
            count <= p,
            count == unused_before(slots@, p as int),
        decreases page_count - p,
    {
        if !uses_page(slots, p) {
            count = count + 1;
        }
        p = p + 1;
    }
    count
}

/// The page shows something that it did not show before.
pub open spec fn is_changed_page(
    touched: Seq<usize>,
    filled: Seq<CachedAtlasSlot>,
    appended: Seq<CachedAtlasSlot>,
    page_id: int,
) -> bool {
    as_ints(touched).contains(page_id) || page_used(filled, page_id) || page_used(appended, page_id)
}

/// Marks of the changed pages.
pub open spec fn marks_changes(
    touched: Seq<usize>,
    filled: Seq<CachedAtlasSlot>,
    appended: Seq<CachedAtlasSlot>,
    marks: Seq<bool>,
) -> bool {
    forall|p: int|
        0 <= p < marks.len() ==> #[trigger] marks[p] == is_changed_page(
            touched,
            filled,
            appended,
            p,
        )
}

fn holds_index(indices: &[usize], index: usize) -> (r: bool)
    ensures
        r == as_ints(indices@).contains(index as int),
{
    let mut i: usize = 0;
    while i < indices.len()
        invariant
            i <= indices@.len(),
            forall|k: int| 0 <= k < i ==> (#[trigger] indices@[k]) != index,
        decreases indices@.len() - i,
    {
        if indices[i] == index {
            assert(as_ints(indices@)[i as int] == index as int);
            return true;
        }
        i = i + 1;
    }
    proof {
        if as_ints(indices@).contains(index as int) {
            let k = choose|k: int|
                0 <= k < as_ints(indices@).len() && as_ints(indices@)[k] == index as int;
            assert(indices@[k] != index);
        }
    }
    false
}

fn mark_pages(
    page_count: usize,
    touched: &[usize],
    filled: &[CachedAtlasSlot],
    appended: &[CachedAtlasSlot],
) -> (marks: Vec<bool>)
    ensures
        marks@.len() == page_count,
        marks_changes(touched@, filled@, appended@, marks@),
{
    let mut marks: Vec<bool> = Vec::new();
    let mut p: usize = 0;
    while p < page_count
        invariant
            p <= page_count,
            marks@.len() == p,
            marks_changes(touched@, filled@, appended@, marks@),
        decreases page_count - p,
    {
        marks.push(holds_index(touched, p) || uses_page(filled, p) || uses_page(appended, p));
        p = p + 1;
    }
    marks
}

/// The group shares a key with some prior slot.
pub open spec fn was_placed(
    group: PreparedAtlasGroup,
    prior_keys: Seq<Vec<String>>,
) -> bool {
    exists|s: int|
        0 <= s < prior_keys.len() && shared_count(
            texts(group.logical_keys@),
            texts((#[trigger] prior_keys[s])@),
        ) > 0
}

/// Groups before `end` of the order that had a place before and need a new one.
pub open spec fn relocated_before(
    groups: Seq<PreparedAtlasGroup>,
    prior_keys: Seq<Vec<String>>,
    order: Seq<usize>,
    end: int,
) -> int
    decreases end,
{
    if end <= 0 {
        0
    } else if was_placed(groups[order[end - 1] as int], prior_keys) {
        relocated_before(groups, prior_keys, order, end - 1) + 1
    } else {
        relocated_before(groups, prior_keys, order, end - 1)
    }
}

fn had_place(group: &PreparedAtlasGroup, prior_keys: &[Vec<String>]) -> (r: bool)
    ensures
        r == was_placed(*group, prior_keys@),
{
    let mut s: usize = 0;
    while s < prior_keys.len()
        invariant
            s <= prior_keys@.len(),
            forall|t: int|
                0 <= t < s ==> shared_count(
                    texts(group.logical_keys@),
                    texts((#[trigger] prior_keys@[t])@),
                ) == 0,
        decreases prior_keys@.len() - s,
    {
        if overlap_count(&group.logical_keys, &prior_keys[s]) > 0 {
            assert(shared_count(
                texts(group.logical_keys@),
                texts(prior_keys@[s as int]@),
            ) > 0);
            return true;
        }
        s = s + 1;
    }
    false
}

fn count_relocated(
    groups: &[PreparedAtlasGroup],
    prior_keys: &[Vec<String>],
    order: &[usize],
) -> (count: usize)
    requires
        forall|i: int| 0 <= i < order@.len() ==> (#[trigger] order@[i]) < groups@.len(),
    ensures
        count == relocated_before(groups@, prior_keys@, order@, order@.len() as int),
{
    let mut count: usize = 0;
    let mut i: usize = 0;
    while i < order.len()
        invariant
            i <= order@.len(),
            count <= i,
            forall|k: int| 0 <= k < order@.len() ==> (#[trigger] order@[k]) < groups@.len(),
            count == relocated_before(groups@, prior_keys@, order@, i as int),
        decreases order@.len() - i,
    {
        if had_place(&groups[order[i]], prior_keys) {
            count = count + 1;
        }
        i = i + 1;
    }
    count
}

fn joined_slots(
    retained: &[CachedAtlasSlot],
    filled: &[CachedAtlasSlot],
    appended: &[CachedAtlasSlot],
) -> (slots: Vec<CachedAtlasSlot>)
    ensures
        slots@ == retained@ + filled@ + appended@,
{
    let mut slots: Vec<CachedAtlasSlot> = Vec::new();
    push_slots(&mut slots, retained);
    push_slots(&mut slots, filled);
    push_slots(&mut slots, appended);
    assert(slots@ =~= retained@ + filled@ + appended@);
    slots
}

fn push_slots(slots: &mut Vec<CachedAtlasSlot>, more: &[CachedAtlasSlot])
    ensures
        final(slots)@ == old(slots)@ + more@,
{
    let mut i: usize = 0;
    assert(slots@ =~= old(slots)@ + more@.take(0));
    while i < more.len()
        invariant
            i <= more@.len(),
            slots@ == old(slots)@ + more@.take(i as int),
        decreases more@.len() - i,
    {
        slots.push(more[i].clone());
        proof {
            assert(more@.take(i + 1) =~= more@.take(i as int).push(more@[i as int]));
            assert(slots@ =~= old(slots)@ + more@.take(i + 1));
        }
        i = i + 1;
    }
    assert(more@.take(i as int) =~= more@);
}

fn joined_pages(prior: &[CachedAtlasPage], appended: &[Page]) -> (pages: Vec<CachedAtlasPage>)
    ensures
        pages@ == prior@ + page_sizes(appended@),
{
    let sizes = sizes_of_pages(appended);
    let mut pages: Vec<CachedAtlasPage> = Vec::new();
    let mut i: usize = 0;
    while i < prior.len()
        invariant
            i <= prior@.len(),
            pages@ == prior@.take(i as int),
        decreases prior@.len() - i,
    {
        pages.push(prior[i]);
        assert(prior@.take(i + 1) =~= prior@.take(i as int).push(prior@[i as int]));
        i = i + 1;
    }
    assert(prior@.take(i as int) =~= prior@);
    let mut j: usize = 0;
    assert(pages@ =~= prior@ + sizes@.take(0));
    while j < sizes.len()
        invariant
            j <= sizes@.len(),
            pages@ == prior@ + sizes@.take(j as int),
        decreases sizes@.len() - j,
    {
        pages.push(sizes[j]);
        proof {
            assert(sizes@.take(j + 1) =~= sizes@.take(j as int).push(sizes@[j as int]));
            assert(pages@ =~= prior@ + sizes@.take(j + 1));
        }
        j = j + 1;
    }
    assert(sizes@.take(j as int) =~= sizes@);
    pages
}

// ---------------------------------------------------------------------------------------------
// The whole run
// ---------------------------------------------------------------------------------------------

/// The steps of one reconciliation.
pub struct Reconciliation {
    /// Logical keys of every prior slot.
    pub prior_keys: Seq<Vec<String>>,
    /// The matching of groups to prior slots.
    pub pairs: Seq<(usize, usize)>,
    /// The matched slot of each group.
    pub claims: Seq<Option<usize>>,
    pub retained: Retained,
    /// What the retained slots leave free on each prior page.
    pub free: Seq<Seq<CachedAtlasRect>>,
    /// The unmatched groups in the order in which they are placed.
    pub order: Seq<usize>,
    /// The spot of each unmatched group on the prior pages.
    pub spots: Seq<Option<(usize, CachedAtlasRect)>>,
    /// What is free after that.
    pub rest: Seq<Seq<CachedAtlasRect>>,
    pub filled: Filled,
    pub appended: AppendedView,
    /// The slot of each group.
    pub ids: Seq<u64>,
}

/// The groups are matched to the prior slots.
pub open spec fn matches_prior(
    prior: CachedAtlasFamily,
    groups: Seq<PreparedAtlasGroup>,
    shared: AtlasSharedConfig,
    run: Reconciliation,
) -> bool {
    &&& lists_prior_keys(prior, run.prior_keys)
    &&& all_measured(groups, shared)
    &&& is_best_matching(groups, prior.slots@, run.prior_keys, shared, run.pairs)
    &&& claims_of(groups.len() as int, run.pairs, run.claims)
}

/// The matched slots are retained.
pub open spec fn keeps_matched(
    prior: CachedAtlasFamily,
    groups: Seq<PreparedAtlasGroup>,
    shared: AtlasSharedConfig,
    run: Reconciliation,
) -> bool {
    is_retained(
        prior.slots@,
        groups,
        run.claims,
        shared,
        groups.len() as int,
        run.retained,
    )
}

/// The unmatched groups look for spots on the prior pages.
pub open spec fn places_unmatched(
    prior: CachedAtlasFamily,
    groups: Seq<PreparedAtlasGroup>,
    shared: AtlasSharedConfig,
    run: Reconciliation,
) -> bool {
    &&& pages_seeded(prior.pages@, run.retained.slots@, shared.border_padding, run.free)
    &&& is_placing_order(groups, run.claims, shared, run.order)
    &&& run.spots.len() == run.order.len()
    &&& take_spots(groups, shared, run.order, run.free, run.spots, run.rest)
}

/// The spots are filled with new slots.
pub open spec fn fills_found(
    prior: CachedAtlasFamily,
    groups: Seq<PreparedAtlasGroup>,
    shared: AtlasSharedConfig,
    run: Reconciliation,
) -> bool {
    let end = run.order.len() as int;
    &&& run.filled.taken@ == spotted(run.order, run.spots, end)
    &&& run.filled.unplaced@ == unspotted(run.order, run.spots, end)
    &&& slots_fill_spots(
        groups,
        shared,
        run.filled.taken@,
        prior.next_slot_id,
        run.filled.slots@,
    )
}

/// Identity of the first appended slot.
pub open spec fn first_appended(prior: CachedAtlasFamily, run: Reconciliation) -> u64 {
    (prior.next_slot_id + run.filled.slots@.len()) as u64
}

/// What is left over goes onto appended pages.
pub open spec fn appends_rest(
    prior: CachedAtlasFamily,
    groups: Seq<PreparedAtlasGroup>,
    shared: AtlasSharedConfig,
    run: Reconciliation,
) -> bool {
    appends(
        groups,
        shared,
        run.filled.unplaced@,
        prior.pages@.len() as int,
        first_appended(prior, run),
        run.appended,
    )
}

/// All slots of the run: retained, placed, and appended.
pub open spec fn all_slots(run: Reconciliation) -> Seq<CachedAtlasSlot> {
    run.retained.slots@ + run.filled.slots@ + run.appended.slots
}

/// The groups that own the slots of the run.
pub open spec fn all_owners(
    groups: Seq<PreparedAtlasGroup>,
    run: Reconciliation,
) -> Seq<int> {
    slot_groups(groups, run.retained.kept@, run.filled.taken@, run.appended.captured)
}

/// Prior and appended pages of the run.
pub open spec fn all_pages(prior: CachedAtlasFamily, run: Reconciliation) -> Seq<CachedAtlasPage> {
    prior.pages@ + page_sizes(run.appended.pages)
}

/// The steps of the run follow from each other.
pub open spec fn is_run(
    prior: CachedAtlasFamily,
    groups: Seq<PreparedAtlasGroup>,
    shared: AtlasSharedConfig,
    run: Reconciliation,
) -> bool {
    &&& matches_prior(prior, groups, shared, run)
    &&& keeps_matched(prior, groups, shared, run)
    &&& places_unmatched(prior, groups, shared, run)
    &&& fills_found(prior, groups, shared, run)
    &&& appends_rest(prior, groups, shared, run)
    &&& owns_once(groups.len() as int, all_owners(groups, run))
    &&& run.ids.len() == groups.len()
    &&& ids_follow(all_owners(groups, run), all_slots(run), run.ids)
}

/// The family records the outcome of the run.
pub open spec fn records_run<F: Fn(u32, u32) -> u32>(
    ratio: F,
    prior: CachedAtlasFamily,
    groups: Seq<PreparedAtlasGroup>,
    run: Reconciliation,
    family: CachedAtlasFamily,
    bindings: Map<Seq<char>, (usize, UvBound)>,
) -> bool {
    &&& ranked(family.slots@)
    &&& family.slots@.to_multiset() == all_slots(run).to_multiset()
    &&& family.next_slot_id == prior.next_slot_id + run.filled.slots@.len()
        + run.appended.slots.len()
    &&& is_truncated(all_pages(prior, run), family.slots@, family.pages@)
    &&& relates_groups(groups, run.ids, family.key_slots@)
    &&& binds_relations(ratio, family.pages@, family.slots@, family.key_slots@, bindings)
    &&& lists_bindings(bindings, family.bindings@)
}

/// Totals of the run.
pub open spec fn run_stats(
    prior: CachedAtlasFamily,
    groups: Seq<PreparedAtlasGroup>,
    shared: AtlasSharedConfig,
    run: Reconciliation,
    family: CachedAtlasFamily,
) -> AtlasAllocationStats {
    let areas = stats_of(family, shared)->Ok_0;
    AtlasAllocationStats {
        retained_slots: run.retained.slots@.len() as usize,
        allocated_slots: (run.filled.slots@.len() + run.appended.slots.len()) as usize,
        freed_slots: (prior.slots@.len() - run.retained.slots@.len()) as usize,
        relocated_slots: relocated_before(
            groups,
            run.prior_keys,
            run.order,
            run.order.len() as int,
        ) as usize,
        provider_promoted_slots: run.retained.promoted,
        appended_pages: run.appended.pages.len() as usize,
        retained_empty_pages: unused_before(family.slots@, family.pages@.len() as int) as usize,
        truncated_pages: (all_pages(prior, run).len() - family.pages@.len()) as usize,
        ..areas
    }
}

/// The allocated family is the outcome of the run.
pub open spec fn is_reconciled<F: Fn(u32, u32) -> u32>(
    ratio: F,
    prior: CachedAtlasFamily,
    groups: Seq<PreparedAtlasGroup>,
    shared: AtlasSharedConfig,
    run: Reconciliation,
    family: AllocatedAtlasFamily,
) -> bool {
    &&& is_run(prior, groups, shared, run)
    &&& records_run(ratio, prior, groups, run, family.cache, family.bindings@)
    &&& exists|marks: Seq<bool>|
        {
            &&& marks.len() == family.cache.pages@.len()
            &&& #[trigger] marks_changes(
                run.retained.touched@,
                run.filled.slots@,
                run.appended.slots,
                marks,
            )
            &&& describes_pages(family.cache, marks, family.pages@)
        }
    &&& family.provider_renames@ == run.retained.renames@
    &&& stats_of(family.cache, shared) is Ok
    &&& family.stats == run_stats(prior, groups, shared, run, family.cache)
}

/// Some step of the run stops with `error`.
pub open spec fn run_fails(
    prior: CachedAtlasFamily,
    groups: Seq<PreparedAtlasGroup>,
    shared: AtlasSharedConfig,
    run: Reconciliation,
    error: AtlasError,
) -> bool {
    let matched = matches_prior(prior, groups, shared, run);
    let kept = matched && keeps_matched(prior, groups, shared, run);
    let placed = kept && places_unmatched(prior, groups, shared, run);
    let filled = placed && fills_found(prior, groups, shared, run);
    ||| error == AtlasError::SlotWithoutKeys && exists|s: int|
        0 <= s < prior.slots@.len() && !#[trigger] slot_has_keys(prior, s)
    ||| lists_prior_keys(prior, run.prior_keys) && matching_fails(
        groups,
        prior.slots@,
        run.prior_keys,
        shared,
        error,
    )
    ||| matched && exists|g: int| #[trigger]
        is_first_unretained(prior.slots@, groups, run.claims, shared, g, error)
    ||| kept && seeding_pages_fails(
        prior.pages@,
        run.retained.slots@,
        shared.border_padding,
        error,
    )
    ||| placed && exists|i: int| #[trigger]
        is_first_unfilled(
            groups,
            shared,
            spotted(run.order, run.spots, run.order.len() as int),
            prior.next_slot_id,
            i,
            error,
        )
    ||| filled && appending_fails(
        groups,
        shared,
        run.filled.unplaced@,
        prior.pages@.len() as int,
        first_appended(prior, run),
        error,
    )
}

/// Reconciling stops with `error`: at some step of the run, or where the areas are totalled.
pub open spec fn reconcile_fails<F: Fn(u32, u32) -> u32>(
    ratio: F,
    prior: CachedAtlasFamily,
    groups: Seq<PreparedAtlasGroup>,
    shared: AtlasSharedConfig,
    error: AtlasError,
) -> bool {
    ||| exists|run: Reconciliation| #[trigger] run_fails(prior, groups, shared, run, error)
    ||| exists|
        run: Reconciliation,
        family: CachedAtlasFamily,
        bindings: Map<Seq<char>, (usize, UvBound)>,
    |
        {
            &&& is_run(prior, groups, shared, run)
            &&& #[trigger] records_run(ratio, prior, groups, run, family, bindings)
            &&& stats_of(family, shared) == Err::<AtlasAllocationStats, AtlasError>(error)
        }
}

/// Every slot lies on a page of the family.
pub open spec fn slots_on_pages(family: CachedAtlasFamily) -> bool {
    forall|s: int|
        0 <= s < family.slots@.len() ==> (#[trigger] family.slots@[s]).page_id
            < family.pages@.len()
}

pub proof fn lemma_occupied_contains(slots: Seq<CachedAtlasSlot>, i: int)
    requires
        0 <= i < slots.len(),
    ensures
        occupied_on(slots, slots[i].page_id as int).contains(
            (slots[i].slot_id, slots[i].reserved_rect),
        ),
    decreases slots.len(),
{
    let page_id = slots[i].page_id as int;
    let list = occupied_on(slots, page_id);
    if i == slots.len() - 1 {
        assert(list[list.len() - 1] == (slots[i].slot_id, slots[i].reserved_rect));
    } else {
        lemma_occupied_contains(slots.drop_last(), i);
        let before = occupied_on(slots.drop_last(), page_id);
        let entry = (slots[i].slot_id, slots[i].reserved_rect);
        let k = choose|k: int| 0 <= k < before.len() && before[k] == entry;
        assert(list[k] == entry);
    }
}

/// Content in a reservation with representable edges has representable edges.
pub proof fn lemma_destination_fits(reserved: CachedAtlasRect, width: u32, height: u32, shared: AtlasSharedConfig)
    requires
        reserved.fits(),
        destination_within(reserved, width, height, shared) is Ok,
    ensures
        destination_within(reserved, width, height, shared)->Ok_0.fits(),
        reserved.encloses(destination_within(reserved, width, height, shared)->Ok_0),
{
}

/// Every slot of a run lies on a page of the run and has a destination with representable edges.
pub proof fn lemma_run_slots_valid(
    prior: CachedAtlasFamily,
    groups: Seq<PreparedAtlasGroup>,
    shared: AtlasSharedConfig,
    run: Reconciliation,
    i: int,
)
    requires
        slots_on_pages(prior),
        matches_prior(prior, groups, shared, run),
        keeps_matched(prior, groups, shared, run),
        places_unmatched(prior, groups, shared, run),
        fills_found(prior, groups, shared, run),
        appends_rest(prior, groups, shared, run),
        groups.len() <= usize::MAX,
        prior.pages@.len() + run.appended.pages.len() <= usize::MAX,
        0 <= i < all_slots(run).len(),
    ensures
        all_slots(run)[i].destination.fits(),
        all_slots(run)[i].page_id < all_pages(prior, run).len(),
{
    let a = run.retained.slots@.len() as int;
    let b = a + run.filled.slots@.len();
    let slot = all_slots(run)[i];
    if i < a {
        assert(slot == run.retained.slots@[i]);
        lemma_claims_valid(groups, prior.slots@, run.prior_keys, shared, run.pairs, run.claims);
        lemma_claimed_groups(run.claims, groups.len() as int);
        let list = claimed_groups(run.claims, groups.len() as int);
        let g = run.retained.kept@[i] as int;
        assert(as_ints(run.retained.kept@)[i] == g);
        assert(list[i] == g);
        let old = prior.slots@[run.claims[g]->0 as int];
        assert(run.claims[g] is Some);
        assert(slot.page_id == old.page_id);
        assert(old.page_id < prior.pages@.len());
        lemma_occupied_contains(run.retained.slots@, i);
        let occupied = occupied_on(run.retained.slots@, slot.page_id as int);
        assert(page_seeded(
            prior.pages@[slot.page_id as int],
            shared.border_padding,
            occupied,
            run.free[slot.page_id as int],
        ));
        let k = choose|k: int|
            0 <= k < occupied.len() && occupied[k] == (slot.slot_id, slot.reserved_rect);
        assert(occupied[k].1.fits());
        lemma_destination_fits(slot.reserved_rect, groups[g].item.w, groups[g].item.h, shared);
    } else if i < b {
        let k = i - a;
        assert(slot == run.filled.slots@[k]);
        lemma_spots_valid(groups, shared, run.order, run.free, run.spots, run.rest);
        lemma_spot_partition(run.order, run.spots, run.order.len() as int);
        let taken = run.filled.taken@[k];
        assert(takes_from(run.order, run.spots, run.order.len() as int, taken));
        let m = choose|m: int|
            0 <= m < run.order.len() && #[trigger] run.order[m] == taken.0 && run.spots[m] == Some(
                (taken.1, taken.2),
            );
        assert(run.spots[m] is Some);
        lemma_destination_fits(
            taken.2,
            groups[taken.0 as int].item.w,
            groups[taken.0 as int].item.h,
            shared,
        );
    } else {
        let k = i - b;
        assert(slot == run.appended.slots[k]);
        lemma_captured_fits(
            run.appended.pages,
            prior.pages@.len() as int,
            shared,
            run.appended.captured,
            k,
        );
    }
}

/// The key relations of a run resolve to slots on the kept pages.
proof fn lemma_run_relations(
    prior: CachedAtlasFamily,
    groups: Seq<PreparedAtlasGroup>,
    shared: AtlasSharedConfig,
    run: Reconciliation,
    slots: Seq<CachedAtlasSlot>,
    pages: Seq<CachedAtlasPage>,
    key_slots: Seq<CachedAtlasKeySlot>,
)
    requires
        slots_on_pages(prior),
        is_run(prior, groups, shared, run),
        groups.len() <= usize::MAX,
        prior.pages@.len() + run.appended.pages.len() <= usize::MAX,
        slots.to_multiset() == all_slots(run).to_multiset(),
        is_truncated(all_pages(prior, run), slots, pages),
        relates_groups(groups, run.ids, key_slots),
    ensures
        destinations_fit(slots, key_slots),
        forall|k: int|
            0 <= k < key_slots.len() ==> relation_resolves(pages, slots, #[trigger] key_slots[k]),
        forall|s: int| 0 <= s < slots.len() ==> (#[trigger] slots[s]).page_id < pages.len(),
{
    lemma_same_multiset(slots, all_slots(run));
    assert forall|s: int| 0 <= s < slots.len() implies (#[trigger] slots[s]).destination.fits()
        && slots[s].page_id < pages.len() by {
        assert(slots.contains(slots[s]));
        assert(all_slots(run).contains(slots[s]));
        let i = choose|i: int| 0 <= i < all_slots(run).len() && all_slots(run)[i] == slots[s];
        lemma_run_slots_valid(prior, groups, shared, run, i);
        if slots[s].page_id >= pages.len() {
            assert(page_used(slots, slots[s].page_id as int));
        }
    }
    assert forall|k: int| 0 <= k < key_slots.len() implies relation_resolves(
        pages,
        slots,
        #[trigger] key_slots[k],
    ) && slots[slot_position(slots, key_slots[k].slot_id)->0].destination.fits() by {
        let path = key_slots[k].path@;
        let id = key_slots[k].slot_id;
        assert(relates(key_slots, path, id));
        assert(group_relates(groups, run.ids, path, id));
        let g = choose|g: int|
            0 <= g < groups.len() && lists_text((#[trigger] groups[g]).logical_keys@, path)
                && run.ids[g] == id;
        let owners = all_owners(groups, run);
        assert(owners.contains(g));
        let i = choose|i: int| 0 <= i < owners.len() && owners[i] == g;
        assert(all_slots(run)[i].slot_id == id);
        assert(all_slots(run).contains(all_slots(run)[i]));
        assert(slots.contains(all_slots(run)[i]));
        let s = choose|s: int| 0 <= s < slots.len() && slots[s] == all_slots(run)[i];
        lemma_slot_position(slots, id);
        assert(slots[s].slot_id == id);
    }
}

/// Reconciles current groups against valid prior family evidence.
pub fn reconcile_family<F: Fn(u32, u32) -> u32>(
    ratio: &F,
    prior: &CachedAtlasFamily,
    family_config: AtlasFamilyConfig,
    layout_input_digest: [u8; 32],
    groups: &[PreparedAtlasGroup],
    texture_fingerprints: Vec<CachedTextureFingerprint>,
    shared: &AtlasSharedConfig,
) -> (r: Result<AllocatedAtlasFamily, AtlasError>)
    requires
        forall|a: u32, b: u32| #[trigger] call_requires(*ratio, (a, b)),
        slots_on_pages(*prior),
        groups_partition(groups@),
        items_measurable(groups@),
        shared.gpu_max <= 0x8000_0000,
        groups@.len() + prior.slots@.len() + 2 <= usize::MAX,
        groups@.len() + prior.pages@.len() <= usize::MAX,
    ensures
        match r {
            Ok(family) => {
                &&& exists|run: Reconciliation| #[trigger]
                    is_reconciled(*ratio, *prior, groups@, *shared, run, family)
                &&& family.cache.family_config == family_config
                &&& family.cache.layout_input_digest == layout_input_digest
                &&& family.cache.texture_fingerprints == texture_fingerprints
                &&& family.bindings.wf()
            },
            Err(e) => reconcile_fails(*ratio, *prior, groups@, *shared, e),
        },
{
    let ghost mut run: Reconciliation = arbitrary();
    let prior_keys = match prior_groups(prior) {
        Ok(keys) => keys,
        Err(e) => {
            assert(run_fails(*prior, groups@, *shared, run, e));
            return Err(e);
        },
    };
    proof {
        run = Reconciliation { prior_keys: prior_keys@, ..run };
    }
    let pairs = match maximum_weight_matching(groups, &prior.slots, &prior_keys, shared) {
        Ok(pairs) => pairs,
        Err(e) => {
            assert(run_fails(*prior, groups@, *shared, run, e));
            return Err(e);
        },
    };
    proof {
        lemma_pairs_valid(groups@, prior.slots@, prior_keys@, *shared, pairs@);
    }
    let claims = spread_matching(groups.len(), &pairs);
    proof {
        run = Reconciliation { pairs: pairs@, claims: claims@, ..run };
        lemma_claims_valid(
            groups@,
            prior.slots@,
            prior_keys@,
            *shared,
            pairs@,
            claims@,
        );
        assert(matches_prior(*prior, groups@, *shared, run));
        assert forall|g: int| 0 <= g < groups@.len() implies (
        #[trigger] groups@[g]).logical_keys@.len() > 0 by {
            assert(is_group(groups@[g]));
        }
    }
    let retained = match retain_slots(&prior.slots, groups, &claims, shared) {
        Ok(retained) => retained,
        Err(e) => {
            assert(run_fails(*prior, groups@, *shared, run, e));
            return Err(e);
        },
    };
    proof {
        run = Reconciliation { retained, ..run };
        assert(keeps_matched(*prior, groups@, *shared, run));
        lemma_kept_count(prior.slots@, claims@, retained.kept@);
    }
    let mut lists = match seed_pages(&prior.pages, &retained.slots, shared.border_padding) {
        Ok(lists) => lists,
        Err(e) => {
            assert(run_fails(*prior, groups@, *shared, run, e));
            return Err(e);
        },
    };
    let order = order_unmatched(groups, &claims, shared);
    proof {
        assert forall|i: int| 0 <= i < order@.len() implies (#[trigger] order@[i])
            < groups@.len() by {
            assert(order@.contains(order@[i]));
        }
        lemma_distinct_count(order@, groups@.len());
    }
    let ghost free = free_areas(lists@);
    let spots = choose_spots(groups, shared, &order, &mut lists);
    proof {
        run = Reconciliation {
            free,
            order: order@,
            spots: spots@,
            rest: free_areas(lists@),
            ..run
        };
        assert(places_unmatched(*prior, groups@, *shared, run));
    }
    let filled = match fill_spots(groups, shared, &order, &spots, prior.next_slot_id) {
        Ok(filled) => filled,
        Err(e) => {
            assert(run_fails(*prior, groups@, *shared, run, e));
            return Err(e);
        },
    };
    let first_id: u64 = prior.next_slot_id + filled.slots.len() as u64;
    proof {
        run = Reconciliation { filled, ..run };
        assert(fills_found(*prior, groups@, *shared, run));
        lemma_spot_partition(order@, spots@, order@.len() as int);
        assert forall|i: int| 0 <= i < filled.unplaced@.len() implies (
        #[trigger] filled.unplaced@[i]) < groups@.len() by {
            assert(leaves_from(order@, spots@, order@.len() as int, filled.unplaced@[i]));
        }
    }
    let appended = match append_unplaced(
        groups,
        shared,
        &filled.unplaced,
        prior.pages.len(),
        first_id,
    ) {
        Ok(appended) => appended,
        Err(e) => {
            assert(run_fails(*prior, groups@, *shared, run, e));
            return Err(e);
        },
    };
    proof {
        run = Reconciliation { appended: appended@, ..run };
        assert(appends_rest(*prior, groups@, *shared, run));
        assert(places_chosen(appended.captured@, groups@, as_ints(filled.unplaced@)));
        lemma_owns_once(
            groups@,
            *shared,
            claims@,
            retained.kept@,
            order@,
            spots@,
            appended.captured@,
        );
        assert forall|i: int| 0 <= i < appended.captured@.len() implies has_provider(
            groups@,
            (#[trigger] appended.captured@[i]).frame.key@,
        ) by {
            let g = group_of_item(groups@, appended.captured@[i].frame.key@);
            assert(places_group(appended.captured@, groups@, i, g));
            assert(groups@[g].item.key@ == appended.captured@[i].frame.key@);
        }
    }
    let next_slot_id: u64 = first_id + appended.slots.len() as u64;
    let owners = list_owners(groups, &retained.kept, &filled.taken, &appended.captured);
    let joined = joined_slots(&retained.slots, &filled.slots, &appended.slots);
    proof {
        let listed = all_owners(groups@, run);
        assert(as_ints(owners@) == listed);
        assert(owners@.no_duplicates()) by {
            assert forall|i: int, j: int|
                0 <= i < owners@.len() && 0 <= j < owners@.len() && i != j implies owners@[i]
                != owners@[j] by {
                assert(listed[i] == owners@[i] as int && listed[j] == owners@[j] as int);
                assert(listed[i] != listed[j]);
            }
        }
        assert forall|i: int| 0 <= i < owners@.len() implies (#[trigger] owners@[i])
            < groups@.len() by {
            assert(listed[i] == owners@[i] as int);
            assert(listed.contains(listed[i]));
        }
    }
    let ids = assign_ids(groups.len(), &owners, &joined);
    let key_slots = key_slots_for_groups(groups, &ids);
    let slots = sort_ranked(joined);
    let total_pages = joined_pages(&prior.pages, &appended.pages);
    let total_count: usize = total_pages.len();
    let pages = truncate_pages(total_pages, &slots);
    proof {
        run = Reconciliation { ids: ids@, ..run };
        assert(is_run(*prior, groups@, *shared, run));
        lemma_run_relations(*prior, groups@, *shared, run, slots@, pages@, key_slots@);
    }
    let bindings = match bindings_from_relations(ratio, &pages, &slots, &key_slots) {
        Ok(bindings) => bindings,
        Err(e) => {
            assert(false);
            return Err(e);
        },
    };
    let cache = CachedAtlasFamily {
        family_config,
        layout_input_digest,
        next_slot_id,
        pages,
        slots,
        key_slots,
        bindings: map_to_cached_bounds(&bindings),
        texture_fingerprints,
    };
    proof {
        assert(records_run(*ratio, *prior, groups@, run, cache, bindings@));
    }
    let derived = match allocation_stats(&cache, shared) {
        Ok(stats) => stats,
        Err(e) => {
            return Err(e);
        },
    };
    let marks = mark_pages(
        cache.pages.len(),
        &retained.touched,
        &filled.slots,
        &appended.slots,
    );
    let result_pages = pages_from_cache(&cache, &marks);
    let stats = AtlasAllocationStats {
        retained_slots: retained.slots.len(),
        allocated_slots: filled.slots.len() + appended.slots.len(),
        freed_slots: prior.slots.len() - retained.slots.len(),
        relocated_slots: count_relocated(groups, &prior_keys, &order),
        provider_promoted_slots: retained.promoted,
        appended_pages: appended.pages.len(),
        retained_empty_pages: count_unused(&cache.slots, cache.pages.len()),
        truncated_pages: total_count - cache.pages.len(),
        ..derived
    };
    let family = AllocatedAtlasFamily {
        cache,
        bindings,
        pages: result_pages,
        provider_renames: retained.renames,
        stats,
    };
    proof {
        assert(is_reconciled(*ratio, *prior, groups@, *shared, run, family));
    }
    Ok(family)
}

} // verus!
