//! Laws of reconciliation: the reconciled evidence is valid wherever the prior evidence was.

use crate::atlas::cache::{
    bindings_confirmed, config_valid, family_valid, has_slot, ids_valid, page_interior,
    page_valid, relations_valid, reservations_apart, slot_geometry_valid, slot_valid,
    structure_valid, usage_valid,
};
use crate::atlas::error::AtlasError;
use crate::atlas::freelist::{
    all_proper, free_at, is_seeded, is_subtracted, lemma_seeded_texels, lemma_subtract_texels,
    within_one,
};
use crate::atlas::fresh::page_sizes;
use crate::atlas::graph::{is_cheapest_matching, is_searched, lists_pairs, MatchEdge};
use crate::atlas::group::{groups_partition, is_group, lists_text, PreparedAtlasGroup};
use crate::atlas::laws::{
    fingerprints_cover, is_packed_run, item_sound, items_sound, lemma_listed_bindings,
    lemma_packed_apart, lemma_packed_page_valid, lemma_packed_slot_valid, packer_spaced,
    within_cap,
};
use crate::atlas::matching::{
    is_best_matching, is_candidate, is_repeated_slot, lemma_matching_determined,
    lists_candidates, paths_in_slot, slot_has_keys,
};
use crate::atlas::packer::{
    filled_item, frame_view, is_packed_page, item_view, page_views, placed_record, settings_for,
};
use crate::atlas::placement::{
    captured_at, captures_all, frames_before, group_of_item, group_relates,
    lemma_captured_valid, places_group, relates, relates_groups, relation_paths, CapturedFrame,
};
use crate::atlas::reconcile::{
    all_owners, all_pages, all_slots, first_appended, is_run, lemma_claims_valid,
    lemma_destination_fits, lemma_occupied_contains, lemma_spot_partition, lemma_spots_valid,
    matches_prior, page_used, records_run, slots_on_pages, takes_from, Reconciliation,
};
use crate::atlas::rect::{interior, lemma_apart_shares_no_texel, CachedAtlasRect};
use crate::atlas::retain::{
    as_ints, claimed_groups, is_retained_slot, kept_provider, lemma_claimed_groups,
};
use crate::atlas::slot::{destination_within, reservation_extra, slot_holds_item};
use crate::atlas::spots::{
    group_takes_spot, occupied_on, page_seeded, pages_seeded, spotted, take_spots,
};
use crate::atlas::types::{
    AtlasSharedConfig, CachedAtlasFamily, CachedAtlasPage, CachedAtlasSlot, LayoutItem, UvBound,
};
use crate::atlas::uv::bound_paths;
use crate::sort::{
    distinct_ranks, lemma_ranked_strict, lemma_same_multiset, lemma_same_multiset_distinct, ranked,
    Ranked,
};
use crate::text::ascending;
use vstd::prelude::*;

verus! {

// ---------------------------------------------------------------------------------------------
// Free area
// ---------------------------------------------------------------------------------------------

/// The texel is reserved by some slot on the page.
pub open spec fn slot_covers(slots: Seq<CachedAtlasSlot>, p: int, px: int, py: int) -> bool {
    exists|i: int|
        0 <= i < slots.len() && (#[trigger] slots[i]).page_id == p
            && slots[i].reserved_rect.covers(px, py)
}

/// The texel is taken by some spot on the page.
pub open spec fn spot_covers(
    spots: Seq<Option<(usize, CachedAtlasRect)>>,
    p: int,
    px: int,
    py: int,
) -> bool {
    exists|k: int|
        0 <= k < spots.len() && (#[trigger] spots[k]) is Some && (spots[k]->0).0 == p && (spots[k]
            ->0).1.covers(px, py)
}

/// The free area of each page lies in its interior and holds no reserved or taken texel.
pub open spec fn areas_free(
    pages: Seq<CachedAtlasPage>,
    border: u32,
    slots: Seq<CachedAtlasSlot>,
    spots: Seq<Option<(usize, CachedAtlasRect)>>,
    free: Seq<Seq<CachedAtlasRect>>,
) -> bool {
    &&& free.len() == pages.len()
    &&& forall|p: int| 0 <= p < free.len() ==> all_proper(#[trigger] free[p])
    &&& forall|p: int, i: int|
        0 <= p < free.len() && 0 <= i < free[p].len() ==> interior(
            pages[p].width,
            pages[p].height,
            border,
        )->Ok_0.encloses(#[trigger] free[p][i])
    &&& forall|p: int, px: int, py: int|
        0 <= p < free.len() && #[trigger] free_at(free[p], px, py) ==> !slot_covers(
            slots,
            p,
            px,
            py,
        ) && !spot_covers(spots, p, px, py)
}

proof fn lemma_slot_covers_occupied(
    slots: Seq<CachedAtlasSlot>,
    p: int,
    px: int,
    py: int,
)
    requires
        slot_covers(slots, p, px, py),
    ensures
        exists|i: int|
            0 <= i < occupied_on(slots, p).len() && (#[trigger] occupied_on(slots, p)[i]).1.covers(
                px,
                py,
            ),
{
    let i = choose|i: int|
        0 <= i < slots.len() && (#[trigger] slots[i]).page_id == p
            && slots[i].reserved_rect.covers(px, py);
    lemma_occupied_contains(slots, i);
    let list = occupied_on(slots, p);
    let k = choose|k: int|
        0 <= k < list.len() && list[k] == (slots[i].slot_id, slots[i].reserved_rect);
    assert(occupied_on(slots, p)[k].1.covers(px, py));
}

/// Seeded pages leave exactly what their slots do not reserve.
proof fn lemma_seeded_free(
    pages: Seq<CachedAtlasPage>,
    border: u32,
    slots: Seq<CachedAtlasSlot>,
    free: Seq<Seq<CachedAtlasRect>>,
)
    requires
        pages_seeded(pages, slots, border, free),
    ensures
        areas_free(pages, border, slots, Seq::empty(), free),
{
    assert forall|p: int| 0 <= p < free.len() implies all_proper(#[trigger] free[p]) && (forall|
        i: int,
    |
        0 <= i < free[p].len() ==> interior(pages[p].width, pages[p].height, border)->Ok_0.encloses(
            #[trigger] free[p][i],
        )) && (forall|px: int, py: int| #[trigger]
        free_at(free[p], px, py) ==> !slot_covers(slots, p, px, py)) by {
        let occupied = occupied_on(slots, p);
        assert(page_seeded(pages[p], border, occupied, free[p]));
        let usable = interior(pages[p].width, pages[p].height, border)->Ok_0;
        let sorted = choose|sorted: Seq<(u64, CachedAtlasRect)>|
            {
                &&& #[trigger] ranked(sorted)
                &&& sorted.to_multiset() == occupied.to_multiset()
                &&& is_seeded(usable, sorted, free[p])
            };
        lemma_same_multiset(sorted, occupied);
        assert forall|i: int| 0 <= i < sorted.len() implies (#[trigger] sorted[i]).1.fits() by {
            assert(sorted.contains(sorted[i]));
            assert(occupied.contains(sorted[i]));
            let k = choose|k: int| 0 <= k < occupied.len() && occupied[k] == sorted[i];
            assert(occupied[k].1.fits());
        }
        lemma_seeded_texels(usable, sorted, free[p]);
        assert forall|px: int, py: int| #[trigger] free_at(free[p], px, py) implies !slot_covers(
            slots,
            p,
            px,
            py,
        ) by {
            if slot_covers(slots, p, px, py) {
                lemma_slot_covers_occupied(slots, p, px, py);
                let k = choose|k: int|
                    0 <= k < occupied.len() && (#[trigger] occupied[k]).1.covers(px, py);
                assert(occupied.contains(occupied[k]));
                assert(sorted.contains(occupied[k]));
                let j = choose|j: int| 0 <= j < sorted.len() && sorted[j] == occupied[k];
                assert(sorted[j].1.covers(px, py));
            }
        }
    }
    assert forall|p: int, px: int, py: int| !spot_covers(
        Seq::<Option<(usize, CachedAtlasRect)>>::empty(),
        p,
        px,
        py,
    ) by {}
}

/// A spot lies in the interior of its page, apart from the slots there.
pub open spec fn spot_sound(
    pages: Seq<CachedAtlasPage>,
    border: u32,
    slots: Seq<CachedAtlasSlot>,
    p: int,
    rect: CachedAtlasRect,
) -> bool {
    &&& 0 <= p < pages.len()
    &&& rect.fits()
    &&& rect.positive()
    &&& interior(pages[p].width, pages[p].height, border) is Ok
    &&& interior(pages[p].width, pages[p].height, border)->Ok_0.encloses(rect)
    &&& forall|i: int|
        0 <= i < slots.len() && (#[trigger] slots[i]).page_id == p
            && slots[i].reserved_rect.positive() ==> rect.apart(slots[i].reserved_rect)
}

/// Every spot is sound and apart from the other spots on its page.
pub open spec fn spots_sound(
    pages: Seq<CachedAtlasPage>,
    border: u32,
    slots: Seq<CachedAtlasSlot>,
    spots: Seq<Option<(usize, CachedAtlasRect)>>,
) -> bool {
    &&& forall|k: int|
        0 <= k < spots.len() && (#[trigger] spots[k]) is Some ==> spot_sound(
            pages,
            border,
            slots,
            (spots[k]->0).0 as int,
            (spots[k]->0).1,
        )
    &&& forall|j: int, k: int|
        0 <= j < k < spots.len() && (#[trigger] spots[j]) is Some && (#[trigger] spots[k]) is Some
            && (spots[j]->0).0 == (spots[k]->0).0 ==> (spots[j]->0).1.apart((spots[k]->0).1)
}

/// Spots taken one after the other are sound.
proof fn lemma_spots_sound(
    groups: Seq<PreparedAtlasGroup>,
    shared: AtlasSharedConfig,
    pages: Seq<CachedAtlasPage>,
    slots: Seq<CachedAtlasSlot>,
    order: Seq<usize>,
    free: Seq<Seq<CachedAtlasRect>>,
    spots: Seq<Option<(usize, CachedAtlasRect)>>,
    rest: Seq<Seq<CachedAtlasRect>>,
)
    requires
        takes_room(groups, shared),
        spots.len() <= order.len(),
        forall|i: int| 0 <= i < order.len() ==> (#[trigger] order[i]) < groups.len(),
        pages_seeded(pages, slots, shared.border_padding, free),
        take_spots(groups, shared, order, free, spots, rest),
    ensures
        areas_free(pages, shared.border_padding, slots, spots, rest),
        spots_sound(pages, shared.border_padding, slots, spots),
    decreases spots.len(),
{
    let border = shared.border_padding;
    if spots.len() == 0 {
        lemma_seeded_free(pages, border, slots, free);
        assert(spots =~= Seq::empty());
    } else {
        let earlier = spots.drop_last();
        let before = choose|before: Seq<Seq<CachedAtlasRect>>|
            take_spots(groups, shared, order, free, earlier, before)
                && #[trigger] group_takes_spot(
                groups[order[spots.len() - 1] as int],
                shared,
                before,
                spots.last(),
                rest,
            );
        lemma_spots_sound(groups, shared, pages, slots, order, free, earlier, before);
        let g = order[spots.len() - 1] as int;
        assert(groups[g].item.w + reservation_extra(shared) > 0);
        match spots.last() {
            None => {
                assert forall|p: int, px: int, py: int| spot_covers(spots, p, px, py) implies
                    spot_covers(earlier, p, px, py) by {
                    let k = choose|k: int|
                        0 <= k < spots.len() && (#[trigger] spots[k]) is Some && (spots[k]->0).0
                            == p && (spots[k]->0).1.covers(px, py);
                    assert(earlier[k] == spots[k]);
                }
                lemma_spots_extend(pages, border, slots, spots);
            },
            Some((p, rect)) => {
                assert forall|q: int| 0 <= q < pages.len() implies interior(
                    (#[trigger] pages[q]).width,
                    pages[q].height,
                    border,
                ) is Ok by {
                    assert(page_seeded(pages[q], border, occupied_on(slots, q), free[q]));
                }
                lemma_spot_step(pages, border, slots, spots, before, rest, p, rect);
            },
        }
    }
}

/// A trailing absent spot changes nothing.
proof fn lemma_spots_extend(
    pages: Seq<CachedAtlasPage>,
    border: u32,
    slots: Seq<CachedAtlasSlot>,
    spots: Seq<Option<(usize, CachedAtlasRect)>>,
)
    requires
        spots.len() > 0,
        spots.last() is None,
        spots_sound(pages, border, slots, spots.drop_last()),
    ensures
        spots_sound(pages, border, slots, spots),
{
    let earlier = spots.drop_last();
    assert forall|k: int| 0 <= k < spots.len() && (#[trigger] spots[k]) is Some implies spot_sound(
        pages,
        border,
        slots,
        (spots[k]->0).0 as int,
        (spots[k]->0).1,
    ) by {
        assert(earlier[k] == spots[k]);
    }
    assert forall|j: int, k: int|
        0 <= j < k < spots.len() && (#[trigger] spots[j]) is Some && (#[trigger] spots[k]) is Some
            && (spots[j]->0).0 == (spots[k]->0).0 implies (spots[j]->0).1.apart((spots[k]->0).1) by {
        assert(earlier[j] == spots[j] && earlier[k] == spots[k]);
    }
}

proof fn lemma_spot_step(
    pages: Seq<CachedAtlasPage>,
    border: u32,
    slots: Seq<CachedAtlasSlot>,
    spots: Seq<Option<(usize, CachedAtlasRect)>>,
    before: Seq<Seq<CachedAtlasRect>>,
    rest: Seq<Seq<CachedAtlasRect>>,
    p: usize,
    rect: CachedAtlasRect,
)
    requires
        spots.len() > 0,
        spots.last() == Some((p, rect)),
        areas_free(pages, border, slots, spots.drop_last(), before),
        spots_sound(pages, border, slots, spots.drop_last()),
        forall|q: int|
            0 <= q < pages.len() ==> interior(
                (#[trigger] pages[q]).width,
                pages[q].height,
                border,
            ) is Ok,
        p < before.len(),
        rect.positive(),
        rect.fits(),
        within_one(before[p as int], rect),
        is_subtracted(before[p as int], rect, rest[p as int]),
        rest == before.update(p as int, rest[p as int]),
    ensures
        areas_free(pages, border, slots, spots, rest),
        spots_sound(pages, border, slots, spots),
{
    let earlier = spots.drop_last();
    let here = before[p as int];
    let usable = interior(pages[p as int].width, pages[p as int].height, border)->Ok_0;
    lemma_subtract_texels(here, rect, rest[p as int]);
    let w = choose|w: int| 0 <= w < here.len() && (#[trigger] here[w]).encloses(rect);
    assert(usable.encloses(before[p as int][w]));
    // Texels of the spot were free.
    assert forall|px: int, py: int| rect.covers(px, py) implies #[trigger] free_at(
        before[p as int],
        px,
        py,
    ) by {
        assert(here[w].covers(px, py));
    }
    assert(spot_sound(pages, border, slots, p as int, rect)) by {
        assert forall|i: int|
            0 <= i < slots.len() && (#[trigger] slots[i]).page_id == p
                && slots[i].reserved_rect.positive() implies rect.apart(slots[i].reserved_rect) by {
            lemma_apart_shares_no_texel(rect, slots[i].reserved_rect);
            assert forall|px: int, py: int| !(#[trigger] rect.covers(px, py)
                && slots[i].reserved_rect.covers(px, py)) by {
                if rect.covers(px, py) && slots[i].reserved_rect.covers(px, py) {
                    assert(free_at(before[p as int], px, py));
                    assert(slot_covers(slots, p as int, px, py));
                }
            }
        }
    }
    assert forall|k: int| 0 <= k < spots.len() && (#[trigger] spots[k]) is Some implies spot_sound(
        pages,
        border,
        slots,
        (spots[k]->0).0 as int,
        (spots[k]->0).1,
    ) by {
        if k < earlier.len() {
            assert(earlier[k] == spots[k]);
        }
    }
    assert forall|j: int, k: int|
        0 <= j < k < spots.len() && (#[trigger] spots[j]) is Some && (#[trigger] spots[k]) is Some
            && (spots[j]->0).0 == (spots[k]->0).0 implies (spots[j]->0).1.apart((spots[k]->0).1) by {
        assert(earlier[j] == spots[j]);
        if k < earlier.len() {
            assert(earlier[k] == spots[k]);
        } else {
            let other = (spots[j]->0).1;
            assert(spot_sound(pages, border, slots, p as int, other));
            lemma_apart_shares_no_texel(other, rect);
            assert forall|px: int, py: int| !(#[trigger] other.covers(px, py) && rect.covers(
                px,
                py,
            )) by {
                if other.covers(px, py) && rect.covers(px, py) {
                    assert(free_at(before[p as int], px, py));
                    assert(earlier[j] is Some);
                    assert(spot_covers(earlier, p as int, px, py));
                }
            }
        }
    }
    assert forall|q: int, i: int| 0 <= q < rest.len() && 0 <= i < rest[q].len() implies interior(
        pages[q].width,
        pages[q].height,
        border,
    )->Ok_0.encloses(#[trigger] rest[q][i]) by {
        if q == p {
            assert(within_one(here, rest[p as int][i]));
            let v = choose|v: int| 0 <= v < here.len() && (#[trigger] here[v]).encloses(
                rest[p as int][i],
            );
            assert(usable.encloses(before[p as int][v]));
        } else {
            assert(rest[q] == before[q]);
            assert(before[q][i] == rest[q][i]);
        }
    }
    assert forall|q: int| 0 <= q < rest.len() implies all_proper(#[trigger] rest[q]) by {
        if q != p {
            assert(rest[q] == before[q]);
        }
    }
    assert forall|q: int, px: int, py: int|
        0 <= q < rest.len() && #[trigger] free_at(rest[q], px, py) implies !slot_covers(
        slots,
        q,
        px,
        py,
    ) && !spot_covers(spots, q, px, py) by {
        if q == p {
            assert(free_at(before[p as int], px, py));
            assert(!rect.covers(px, py));
        } else {
            assert(rest[q] == before[q]);
            assert(free_at(before[q], px, py));
        }
        if spot_covers(spots, q, px, py) {
            let k = choose|k: int|
                0 <= k < spots.len() && (#[trigger] spots[k]) is Some && (spots[k]->0).0 == q && (
                spots[k]->0).1.covers(px, py);
            if k < earlier.len() {
                assert(earlier[k] == spots[k]);
                assert(spot_covers(earlier, q, px, py));
            }
        }
    }
}

// ---------------------------------------------------------------------------------------------
// Slots of a run
// ---------------------------------------------------------------------------------------------

/// The slot lies on one of the pages: its reservation in the interior, and its content in the
/// reservation.
pub open spec fn slot_placed(
    slot: CachedAtlasSlot,
    pages: Seq<CachedAtlasPage>,
    shared: AtlasSharedConfig,
) -> bool {
    let page = pages[slot.page_id as int];
    &&& slot.page_id < pages.len()
    &&& interior(page.width, page.height, shared.border_padding) is Ok
    &&& interior(page.width, page.height, shared.border_padding)->Ok_0.encloses(slot.reserved_rect)
    &&& slot.reserved_rect.fits()
    &&& slot.reserved_rect.encloses(slot.destination)
}

/// The content of the slot stands where content of its size stands in the reservation.
pub open spec fn holds_content(slot: CachedAtlasSlot, shared: AtlasSharedConfig) -> bool {
    destination_within(
        slot.reserved_rect,
        slot.destination.width,
        slot.destination.height,
        shared,
    ) == Ok::<CachedAtlasRect, AtlasError>(slot.destination)
}

/// The content of every group takes room.
pub open spec fn takes_room(groups: Seq<PreparedAtlasGroup>, shared: AtlasSharedConfig) -> bool {
    forall|g: int|
        0 <= g < groups.len() ==> (#[trigger] groups[g]).item.w + reservation_extra(shared) > 0
            && groups[g].item.h + reservation_extra(shared) > 0
}

/// The identity to come next is above those of all slots.
pub open spec fn ids_below(family: CachedAtlasFamily) -> bool {
    forall|s: int|
        0 <= s < family.slots@.len() ==> (#[trigger] family.slots@[s]).slot_id
            < family.next_slot_id
}

/// What the laws on runs have in common: prior slots on prior pages, a partition of keys into
/// groups that take room, and representable counts.
pub open spec fn is_ready_run(
    prior: CachedAtlasFamily,
    groups: Seq<PreparedAtlasGroup>,
    shared: AtlasSharedConfig,
    run: Reconciliation,
) -> bool {
    &&& slots_on_pages(prior)
    &&& groups_partition(groups)
    &&& takes_room(groups, shared)
    &&& is_run(prior, groups, shared, run)
    &&& groups.len() <= usize::MAX
    &&& prior.pages@.len() + run.appended.pages.len() <= usize::MAX
}

/// What the laws on places ask of a run: that prior slots reserve areas apart, and the packer's own
/// spacing.
pub open spec fn is_placed_run(
    prior: CachedAtlasFamily,
    groups: Seq<PreparedAtlasGroup>,
    shared: AtlasSharedConfig,
    run: Reconciliation,
) -> bool {
    &&& is_ready_run(prior, groups, shared, run)
    &&& packer_spaced(shared)
    &&& reservations_apart(prior.slots@)
}

/// What the laws on evidence ask of a run: valid prior evidence and sound items, too.
pub open spec fn is_sound_run(
    prior: CachedAtlasFamily,
    groups: Seq<PreparedAtlasGroup>,
    shared: AtlasSharedConfig,
    run: Reconciliation,
) -> bool {
    &&& is_placed_run(prior, groups, shared, run)
    &&& items_sound(groups)
    &&& structure_valid(prior, shared)
}

/// Slots of valid evidence lie on its pages, below the next identity.
pub proof fn lemma_valid_on_pages(family: CachedAtlasFamily, shared: AtlasSharedConfig)
    requires
        structure_valid(family, shared),
    ensures
        slots_on_pages(family),
        ids_below(family),
{
    assert forall|s: int| 0 <= s < family.slots@.len() implies (
    #[trigger] family.slots@[s]).page_id < family.pages@.len() && family.slots@[s].slot_id
        < family.next_slot_id by {
        assert(slot_valid(family.slots@[s], family.pages@, shared));
        let last = family.slots@.len() - 1;
        if s < last {
            assert(family.slots@[s].slot_id < family.slots@[last].slot_id);
        }
    }
}

/// With the packer's own spacing, all content takes room.
pub proof fn lemma_spacing_takes_room(groups: Seq<PreparedAtlasGroup>, shared: AtlasSharedConfig)
    requires
        packer_spaced(shared),
    ensures
        takes_room(groups, shared),
{
}

/// The prior slot that retained slot `i` continues.
pub open spec fn continued_slot(
    prior: CachedAtlasFamily,
    run: Reconciliation,
    i: int,
) -> int {
    run.claims[run.retained.kept@[i] as int]->0 as int
}

/// A retained slot continues a prior slot: same identity, page, and reservation.
pub proof fn lemma_retained_continues(
    prior: CachedAtlasFamily,
    groups: Seq<PreparedAtlasGroup>,
    shared: AtlasSharedConfig,
    run: Reconciliation,
    i: int,
)
    requires
        groups.len() <= usize::MAX,
        is_run(prior, groups, shared, run),
        0 <= i < run.retained.slots@.len(),
    ensures
        0 <= run.retained.kept@[i] < groups.len(),
        0 <= continued_slot(prior, run, i) < prior.slots@.len(),
        run.claims[run.retained.kept@[i] as int] is Some,
        is_retained_slot(
            prior.slots@[continued_slot(prior, run, i)],
            groups[run.retained.kept@[i] as int],
            shared,
            run.retained.slots@[i],
        ),
        forall|j: int|
            0 <= j < run.retained.slots@.len() && j != i ==> #[trigger] continued_slot(prior, run, j)
                != continued_slot(prior, run, i),
{
    lemma_claims_valid(groups, prior.slots@, run.prior_keys, shared, run.pairs, run.claims);
    lemma_claimed_groups(run.claims, groups.len() as int);
    let list = claimed_groups(run.claims, groups.len() as int);
    let kept = run.retained.kept@;
    assert forall|k: int| 0 <= k < kept.len() implies kept[k] as int == #[trigger] list[k] by {
        assert(as_ints(kept)[k] == kept[k] as int);
    }
    assert(kept[i] as int == list[i]);
    assert(run.claims[list[i]] is Some);
    assert forall|j: int|
        0 <= j < run.retained.slots@.len() && j != i implies #[trigger] continued_slot(prior, run, j)
        != continued_slot(prior, run, i) by {
        assert(kept[j] as int == list[j]);
        assert(run.claims[list[j]] is Some);
        if i < j {
            assert(list[i] < list[j]);
        } else {
            assert(list[j] < list[i]);
        }
        assert(run.claims[list[i]] != run.claims[list[j]]);
    }
}

/// Content that fills a reservation within an interior is placed validly.
proof fn lemma_filled_valid(
    slot: CachedAtlasSlot,
    reserved: CachedAtlasRect,
    item: LayoutItem,
    provider: Seq<char>,
    fingerprint: [u8; 32],
    usable: CachedAtlasRect,
    shared: AtlasSharedConfig,
)
    requires
        item_sound(item),
        slot_holds_item(slot, reserved, item, provider, fingerprint, shared),
        reserved.positive(),
        reserved.fits(),
        usable.encloses(reserved),
    ensures
        slot_geometry_valid(slot, usable, shared),
{
    lemma_destination_fits(reserved, item.w, item.h, shared);
    assert(slot.source_size@[0] == (item.source_size->0).0);
    assert(slot.source_size@[1] == (item.source_size->0).1);
}

/// The spot that placed slot `k` fills.
proof fn lemma_placed_spot(
    prior: CachedAtlasFamily,
    groups: Seq<PreparedAtlasGroup>,
    shared: AtlasSharedConfig,
    run: Reconciliation,
    k: int,
) -> (m: int)
    requires
        is_run(prior, groups, shared, run),
        0 <= k < run.filled.slots@.len(),
    ensures
        0 <= m < run.spots.len(),
        run.order[m] == run.filled.taken@[k].0,
        run.spots[m] == Some((run.filled.taken@[k].1, run.filled.taken@[k].2)),
        0 <= run.filled.taken@[k].0 < groups.len(),
{
    lemma_spot_partition(run.order, run.spots, run.order.len() as int);
    let taken = run.filled.taken@[k];
    assert(takes_from(run.order, run.spots, run.order.len() as int, taken));
    let m = choose|m: int|
        0 <= m < run.order.len() && #[trigger] run.order[m] == taken.0 && run.spots[m] == Some(
            (taken.1, taken.2),
        );
    assert(run.order.contains(run.order[m]));
    m
}

/// The appended part of a run is a packed layout of the left-over groups.
proof fn lemma_appended_run(
    prior: CachedAtlasFamily,
    groups: Seq<PreparedAtlasGroup>,
    shared: AtlasSharedConfig,
    run: Reconciliation,
)
    requires
        is_run(prior, groups, shared, run),
        prior.pages@.len() + run.appended.pages.len() <= usize::MAX,
        run.appended.pages.len() > 0 || run.appended.slots.len() > 0,
    ensures
        is_packed_run(
            groups,
            as_ints(run.filled.unplaced@),
            shared,
            prior.pages@.len() as int,
            first_appended(prior, run),
            run.appended.pages,
            run.appended.captured,
            run.appended.slots,
        ),
{
}

/// Pages of a run that keep to the cap are valid.
proof fn lemma_run_page_valid(
    prior: CachedAtlasFamily,
    groups: Seq<PreparedAtlasGroup>,
    shared: AtlasSharedConfig,
    run: Reconciliation,
    p: int,
)
    requires
        is_sound_run(prior, groups, shared, run),
        0 <= p < all_pages(prior, run).len(),
        all_pages(prior, run)[p].width <= shared.gpu_max,
        all_pages(prior, run)[p].height <= shared.gpu_max,
    ensures
        page_valid(all_pages(prior, run)[p], shared),
{
    let n = prior.pages@.len() as int;
    if p < n {
        assert(all_pages(prior, run)[p] == prior.pages@[p]);
    } else {
        lemma_appended_run(prior, groups, shared, run);
        assert(is_packed_page(
            page_views(run.appended.pages)[p - n],
            p - n,
            settings_for(shared.gpu_max),
        ));
        lemma_packed_page_valid(run.appended.pages, shared, p - n);
    }
}

/// The spots of a run are sound.
proof fn lemma_run_spots(
    prior: CachedAtlasFamily,
    groups: Seq<PreparedAtlasGroup>,
    shared: AtlasSharedConfig,
    run: Reconciliation,
)
    requires
        is_ready_run(prior, groups, shared, run),
    ensures
        spots_sound(prior.pages@, shared.border_padding, run.retained.slots@, run.spots),
{
    assert forall|i: int| 0 <= i < run.order.len() implies (#[trigger] run.order[i])
        < groups.len() by {
        assert(run.order.contains(run.order[i]));
    }
    lemma_spots_sound(
        groups,
        shared,
        prior.pages@,
        run.retained.slots@,
        run.order,
        run.free,
        run.spots,
        run.rest,
    );
}

/// Slots of a run lie on the pages of the run, and hold the content of their groups.
proof fn lemma_run_slot_placed(
    prior: CachedAtlasFamily,
    groups: Seq<PreparedAtlasGroup>,
    shared: AtlasSharedConfig,
    run: Reconciliation,
    i: int,
)
    requires
        is_ready_run(prior, groups, shared, run),
        0 <= i < all_slots(run).len(),
    ensures
        slot_placed(all_slots(run)[i], all_pages(prior, run), shared),
        all_slots(run)[i].reserved_rect.positive(),
        holds_content(all_slots(run)[i], shared),
{
    let a = run.retained.slots@.len() as int;
    let b = a + run.filled.slots@.len();
    let n = prior.pages@.len() as int;
    let slot = all_slots(run)[i];
    let pages = all_pages(prior, run);
    if i < a {
        assert(slot == run.retained.slots@[i]);
        lemma_retained_continues(prior, groups, shared, run, i);
        let g = run.retained.kept@[i] as int;
        let p = slot.page_id as int;
        assert(prior.slots@[continued_slot(prior, run, i)].page_id < n);
        assert(pages[p] == prior.pages@[p]);
        lemma_occupied_contains(run.retained.slots@, i);
        let occupied = occupied_on(run.retained.slots@, p);
        assert(page_seeded(prior.pages@[p], shared.border_padding, occupied, run.free[p]));
        let k = choose|k: int|
            0 <= k < occupied.len() && occupied[k] == (slot.slot_id, slot.reserved_rect);
        assert(occupied[k].1.fits());
        assert(groups[g].item.w + reservation_extra(shared) > 0);
        lemma_destination_fits(slot.reserved_rect, groups[g].item.w, groups[g].item.h, shared);
    } else if i < b {
        let k = i - a;
        assert(slot == run.filled.slots@[k]);
        let m = lemma_placed_spot(prior, groups, shared, run, k);
        lemma_run_spots(prior, groups, shared, run);
        let taken = run.filled.taken@[k];
        let p = taken.1 as int;
        assert(run.spots[m] is Some);
        assert(spot_sound(
            prior.pages@,
            shared.border_padding,
            run.retained.slots@,
            p,
            taken.2,
        ));
        assert(pages[p] == prior.pages@[p]);
        let item = groups[taken.0 as int].item;
        lemma_destination_fits(taken.2, item.w, item.h, shared);
    } else {
        let k = i - b;
        assert(slot == run.appended.slots[k]);
        let captured = run.appended.captured;
        let (p, f) = lemma_captured_valid(run.appended.pages, n, shared, captured, k);
        assert(pages[n + p] == page_sizes(run.appended.pages)[p]);
        let g = group_of_item(groups, captured[k].frame.key@);
        assert(places_group(captured, groups, k, g));
        let record = placed_record(frame_view(captured[k].frame));
        assert(record == filled_item(item_view(groups[g].item)));
        assert(record.w == groups[g].item.w && record.h == groups[g].item.h);
        assert(groups[g].item.w + reservation_extra(shared) > 0);
    }
}

/// Slots of a run that come from valid evidence and sound items are valid on the pages of the run.
proof fn lemma_run_slot_valid(
    prior: CachedAtlasFamily,
    groups: Seq<PreparedAtlasGroup>,
    shared: AtlasSharedConfig,
    run: Reconciliation,
    i: int,
)
    requires
        is_sound_run(prior, groups, shared, run),
        0 <= i < all_slots(run).len(),
    ensures
        slot_valid(all_slots(run)[i], all_pages(prior, run), shared),
{
    let a = run.retained.slots@.len() as int;
    let b = a + run.filled.slots@.len();
    let n = prior.pages@.len() as int;
    let slot = all_slots(run)[i];
    let pages = all_pages(prior, run);
    lemma_run_slot_placed(prior, groups, shared, run, i);
    let page = pages[slot.page_id as int];
    assert(interior(page.width, page.height, shared.border_padding)->Ok_0 == page_interior(
        page,
        shared,
    ));
    if i < a {
        assert(slot == run.retained.slots@[i]);
        lemma_retained_continues(prior, groups, shared, run, i);
        let g = run.retained.kept@[i] as int;
        let old = prior.slots@[continued_slot(prior, run, i)];
        assert(item_sound(groups[g].item));
        lemma_filled_valid(
            slot,
            old.reserved_rect,
            groups[g].item,
            kept_provider(groups[g], old),
            groups[g].content_fingerprint,
            page_interior(page, shared),
            shared,
        );
    } else if i < b {
        let k = i - a;
        assert(slot == run.filled.slots@[k]);
        let m = lemma_placed_spot(prior, groups, shared, run, k);
        let taken = run.filled.taken@[k];
        let group = groups[taken.0 as int];
        assert(item_sound(group.item));
        lemma_filled_valid(
            slot,
            taken.2,
            group.item,
            group.item.key@,
            group.content_fingerprint,
            page_interior(page, shared),
            shared,
        );
    } else {
        let k = i - b;
        assert(slot == run.appended.slots[k]);
        lemma_appended_run(prior, groups, shared, run);
        let p = lemma_packed_slot_valid(
            groups,
            as_ints(run.filled.unplaced@),
            shared,
            n,
            first_appended(prior, run),
            run.appended.pages,
            run.appended.captured,
            run.appended.slots,
            k,
        );
        assert(pages[n + p] == page_sizes(run.appended.pages)[p]);
    }
}

/// Identities of a run's slots are distinct and below the next one; new ones are at least the
/// prior next one.
pub proof fn lemma_run_ids(
    prior: CachedAtlasFamily,
    groups: Seq<PreparedAtlasGroup>,
    shared: AtlasSharedConfig,
    run: Reconciliation,
    next: u64,
    i: int,
    j: int,
)
    requires
        groups.len() <= usize::MAX,
        is_run(prior, groups, shared, run),
        ids_below(prior),
        next == prior.next_slot_id + run.filled.slots@.len() + run.appended.slots.len(),
        0 <= i < j < all_slots(run).len(),
    ensures
        all_slots(run)[i].slot_id != all_slots(run)[j].slot_id,
{
    let a = run.retained.slots@.len() as int;
    let b = a + run.filled.slots@.len();
    lemma_run_id_range(prior, groups, shared, run, next, i);
    lemma_run_id_range(prior, groups, shared, run, next, j);
    if j < a {
        lemma_retained_continues(prior, groups, shared, run, i);
        lemma_retained_continues(prior, groups, shared, run, j);
        let x = continued_slot(prior, run, i);
        let y = continued_slot(prior, run, j);
        assert(x != y);
        assert(slot_has_keys(prior, x) && slot_has_keys(prior, y));
        if prior.slots@[x].slot_id == prior.slots@[y].slot_id {
            if x < y {
                assert(is_repeated_slot(prior.slots@, y));
            } else {
                assert(is_repeated_slot(prior.slots@, x));
            }
        }
    }
}

/// Retained identities lie below the prior next identity, new ones follow it in order.
proof fn lemma_run_id_range(
    prior: CachedAtlasFamily,
    groups: Seq<PreparedAtlasGroup>,
    shared: AtlasSharedConfig,
    run: Reconciliation,
    next: u64,
    i: int,
)
    requires
        groups.len() <= usize::MAX,
        is_run(prior, groups, shared, run),
        ids_below(prior),
        next == prior.next_slot_id + run.filled.slots@.len() + run.appended.slots.len(),
        0 <= i < all_slots(run).len(),
    ensures
        i < run.retained.slots@.len() ==> all_slots(run)[i].slot_id < prior.next_slot_id
            && all_slots(run)[i] == run.retained.slots@[i] && all_slots(run)[i].slot_id
            == prior.slots@[continued_slot(prior, run, i)].slot_id,
        i >= run.retained.slots@.len() ==> all_slots(run)[i].slot_id == prior.next_slot_id + i
            - run.retained.slots@.len(),
        all_slots(run)[i].slot_id < next,
{
    let a = run.retained.slots@.len() as int;
    let b = a + run.filled.slots@.len();
    if i < a {
        lemma_retained_continues(prior, groups, shared, run, i);
        let x = continued_slot(prior, run, i);
        assert(prior.slots@[x].slot_id < prior.next_slot_id);
        assert(all_slots(run)[i] == run.retained.slots@[i]);
    } else if i < b {
        assert(all_slots(run)[i] == run.filled.slots@[i - a]);
    } else {
        assert(all_slots(run)[i] == run.appended.slots[i - b]);
    }
}

/// Reservations of a run on the same page share no texel.
proof fn lemma_run_apart(
    prior: CachedAtlasFamily,
    groups: Seq<PreparedAtlasGroup>,
    shared: AtlasSharedConfig,
    run: Reconciliation,
    i: int,
    j: int,
)
    requires
        is_placed_run(prior, groups, shared, run),
        0 <= i < j < all_slots(run).len(),
        all_slots(run)[i].page_id == all_slots(run)[j].page_id,
    ensures
        all_slots(run)[i].reserved_rect.apart(all_slots(run)[j].reserved_rect),
{
    let a = run.retained.slots@.len() as int;
    let b = a + run.filled.slots@.len();
    let n = prior.pages@.len() as int;
    let left = all_slots(run)[i];
    let right = all_slots(run)[j];
    lemma_run_slot_page(prior, groups, shared, run, i);
    lemma_run_slot_page(prior, groups, shared, run, j);
    if i < b && j >= b {
        assert(false);
    } else if i >= b {
        assert(left == run.appended.slots[i - b]);
        assert(right == run.appended.slots[j - b]);
        lemma_appended_run(prior, groups, shared, run);
        lemma_packed_apart(
            groups,
            as_ints(run.filled.unplaced@),
            shared,
            n,
            first_appended(prior, run),
            run.appended.pages,
            run.appended.captured,
            run.appended.slots,
            i - b,
            j - b,
        );
    } else if j < a {
        assert(left == run.retained.slots@[i]);
        assert(right == run.retained.slots@[j]);
        lemma_retained_continues(prior, groups, shared, run, i);
        lemma_retained_continues(prior, groups, shared, run, j);
        let x = continued_slot(prior, run, i);
        let y = continued_slot(prior, run, j);
        assert(x != y);
        assert(prior.slots@[x].page_id == prior.slots@[y].page_id);
        if x < y {
            assert(prior.slots@[x].reserved_rect.apart(prior.slots@[y].reserved_rect));
        } else {
            assert(prior.slots@[y].reserved_rect.apart(prior.slots@[x].reserved_rect));
        }
    } else {
        lemma_run_spots(prior, groups, shared, run);
        let k = j - a;
        assert(right == run.filled.slots@[k]);
        let m = lemma_placed_spot(prior, groups, shared, run, k);
        let taken = run.filled.taken@[k];
        assert(run.spots[m] is Some);
        assert(spot_sound(
            prior.pages@,
            shared.border_padding,
            run.retained.slots@,
            taken.1 as int,
            taken.2,
        ));
        assert(right.reserved_rect == taken.2);
        if i < a {
            assert(left == run.retained.slots@[i]);
            lemma_retained_continues(prior, groups, shared, run, i);
            lemma_run_slot_placed(prior, groups, shared, run, i);
            assert(left.reserved_rect.positive());
            assert(run.retained.slots@[i].page_id == taken.1);
            assert(taken.2.apart(left.reserved_rect));
        } else {
            let h = i - a;
            assert(left == run.filled.slots@[h]);
            let o = lemma_placed_spot(prior, groups, shared, run, h);
            let first = run.filled.taken@[h];
            assert(left.reserved_rect == first.2);
            lemma_spot_partition(run.order, run.spots, run.order.len() as int);
            assert(spotted(run.order, run.spots, run.order.len() as int)[h].0 != spotted(
                run.order,
                run.spots,
                run.order.len() as int,
            )[k].0);
            assert(o != m);
            assert(run.spots[o] is Some);
            if o < m {
                assert((run.spots[o]->0).1.apart((run.spots[m]->0).1));
            } else {
                assert((run.spots[m]->0).1.apart((run.spots[o]->0).1));
            }
        }
    }
}

/// Retained and placed slots stay on the prior pages, appended ones come after them.
proof fn lemma_run_slot_page(
    prior: CachedAtlasFamily,
    groups: Seq<PreparedAtlasGroup>,
    shared: AtlasSharedConfig,
    run: Reconciliation,
    i: int,
)
    requires
        is_ready_run(prior, groups, shared, run),
        0 <= i < all_slots(run).len(),
    ensures
        all_slots(run)[i].page_id < prior.pages@.len() <==> i < run.retained.slots@.len()
            + run.filled.slots@.len(),
{
    let a = run.retained.slots@.len() as int;
    let b = a + run.filled.slots@.len();
    let n = prior.pages@.len() as int;
    if i < a {
        assert(all_slots(run)[i] == run.retained.slots@[i]);
        lemma_retained_continues(prior, groups, shared, run, i);
        assert(prior.slots@[continued_slot(prior, run, i)].page_id < n);
    } else if i < b {
        assert(all_slots(run)[i] == run.filled.slots@[i - a]);
        let m = lemma_placed_spot(prior, groups, shared, run, i - a);
        lemma_spots_valid(groups, shared, run.order, run.free, run.spots, run.rest);
        assert(run.spots[m] is Some);
    } else {
        assert(all_slots(run)[i] == run.appended.slots[i - b]);
        let (p, f) = lemma_captured_valid(
            run.appended.pages,
            n,
            shared,
            run.appended.captured,
            i - b,
        );
    }
}

/// Every slot of a run is provided by a key of the group that owns it.
proof fn lemma_run_provider(
    prior: CachedAtlasFamily,
    groups: Seq<PreparedAtlasGroup>,
    shared: AtlasSharedConfig,
    run: Reconciliation,
    i: int,
)
    requires
        is_ready_run(prior, groups, shared, run),
        0 <= i < all_slots(run).len(),
    ensures
        0 <= all_owners(groups, run)[i] < groups.len(),
        lists_text(
            groups[all_owners(groups, run)[i]].logical_keys@,
            all_slots(run)[i].provider_key@,
        ),
{
    let a = run.retained.slots@.len() as int;
    let b = a + run.filled.slots@.len();
    let g = all_owners(groups, run)[i];
    assert(all_owners(groups, run).contains(g));
    assert(is_group(groups[g]));
    if i < a {
        assert(all_slots(run)[i] == run.retained.slots@[i]);
        lemma_retained_continues(prior, groups, shared, run, i);
        assert(g == run.retained.kept@[i] as int);
        let old = prior.slots@[continued_slot(prior, run, i)];
        if !lists_text(groups[g].logical_keys@, old.provider_key@) {
            assert(groups[g].logical_keys@[0]@ == all_slots(run)[i].provider_key@);
        }
    } else if i < b {
        assert(all_slots(run)[i] == run.filled.slots@[i - a]);
        assert(g == run.filled.taken@[i - a].0);
    } else {
        let k = i - b;
        assert(all_slots(run)[i] == run.appended.slots[k]);
        let key = run.appended.captured[k].frame.key@;
        assert(g == group_of_item(groups, key));
        lemma_appended_run(prior, groups, shared, run);
        assert(places_group(run.appended.captured, groups, k, g));
        assert(groups[g].item.key@ == key);
    }
}

/// Recorded identities ascend below the next one.
pub proof fn lemma_recorded_ids<F: Fn(u32, u32) -> u32>(
    ratio: F,
    prior: CachedAtlasFamily,
    groups: Seq<PreparedAtlasGroup>,
    shared: AtlasSharedConfig,
    run: Reconciliation,
    family: CachedAtlasFamily,
    bindings: Map<Seq<char>, (usize, UvBound)>,
)
    requires
        groups.len() <= usize::MAX,
        is_run(prior, groups, shared, run),
        ids_below(prior),
        records_run(ratio, prior, groups, run, family, bindings),
    ensures
        ids_valid(family.slots@, family.next_slot_id),
{
    let slots = family.slots@;
    let all = all_slots(run);
    lemma_same_multiset(slots, all);
    assert(distinct_ranks(all)) by {
        assert forall|i: int, j: int| 0 <= i < all.len() && 0 <= j < all.len() && i != j implies !((
        #[trigger] all[i]).ranks_le(#[trigger] all[j]) && all[j].ranks_le(all[i])) by {
            if i < j {
                lemma_run_ids(prior, groups, shared, run, family.next_slot_id, i, j);
            } else {
                lemma_run_ids(prior, groups, shared, run, family.next_slot_id, j, i);
            }
        }
    }
    lemma_ranked_strict(all, slots);
    assert forall|i: int, j: int| 0 <= i < j < slots.len() implies (#[trigger] slots[i]).slot_id < (
    #[trigger] slots[j]).slot_id by {
        assert(slots[i].ranks_le(slots[j]) && !slots[j].ranks_le(slots[i]));
    }
    if slots.len() > 0 {
        assert(slots.contains(slots.last()));
        assert(all.contains(slots.last()));
        let i = choose|i: int| 0 <= i < all.len() && all[i] == slots.last();
        lemma_run_id_range(prior, groups, shared, run, family.next_slot_id, i);
    }
}

/// The slot of the run that recorded slot `s` stands for.
pub proof fn lemma_recorded_origin<F: Fn(u32, u32) -> u32>(
    ratio: F,
    prior: CachedAtlasFamily,
    groups: Seq<PreparedAtlasGroup>,
    shared: AtlasSharedConfig,
    run: Reconciliation,
    family: CachedAtlasFamily,
    bindings: Map<Seq<char>, (usize, UvBound)>,
    s: int,
) -> (i: int)
    requires
        records_run(ratio, prior, groups, run, family, bindings),
        0 <= s < family.slots@.len(),
    ensures
        0 <= i < all_slots(run).len(),
        all_slots(run)[i] == family.slots@[s],
{
    lemma_same_multiset(family.slots@, all_slots(run));
    assert(family.slots@.contains(family.slots@[s]));
    assert(all_slots(run).contains(family.slots@[s]));
    choose|i: int| 0 <= i < all_slots(run).len() && all_slots(run)[i] == family.slots@[s]
}

/// The page that a recorded slot lies on is kept.
proof fn lemma_recorded_page<F: Fn(u32, u32) -> u32>(
    ratio: F,
    prior: CachedAtlasFamily,
    groups: Seq<PreparedAtlasGroup>,
    shared: AtlasSharedConfig,
    run: Reconciliation,
    family: CachedAtlasFamily,
    bindings: Map<Seq<char>, (usize, UvBound)>,
    s: int,
)
    requires
        records_run(ratio, prior, groups, run, family, bindings),
        0 <= s < family.slots@.len(),
        family.slots@[s].page_id < all_pages(prior, run).len(),
    ensures
        family.slots@[s].page_id < family.pages@.len(),
        family.pages@[family.slots@[s].page_id as int] == all_pages(
            prior,
            run,
        )[family.slots@[s].page_id as int],
{
    let p = family.slots@[s].page_id as int;
    if p >= family.pages@.len() {
        assert(page_used(family.slots@, p));
    }
}

/// Recorded slots lie on the recorded pages, and hold the content of their groups.
pub proof fn lemma_recorded_placed<F: Fn(u32, u32) -> u32>(
    ratio: F,
    prior: CachedAtlasFamily,
    groups: Seq<PreparedAtlasGroup>,
    shared: AtlasSharedConfig,
    run: Reconciliation,
    family: CachedAtlasFamily,
    bindings: Map<Seq<char>, (usize, UvBound)>,
)
    requires
        is_ready_run(prior, groups, shared, run),
        records_run(ratio, prior, groups, run, family, bindings),
    ensures
        forall|s: int|
            0 <= s < family.slots@.len() ==> slot_placed(
                #[trigger] family.slots@[s],
                family.pages@,
                shared,
            ) && holds_content(family.slots@[s], shared),
{
    assert forall|s: int| 0 <= s < family.slots@.len() implies slot_placed(
        #[trigger] family.slots@[s],
        family.pages@,
        shared,
    ) && holds_content(family.slots@[s], shared) by {
        let i = lemma_recorded_origin(ratio, prior, groups, shared, run, family, bindings, s);
        lemma_run_slot_placed(prior, groups, shared, run, i);
        lemma_recorded_page(ratio, prior, groups, shared, run, family, bindings, s);
    }
}

/// Recorded pages have an interior.
pub proof fn lemma_recorded_interiors<F: Fn(u32, u32) -> u32>(
    ratio: F,
    prior: CachedAtlasFamily,
    groups: Seq<PreparedAtlasGroup>,
    shared: AtlasSharedConfig,
    run: Reconciliation,
    family: CachedAtlasFamily,
    bindings: Map<Seq<char>, (usize, UvBound)>,
)
    requires
        is_ready_run(prior, groups, shared, run),
        records_run(ratio, prior, groups, run, family, bindings),
    ensures
        forall|p: int|
            0 <= p < family.pages@.len() ==> interior(
                (#[trigger] family.pages@[p]).width,
                family.pages@[p].height,
                shared.border_padding,
            ) is Ok,
{
    let n = prior.pages@.len() as int;
    assert forall|p: int| 0 <= p < family.pages@.len() implies interior(
        (#[trigger] family.pages@[p]).width,
        family.pages@[p].height,
        shared.border_padding,
    ) is Ok by {
        assert(family.pages@[p] == all_pages(prior, run)[p]);
        if p < n {
            assert(page_seeded(
                prior.pages@[p],
                shared.border_padding,
                occupied_on(run.retained.slots@, p),
                run.free[p],
            ));
        } else {
            lemma_appended_run(prior, groups, shared, run);
            let pages = run.appended.pages;
            let q = p - n;
            assert(is_packed_page(page_views(pages)[q], q, settings_for(shared.gpu_max)));
            let list = choose|list: Seq<CapturedFrame>|
                #[trigger] captures_all(pages, n, shared, list)
                    && run.appended.captured.to_multiset() == list.to_multiset();
            assert(captured_at(pages, q, 0, n, shared) == list[frames_before(pages, q) + 0]);
            assert(page_sizes(pages)[q] == all_pages(prior, run)[p]);
        }
    }
}

proof fn lemma_recorded_slots<F: Fn(u32, u32) -> u32>(
    ratio: F,
    prior: CachedAtlasFamily,
    groups: Seq<PreparedAtlasGroup>,
    shared: AtlasSharedConfig,
    run: Reconciliation,
    family: CachedAtlasFamily,
    bindings: Map<Seq<char>, (usize, UvBound)>,
)
    requires
        is_sound_run(prior, groups, shared, run),
        records_run(ratio, prior, groups, run, family, bindings),
        within_cap(family.pages@, shared),
    ensures
        forall|p: int|
            0 <= p < family.pages@.len() ==> page_valid(#[trigger] family.pages@[p], shared),
        forall|s: int|
            0 <= s < family.slots@.len() ==> slot_valid(
                #[trigger] family.slots@[s],
                family.pages@,
                shared,
            ),
{
    let slots = family.slots@;
    let pages = family.pages@;
    assert forall|p: int| 0 <= p < pages.len() implies page_valid(#[trigger] pages[p], shared) by {
        assert(pages[p] == all_pages(prior, run)[p]);
        lemma_run_page_valid(prior, groups, shared, run, p);
    }
    assert forall|s: int| 0 <= s < slots.len() implies slot_valid(
        #[trigger] slots[s],
        pages,
        shared,
    ) by {
        let i = lemma_recorded_origin(ratio, prior, groups, shared, run, family, bindings, s);
        lemma_run_slot_valid(prior, groups, shared, run, i);
        lemma_recorded_page(ratio, prior, groups, shared, run, family, bindings, s);
    }
}

/// Recorded relations lead to recorded slots, and every slot holds its own provider.
pub proof fn lemma_recorded_relations<F: Fn(u32, u32) -> u32>(
    ratio: F,
    prior: CachedAtlasFamily,
    groups: Seq<PreparedAtlasGroup>,
    shared: AtlasSharedConfig,
    run: Reconciliation,
    family: CachedAtlasFamily,
    bindings: Map<Seq<char>, (usize, UvBound)>,
)
    requires
        is_ready_run(prior, groups, shared, run),
        records_run(ratio, prior, groups, run, family, bindings),
    ensures
        relations_valid(family.slots@, family.key_slots@),
{
    let slots = family.slots@;
    let all = all_slots(run);
    let key_slots = family.key_slots@;
    let owners = all_owners(groups, run);
    lemma_same_multiset(slots, all);
    assert forall|k: int| 0 <= k < key_slots.len() implies has_slot(
        slots,
        (#[trigger] key_slots[k]).slot_id,
    ) by {
        let id = key_slots[k].slot_id;
        assert(relates(key_slots, key_slots[k].path@, id));
        assert(group_relates(groups, run.ids, key_slots[k].path@, id));
        let g = choose|g: int|
            0 <= g < groups.len() && lists_text(
                (#[trigger] groups[g]).logical_keys@,
                key_slots[k].path@,
            ) && run.ids[g] == id;
        assert(owners.contains(g));
        let i = choose|i: int| 0 <= i < owners.len() && owners[i] == g;
        assert(all[i].slot_id == id);
        assert(all.contains(all[i]));
        assert(slots.contains(all[i]));
        let s = choose|s: int| 0 <= s < slots.len() && slots[s] == all[i];
        assert(slots[s].slot_id == id);
    }
    assert forall|s: int| 0 <= s < slots.len() implies relates(
        key_slots,
        (#[trigger] slots[s]).provider_key@,
        slots[s].slot_id,
    ) by {
        let i = lemma_recorded_origin(ratio, prior, groups, shared, run, family, bindings, s);
        lemma_run_provider(prior, groups, shared, run, i);
        let g = owners[i];
        assert(run.ids[g] == slots[s].slot_id);
        assert(group_relates(groups, run.ids, slots[s].provider_key@, slots[s].slot_id));
    }
}

proof fn lemma_recorded_apart<F: Fn(u32, u32) -> u32>(
    ratio: F,
    prior: CachedAtlasFamily,
    groups: Seq<PreparedAtlasGroup>,
    shared: AtlasSharedConfig,
    run: Reconciliation,
    family: CachedAtlasFamily,
    bindings: Map<Seq<char>, (usize, UvBound)>,
)
    requires
        is_placed_run(prior, groups, shared, run),
        records_run(ratio, prior, groups, run, family, bindings),
    ensures
        reservations_apart(family.slots@),
{
    let slots = family.slots@;
    let all = all_slots(run);
    assert(all.no_duplicates()) by {
        assert forall|i: int, j: int| 0 <= i < j < all.len() implies all[i] != all[j] by {
            if all[i] == all[j] {
                lemma_run_apart(prior, groups, shared, run, i, j);
                lemma_run_slot_placed(prior, groups, shared, run, i);
                assert(all[i].reserved_rect.positive());
            }
        }
    }
    lemma_same_multiset_distinct(all, slots);
    assert forall|i: int, j: int|
        0 <= i < j < slots.len() && (#[trigger] slots[i]).page_id == (
        #[trigger] slots[j]).page_id implies slots[i].reserved_rect.apart(
        slots[j].reserved_rect,
    ) by {
        let a = lemma_recorded_origin(ratio, prior, groups, shared, run, family, bindings, i);
        let b = lemma_recorded_origin(ratio, prior, groups, shared, run, family, bindings, j);
        assert(slots[i] != slots[j]);
        if a < b {
            lemma_run_apart(prior, groups, shared, run, a, b);
        } else {
            lemma_run_apart(prior, groups, shared, run, b, a);
        }
    }
}

proof fn lemma_recorded_usage<F: Fn(u32, u32) -> u32>(
    ratio: F,
    prior: CachedAtlasFamily,
    groups: Seq<PreparedAtlasGroup>,
    shared: AtlasSharedConfig,
    run: Reconciliation,
    family: CachedAtlasFamily,
    bindings: Map<Seq<char>, (usize, UvBound)>,
)
    requires
        is_sound_run(prior, groups, shared, run),
        records_run(ratio, prior, groups, run, family, bindings),
        relation_paths(family.key_slots@) == bound_paths(family.bindings@),
    ensures
        usage_valid(family),
{
    let slots = family.slots@;
    lemma_same_multiset(slots, all_slots(run));
    if slots.len() == 0 {
        if groups.len() > 0 {
            assert(all_owners(groups, run).contains(0));
        }
        if family.key_slots@.len() > 0 {
            let k = family.key_slots@[0];
            assert(relates(family.key_slots@, k.path@, k.slot_id));
            assert(group_relates(groups, run.ids, k.path@, k.slot_id));
        }
        assert(relation_paths(family.key_slots@).len() == family.key_slots@.len());
        assert(bound_paths(family.bindings@).len() == family.bindings@.len());
        if family.pages@.len() > 0 {
            assert(page_used(slots, family.pages@.len() - 1));
        }
    }
}

/// Wherever the prior slots reserved areas apart, a reconciled family's slots are well placed: their
/// content lies in their reservations, those lie in the interiors of their pages and share no
/// area, no page at the end is unused, and every logical key is related once, by ascending path.
pub proof fn lemma_reconciled_slots_placed<F: Fn(u32, u32) -> u32>(
    ratio: F,
    prior: CachedAtlasFamily,
    groups: Seq<PreparedAtlasGroup>,
    shared: AtlasSharedConfig,
    run: Reconciliation,
    family: CachedAtlasFamily,
    bindings: Map<Seq<char>, (usize, UvBound)>,
)
    requires
        is_placed_run(prior, groups, shared, run),
        records_run(ratio, prior, groups, run, family, bindings),
    ensures
        forall|s: int|
            0 <= s < family.slots@.len() ==> slot_placed(
                #[trigger] family.slots@[s],
                family.pages@,
                shared,
            ),
        reservations_apart(family.slots@),
        family.pages@.len() == 0 || page_used(family.slots@, family.pages@.len() - 1),
        relates_groups(groups, run.ids, family.key_slots@),
        ascending(relation_paths(family.key_slots@)),
{
    lemma_recorded_placed(ratio, prior, groups, shared, run, family, bindings);
    lemma_recorded_apart(ratio, prior, groups, shared, run, family, bindings);
}

/// A family reconciled with valid prior evidence passes validation: retained, placed, and appended
/// slots lie apart on valid pages, and the evidence written is accepted by the next run, where the
/// pages keep to the page cap.
pub proof fn lemma_reconciled_family_valid<F: Fn(u32, u32) -> u32>(
    ratio: F,
    prior: CachedAtlasFamily,
    groups: Seq<PreparedAtlasGroup>,
    shared: AtlasSharedConfig,
    run: Reconciliation,
    family: CachedAtlasFamily,
    bindings: Map<Seq<char>, (usize, UvBound)>,
)
    requires
        is_sound_run(prior, groups, shared, run),
        records_run(ratio, prior, groups, run, family, bindings),
        config_valid(family.family_config, shared),
        fingerprints_cover(groups, family.texture_fingerprints@),
        within_cap(family.pages@, shared),
    ensures
        family_valid(ratio, family, shared),
{
    lemma_valid_on_pages(prior, shared);
    lemma_listed_bindings(ratio, groups, run.ids, family, bindings);
    lemma_recorded_ids(ratio, prior, groups, shared, run, family, bindings);
    lemma_recorded_slots(ratio, prior, groups, shared, run, family, bindings);
    lemma_recorded_relations(ratio, prior, groups, shared, run, family, bindings);
    lemma_recorded_apart(ratio, prior, groups, shared, run, family, bindings);
    lemma_recorded_usage(ratio, prior, groups, shared, run, family, bindings);
    assert(bindings_confirmed(ratio, family, bindings));
}

/// Which groups keep which prior slots follows from the prior evidence, the groups and the settings
/// alone.
pub proof fn lemma_claims_determined(
    prior: CachedAtlasFamily,
    groups: Seq<PreparedAtlasGroup>,
    shared: AtlasSharedConfig,
    a: Reconciliation,
    b: Reconciliation,
)
    requires
        groups.len() <= usize::MAX,
        matches_prior(prior, groups, shared, a),
        matches_prior(prior, groups, shared, b),
    ensures
        a.pairs == b.pairs,
        a.claims == b.claims,
{
    let slots = prior.slots@;
    let g = groups.len() as usize;
    let s = slots.len() as usize;
    let (edges, chosen) = choose|edges: Seq<MatchEdge>, chosen: Seq<MatchEdge>|
        {
            &&& lists_candidates(groups, slots, b.prior_keys, shared, edges)
            &&& #[trigger] is_cheapest_matching(g, s, edges, chosen)
            &&& lists_pairs(chosen, b.pairs)
            &&& is_searched(g, s, edges, b.pairs)
        };
    assert forall|edge: MatchEdge| #[trigger]
        is_candidate(groups, slots, a.prior_keys, shared, edge) <==> is_candidate(
            groups,
            slots,
            b.prior_keys,
            shared,
            edge,
        ) by {
        if edge.slot < slots.len() {
            let k = edge.slot as int;
            assert(a.prior_keys[k]@ == paths_in_slot(prior.key_slots@, slots[k].slot_id));
            assert(b.prior_keys[k]@ == paths_in_slot(prior.key_slots@, slots[k].slot_id));
        }
    }
    assert(lists_candidates(groups, slots, a.prior_keys, shared, edges));
    assert(is_best_matching(groups, slots, a.prior_keys, shared, b.pairs));
    lemma_matching_determined(groups, slots, a.prior_keys, shared, a.pairs, b.pairs);
    assert forall|k: int| 0 <= k < groups.len() implies #[trigger] a.claims[k] == b.claims[k] by {
        if let Some(t) = a.claims[k] {
            assert(a.pairs.contains((k as usize, t)));
            assert(b.claims[k] == Some(t));
        }
        if let Some(t) = b.claims[k] {
            assert(b.pairs.contains((k as usize, t)));
            assert(a.claims[k] == Some(t));
        }
    }
    assert(a.claims =~= b.claims);
}

/// A matched slot keeps its identity, page, and reservation through reconciliation, so surviving
/// content stays where it was.
pub proof fn lemma_retained_slots_keep_place<F: Fn(u32, u32) -> u32>(
    ratio: F,
    prior: CachedAtlasFamily,
    groups: Seq<PreparedAtlasGroup>,
    shared: AtlasSharedConfig,
    run: Reconciliation,
    family: CachedAtlasFamily,
    bindings: Map<Seq<char>, (usize, UvBound)>,
    g: int,
)
    requires
        groups.len() <= usize::MAX,
        is_run(prior, groups, shared, run),
        records_run(ratio, prior, groups, run, family, bindings),
        0 <= g < groups.len(),
        run.claims[g] is Some,
    ensures
        exists|s: int|
            {
                let old = prior.slots@[run.claims[g]->0 as int];
                &&& 0 <= s < family.slots@.len()
                &&& (#[trigger] family.slots@[s]).slot_id == old.slot_id
                &&& family.slots@[s].page_id == old.page_id
                &&& family.slots@[s].reserved_rect == old.reserved_rect
                &&& family.slots@[s].content_fingerprint == groups[g].content_fingerprint
            },
{
    lemma_claimed_groups(run.claims, groups.len() as int);
    let list = claimed_groups(run.claims, groups.len() as int);
    assert(list.contains(g));
    let i = choose|i: int| 0 <= i < list.len() && list[i] == g;
    assert(as_ints(run.retained.kept@)[i] == g);
    lemma_retained_continues(prior, groups, shared, run, i);
    let slot = run.retained.slots@[i];
    assert(all_slots(run)[i] == slot);
    lemma_same_multiset(family.slots@, all_slots(run));
    assert(all_slots(run).contains(slot));
    assert(family.slots@.contains(slot));
    let s = choose|s: int| 0 <= s < family.slots@.len() && family.slots@[s] == slot;
    assert(family.slots@[s].slot_id == slot.slot_id);
}

/// Slot identities are never reused: a slot that is not continued gets an identity that no prior
/// slot ever had.
pub proof fn lemma_new_ids_fresh<F: Fn(u32, u32) -> u32>(
    ratio: F,
    prior: CachedAtlasFamily,
    groups: Seq<PreparedAtlasGroup>,
    shared: AtlasSharedConfig,
    run: Reconciliation,
    family: CachedAtlasFamily,
    bindings: Map<Seq<char>, (usize, UvBound)>,
    s: int,
)
    requires
        is_sound_run(prior, groups, shared, run),
        records_run(ratio, prior, groups, run, family, bindings),
        0 <= s < family.slots@.len(),
    ensures
        family.next_slot_id >= prior.next_slot_id,
        family.slots@[s].slot_id >= prior.next_slot_id || exists|t: int|
            0 <= t < prior.slots@.len() && (#[trigger] prior.slots@[t]).slot_id
                == family.slots@[s].slot_id && prior.slots@[t].page_id == family.slots@[s].page_id
                && prior.slots@[t].reserved_rect == family.slots@[s].reserved_rect,
{
    lemma_same_multiset(family.slots@, all_slots(run));
    assert(family.slots@.contains(family.slots@[s]));
    assert(all_slots(run).contains(family.slots@[s]));
    let i = choose|i: int| 0 <= i < all_slots(run).len() && all_slots(run)[i] == family.slots@[s];
    lemma_run_id_range(prior, groups, shared, run, family.next_slot_id, i);
    if i < run.retained.slots@.len() {
        lemma_retained_continues(prior, groups, shared, run, i);
        let t = continued_slot(prior, run, i);
        assert(prior.slots@[t].slot_id == family.slots@[s].slot_id);
    }
}

/// Reconciliation never renumbers or resizes a page: prior pages that remain keep their place.
pub proof fn lemma_prior_pages_keep_place<F: Fn(u32, u32) -> u32>(
    ratio: F,
    prior: CachedAtlasFamily,
    groups: Seq<PreparedAtlasGroup>,
    run: Reconciliation,
    family: CachedAtlasFamily,
    bindings: Map<Seq<char>, (usize, UvBound)>,
    p: int,
)
    requires
        records_run(ratio, prior, groups, run, family, bindings),
        0 <= p < prior.pages@.len(),
        p < family.pages@.len(),
    ensures
        family.pages@[p] == prior.pages@[p],
{
    assert(family.pages@[p] == all_pages(prior, run)[p]);
}

} // verus!
