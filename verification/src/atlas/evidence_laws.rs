//! Laws of slots and spots: where content stands, what valid evidence means, which spot a group
//! gets, and what a retained slot keeps.

use crate::atlas::cache::{
    fingerprint_paths, has_slot, ids_valid, page_interior, page_valid, reservations_apart, slot_geometry_valid, slot_valid,
    structure_valid,
};
use crate::atlas::error::AtlasError;
use crate::atlas::freelist::{admits, has_room, is_best_score, score_in, FitScore};
use crate::atlas::group::{lists_text, PreparedAtlasGroup};
use crate::atlas::placement::relation_paths;
use crate::atlas::rect::{lemma_u32_product, CachedAtlasRect};
use crate::atlas::retain::{
    as_ints, claimed_groups, is_retained, is_retained_slot, lemma_claimed_groups, redraws_page,
    Retained,
};
use crate::atlas::slot::{destination_within, reservation_behind, reserved_size};
use crate::atlas::spots::{
    goes_before, is_page_offer, is_placing_order, no_page_has_room, takes_spot,
};
use crate::atlas::types::{
    AtlasSharedConfig, CachedAtlasFamily, CachedAtlasPage, CachedAtlasSlot, Rect,
};
use crate::atlas::uv::bound_paths;
use crate::text::text_le;
use vstd::arithmetic::power2::pow2;
use vstd::prelude::*;

verus! {

// ---------------------------------------------------------------------------------------------
// Content and reservation
// ---------------------------------------------------------------------------------------------

/// The content keeps the extrusion and half the padding free on the near sides of its reservation,
/// and the extrusion and the rest of the padding, at least, on the far sides.
pub open spec fn stands_clear(
    reserved: CachedAtlasRect,
    content: CachedAtlasRect,
    shared: AtlasSharedConfig,
) -> bool {
    let near = shared.texture_extrusion + shared.texture_padding / 2;
    let far = shared.texture_extrusion + (shared.texture_padding - shared.texture_padding / 2);
    &&& content.x - reserved.x == near
    &&& content.y - reserved.y == near
    &&& content.x + content.width + far <= reserved.x + reserved.width
    &&& content.y + content.height + far <= reserved.y + reserved.height
}

/// Content of a size stands clear in its reservation; where it is refused, there is no place in the
/// reservation at which it would.
pub proof fn lemma_content_stands_clear(
    reserved: CachedAtlasRect,
    width: u32,
    height: u32,
    shared: AtlasSharedConfig,
    other: CachedAtlasRect,
)
    ensures
        destination_within(reserved, width, height, shared) matches Ok(content) ==> content.width
            == width && content.height == height && stands_clear(reserved, content, shared),
        destination_within(reserved, width, height, shared) is Err && other.width == width
            && other.height == height && reserved.fits() ==> !stands_clear(
            reserved,
            other,
            shared,
        ),
{
}

/// The reservation behind a frame is the smallest in which the frame stands clear, and lies in the
/// page away from its borders.
pub proof fn lemma_reservation_stands_clear(
    frame: Rect,
    page_width: u32,
    page_height: u32,
    shared: AtlasSharedConfig,
    r: CachedAtlasRect,
)
    requires
        reservation_behind(frame, page_width, page_height, shared) == Ok::<
            CachedAtlasRect,
            AtlasError,
        >(r),
    ensures
        stands_clear(
            r,
            CachedAtlasRect { x: frame.x, y: frame.y, width: frame.w, height: frame.h },
            shared,
        ),
        r.width == frame.w + shared.texture_padding + 2 * shared.texture_extrusion,
        r.height == frame.h + shared.texture_padding + 2 * shared.texture_extrusion,
        shared.border_padding <= r.x,
        shared.border_padding <= r.y,
        r.x + r.width + shared.border_padding <= page_width,
        r.y + r.height + shared.border_padding <= page_height,
{
}

// ---------------------------------------------------------------------------------------------
// Valid evidence
// ---------------------------------------------------------------------------------------------

/// One rectangle ends, along some axis, before the other begins.
pub open spec fn beside(a: CachedAtlasRect, b: CachedAtlasRect) -> bool {
    ||| a.x + a.width <= b.x
    ||| b.x + b.width <= a.x
    ||| a.y + a.height <= b.y
    ||| b.y + b.height <= a.y
}

/// The number is a power of two.
pub open spec fn is_two_to(value: u32) -> bool {
    exists|k: nat| value == #[trigger] pow2(k)
}

/// The slot stands on the page: its reservation away from the borders, its content clear in it, as
/// large as what is taken from the source, and that within the source.
pub open spec fn slot_can_be(
    slot: CachedAtlasSlot,
    page: CachedAtlasPage,
    shared: AtlasSharedConfig,
) -> bool {
    let r = slot.reserved_rect;
    &&& shared.border_padding <= r.x && shared.border_padding <= r.y
    &&& r.x + r.width + shared.border_padding <= page.width
    &&& r.y + r.height + shared.border_padding <= page.height
    &&& stands_clear(r, slot.destination, shared)
    &&& slot.destination.width > 0 && slot.destination.height > 0
    &&& slot.destination.width == slot.source.width
    &&& slot.destination.height == slot.source.height
    &&& slot.source.x + slot.source.width <= slot.source_size@[0]
    &&& slot.source.y + slot.source.height <= slot.source_size@[1]
    &&& !slot.rotated
}

/// A slot's geometry is valid exactly where the slot can stand on the page.
pub proof fn lemma_slot_valid_means(
    slot: CachedAtlasSlot,
    page: CachedAtlasPage,
    shared: AtlasSharedConfig,
)
    requires
        2 * shared.border_padding < page.width,
        2 * shared.border_padding < page.height,
    ensures
        slot_geometry_valid(slot, page_interior(page, shared), shared) <==> slot_can_be(
            slot,
            page,
            shared,
        ),
{
}

/// Valid evidence has pages that can be made, the last of them in use, and slots that stand on them.
pub proof fn lemma_valid_pages(family: CachedAtlasFamily, shared: AtlasSharedConfig)
    requires
        structure_valid(family, shared),
    ensures
        forall|p: int|
            0 <= p < family.pages@.len() ==> {
                &&& is_two_to((#[trigger] family.pages@[p]).width)
                &&& is_two_to(family.pages@[p].height)
                &&& family.pages@[p].width <= shared.gpu_max
                &&& family.pages@[p].height <= shared.gpu_max
                &&& 2 * shared.border_padding < family.pages@[p].width
                &&& 2 * shared.border_padding < family.pages@[p].height
            },
        forall|s: int|
            0 <= s < family.slots@.len() ==> (#[trigger] family.slots@[s]).page_id
                < family.pages@.len() && slot_can_be(
                family.slots@[s],
                family.pages@[family.slots@[s].page_id as int],
                shared,
            ),
        family.pages@.len() > 0 ==> exists|s: int|
            0 <= s < family.slots@.len() && (#[trigger] family.slots@[s]).page_id
                == family.pages@.len() - 1,
        family.slots@.len() == 0 ==> family.pages@.len() == 0 && family.key_slots@.len() == 0
            && family.bindings@.len() == 0,
{
    assert forall|s: int| 0 <= s < family.slots@.len() implies (
    #[trigger] family.slots@[s]).page_id < family.pages@.len() && slot_can_be(
        family.slots@[s],
        family.pages@[family.slots@[s].page_id as int],
        shared,
    ) by {
        let slot = family.slots@[s];
        assert(slot_valid(slot, family.pages@, shared));
        let page = family.pages@[slot.page_id as int];
        assert(page_valid(page, shared));
        lemma_slot_valid_means(slot, page, shared);
    }
    assert forall|p: int| 0 <= p < family.pages@.len() implies is_two_to(
        (#[trigger] family.pages@[p]).width,
    ) && is_two_to(family.pages@[p].height) by {
        assert(page_valid(family.pages@[p], shared));
    }
}

/// In valid evidence slots have identities in ascending order, all below the next one, and no two
/// slots of a page share a texel.
pub proof fn lemma_valid_slots(family: CachedAtlasFamily, shared: AtlasSharedConfig, s: int, t: int)
    requires
        structure_valid(family, shared),
        0 <= s < t < family.slots@.len(),
    ensures
        family.slots@[s].slot_id < family.slots@[t].slot_id < family.next_slot_id,
        family.slots@[s].page_id == family.slots@[t].page_id ==> beside(
            family.slots@[s].reserved_rect,
            family.slots@[t].reserved_rect,
        ),
{
    assert(reservations_apart(family.slots@));
    assert(ids_valid(family.slots@, family.next_slot_id));
    let n = family.slots@.len() - 1;
    if t < n {
        assert(family.slots@[t].slot_id < family.slots@[n].slot_id);
    }
}

/// In valid evidence fingerprints, slots and bindings are those of the same textures, in the same
/// order, and every texture leads to a slot.
pub proof fn lemma_valid_keys(family: CachedAtlasFamily, shared: AtlasSharedConfig, k: int)
    requires
        structure_valid(family, shared),
        0 <= k < family.key_slots@.len(),
    ensures
        family.key_slots@.len() == family.texture_fingerprints@.len(),
        family.bindings@.len() == family.texture_fingerprints@.len(),
        family.key_slots@[k].path@ == family.texture_fingerprints@[k].path@,
        family.bindings@[k].path@ == family.key_slots@[k].path@,
        exists|s: int|
            0 <= s < family.slots@.len() && (#[trigger] family.slots@[s]).slot_id
                == family.key_slots@[k].slot_id,
{
    assert(has_slot(family.slots@, family.key_slots@[k].slot_id));
    let paths = fingerprint_paths(family.texture_fingerprints@);
    let related = relation_paths(family.key_slots@);
    let bound = bound_paths(family.bindings@);
    assert(related.len() == paths.len() && bound.len() == paths.len());
    assert(related[k] == paths[k] && bound[k] == paths[k]);
}

// ---------------------------------------------------------------------------------------------
// Spots
// ---------------------------------------------------------------------------------------------

/// What is left of a side of a rectangle, the shorter one.
pub open spec fn short_rest(rect: CachedAtlasRect, width: u32, height: u32) -> int {
    if rect.width - width <= rect.height - height {
        rect.width - width
    } else {
        rect.height - height
    }
}

/// A group is placed in the upper left corner of the free rectangle, of all pages, that it leaves
/// the least of; of those alike the one with the least left of its shorter rest, then on the
/// earliest page, then with the highest lower edge, then the leftmost. It finds no spot only where
/// no free rectangle is large enough.
pub proof fn lemma_spot_leaves_least(
    width: u32,
    height: u32,
    before: Seq<Seq<CachedAtlasRect>>,
    spot: Option<(usize, CachedAtlasRect)>,
    after: Seq<Seq<CachedAtlasRect>>,
    q: int,
    k: int,
)
    requires
        takes_spot(width, height, before, spot, after),
        before.len() <= usize::MAX,
        0 <= q < before.len(),
        0 <= k < before[q].len(),
        width <= before[q][k].width,
        height <= before[q][k].height,
        forall|p: int, i: int|
            0 <= p < before.len() && 0 <= i < before[p].len() ==> (
            #[trigger] before[p][i]).fits(),
    ensures
        spot is Some,
        ({
            let other = before[q][k];
            let (p, rect) = spot->0;
            exists|i: int|
                {
                    let host = before[p as int][i];
                    let area = host.width * host.height;
                    let other_area = other.width * other.height;
                    &&& 0 <= i < before[p as int].len()
                    &&& (#[trigger] before[p as int][i]).x == rect.x
                    &&& host.y == rect.y
                    &&& rect.width == width && rect.height == height
                    &&& width <= host.width && height <= host.height
                    &&& area <= other_area
                    &&& area == other_area ==> {
                        let rest = short_rest(host, width, height);
                        let other_rest = short_rest(other, width, height);
                        &&& rest <= other_rest
                        &&& rest == other_rest ==> p <= q && (p == q ==> host.y <= other.y && (
                        host.y == other.y ==> host.x <= other.x))
                    }
                }
        }),
{
    assert(admits(before[q][k], width, height));
    if spot is None {
        assert(no_page_has_room(before, width, height));
        assert(has_room(before[q], width, height));
    } else {
        let (p, rect) = spot->0;
        let score = choose|score: FitScore|
            {
                &&& #[trigger] is_best_score(before[p as int], width, height, score)
                &&& score.x == rect.x
                &&& score.top == rect.y + height
            };
        let i = choose|i: int|
            0 <= i < before[p as int].len() && admits(
                #[trigger] before[p as int][i],
                width,
                height,
            ) && score_in(before[p as int][i], width, height) == score;
        let host = before[p as int][i];
        let other = before[q][k];
        assert(host.fits() && other.fits());
        let best = choose|best: FitScore|
            {
                &&& #[trigger] is_page_offer(before, width, height, p as int, best)
                &&& forall|r: int, o: FitScore|
                    0 <= r < before.len() && #[trigger] is_page_offer(before, width, height, r, o)
                        ==> best.at_least(o)
            };
        let plain = choose|plain: FitScore|
            #[trigger] is_best_score(before[p as int], width, height, plain) && best == (FitScore {
                page_id: p,
                ..plain
            });
        let own = score_in(other, width, height);
        lemma_page_has_best(before[q], width, height, k);
        let offer = choose|offer: FitScore| #[trigger]
            is_best_score(before[q], width, height, offer);
        let listed = FitScore { page_id: q as usize, ..offer };
        assert(is_page_offer(before, width, height, q, listed));
        assert(best.at_least(listed));
        assert(offer.at_least(own));
        let j = choose|j: int|
            0 <= j < before[p as int].len() && admits(
                #[trigger] before[p as int][j],
                width,
                height,
            ) && score_in(before[p as int][j], width, height) == plain;
        assert(score.at_least(plain));
        assert(plain.at_least(score));
        let m = choose|m: int|
            0 <= m < before[q].len() && admits(#[trigger] before[q][m], width, height) && score_in(
                before[q][m],
                width,
                height,
            ) == offer;
        assert(score == plain);
        lemma_waste(host, width, height);
        lemma_waste(other, width, height);
        lemma_waste(before[q][m], width, height);
        assert(before[p as int][i].x == rect.x);
    }
}

/// The waste of a rectangle that is large enough is what is left of it.
proof fn lemma_waste(rect: CachedAtlasRect, width: u32, height: u32)
    requires
        admits(rect, width, height),
    ensures
        score_in(rect, width, height).area_waste == rect.width * rect.height - width * height,
        score_in(rect, width, height).short_side_waste == short_rest(rect, width, height),
{
    lemma_u32_product(rect.width, rect.height);
    lemma_u32_product(width, height);
    assert(width * height <= rect.width * rect.height) by (nonlinear_arith)
        requires
            0 <= width <= rect.width,
            0 <= height <= rect.height,
    ;
}

/// A list with a rectangle that is large enough has a best one.
proof fn lemma_page_has_best(free: Seq<CachedAtlasRect>, width: u32, height: u32, k: int)
    requires
        0 <= k < free.len(),
        admits(free[k], width, height),
    ensures
        exists|score: FitScore| #[trigger] is_best_score(free, width, height, score),
    decreases free.len(),
{
    let n = free.len() - 1;
    let front = free.drop_last();
    if exists|i: int| 0 <= i < n && admits(#[trigger] front[i], width, height) {
        let i = choose|i: int| 0 <= i < n && admits(#[trigger] front[i], width, height);
        lemma_page_has_best(front, width, height, i);
        let best = choose|score: FitScore| #[trigger] is_best_score(front, width, height, score);
        let j = choose|j: int|
            0 <= j < front.len() && admits(#[trigger] front[j], width, height) && score_in(
                front[j],
                width,
                height,
            ) == best;
        let last = score_in(free[n], width, height);
        let score = if admits(free[n], width, height) && last.at_least(best) {
            last
        } else {
            best
        };
        assert(free[j] == front[j]);
        assert forall|m: int|
            0 <= m < free.len() && admits(#[trigger] free[m], width, height) implies score.at_least(
            score_in(free[m], width, height),
        ) by {
            if m < n {
                assert(front[m] == free[m]);
            }
        }
        assert(is_best_score(free, width, height, score));
    } else {
        if k < n {
            assert(front[k] == free[k]);
        }
        let score = score_in(free[n], width, height);
        assert forall|m: int|
            0 <= m < free.len() && admits(#[trigger] free[m], width, height) implies score.at_least(
            score_in(free[m], width, height),
        ) by {
            if m < n {
                assert(front[m] == free[m]);
            }
        }
        assert(is_best_score(free, width, height, score));
    }
}

/// Groups are placed by what they reserve: none before a larger one, and of those alike in order of
/// their keys.
pub proof fn lemma_large_groups_first(
    groups: Seq<PreparedAtlasGroup>,
    claims: Seq<Option<usize>>,
    shared: AtlasSharedConfig,
    order: Seq<usize>,
    i: int,
    j: int,
    a: (u32, u32),
    b: (u32, u32),
)
    requires
        is_placing_order(groups, claims, shared, order),
        0 <= i < j < order.len(),
        a.0 == groups[order[i] as int].item.w + shared.texture_padding + 2
            * shared.texture_extrusion,
        a.1 == groups[order[i] as int].item.h + shared.texture_padding + 2
            * shared.texture_extrusion,
        b.0 == groups[order[j] as int].item.w + shared.texture_padding + 2
            * shared.texture_extrusion,
        b.1 == groups[order[j] as int].item.h + shared.texture_padding + 2
            * shared.texture_extrusion,
    ensures
        a.0 * a.1 >= b.0 * b.1,
        a.0 * a.1 == b.0 * b.1 ==> text_le(
            groups[order[i] as int].group_key@,
            groups[order[j] as int].group_key@,
        ),
        claims[order[i] as int] is None,
{
    assert(order.contains(order[i]));
    let x = groups[order[i] as int];
    let y = groups[order[j] as int];
    assert(goes_before(x, y, shared));
    assert(reserved_size(x.item.w, x.item.h, shared)->Ok_0 == a);
    assert(reserved_size(y.item.w, y.item.h, shared)->Ok_0 == b);
}

// ---------------------------------------------------------------------------------------------
// Retained slots
// ---------------------------------------------------------------------------------------------

/// A retained slot keeps its identity, page and reservation, shows the content of the group that
/// claims it, and keeps its provider as long as the group has that key, else takes the first.
pub proof fn lemma_retained_slots(
    slots: Seq<CachedAtlasSlot>,
    groups: Seq<PreparedAtlasGroup>,
    claims: Seq<Option<usize>>,
    shared: AtlasSharedConfig,
    result: Retained,
    i: int,
)
    requires
        claims.len() == groups.len(),
        is_retained(slots, groups, claims, shared, groups.len() as int, result),
        0 <= i < result.kept@.len(),
    ensures
        ({
            let g = result.kept@[i] as int;
            let old_slot = slots[claims[g]->0 as int];
            let new_slot = result.slots@[i];
            &&& 0 <= g < groups.len() && claims[g] is Some
            &&& result.slots@.len() == result.kept@.len()
            &&& new_slot.slot_id == old_slot.slot_id
            &&& new_slot.page_id == old_slot.page_id
            &&& new_slot.reserved_rect == old_slot.reserved_rect
            &&& new_slot.destination.width == groups[g].item.w
            &&& new_slot.destination.height == groups[g].item.h
            &&& stands_clear(old_slot.reserved_rect, new_slot.destination, shared)
            &&& new_slot.content_fingerprint == groups[g].content_fingerprint
            &&& new_slot.trimmed == groups[g].item.trimmed && !new_slot.rotated
            &&& lists_text(groups[g].logical_keys@, old_slot.provider_key@)
                ==> new_slot.provider_key@ == old_slot.provider_key@
            &&& !lists_text(groups[g].logical_keys@, old_slot.provider_key@)
                ==> new_slot.provider_key@ == groups[g].logical_keys@[0]@
        }),
{
    let kept = as_ints(result.kept@);
    lemma_claimed_groups(claims, groups.len() as int);
    assert(kept[i] == result.kept@[i] as int);
    assert(claimed_groups(claims, groups.len() as int).contains(kept[i]));
    let g = result.kept@[i] as int;
    assert(is_retained_slot(slots[claims[g]->0 as int], groups[g], shared, result.slots@[i]));
    lemma_content_stands_clear(
        slots[claims[g]->0 as int].reserved_rect,
        groups[g].item.w,
        groups[g].item.h,
        shared,
        result.slots@[i].destination,
    );
}

/// Exactly the pages are touched on which a retained slot shows other content or at another place.
pub proof fn lemma_touched_pages(
    slots: Seq<CachedAtlasSlot>,
    groups: Seq<PreparedAtlasGroup>,
    claims: Seq<Option<usize>>,
    shared: AtlasSharedConfig,
    result: Retained,
    page_id: usize,
)
    requires
        is_retained(slots, groups, claims, shared, groups.len() as int, result),
    ensures
        !result.touched@.contains(page_id) <==> forall|i: int|
            0 <= i < result.slots@.len() && (#[trigger] result.slots@[i]).page_id == page_id ==> {
                let old_slot = slots[claims[result.kept@[i] as int]->0 as int];
                &&& result.slots@[i].destination == old_slot.destination
                &&& result.slots@[i].content_fingerprint@ == old_slot.content_fingerprint@
            },
{
    assert(result.touched@.contains(page_id) <==> redraws_page(
        slots,
        claims,
        result.kept@,
        result.slots@,
        page_id,
    ));
}

} // verus!
