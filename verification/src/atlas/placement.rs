//! Slots behind packed frames, and the relation of logical keys to slots.

use crate::atlas::error::AtlasError;
use crate::atlas::group::{groups_partition, is_group, lists_text, PreparedAtlasGroup};
use crate::atlas::packer::{
    filled_item, frame_view, frames_of, is_packed, is_packed_page, item_view, item_views,
    page_view, page_views, placed_record, FrameView, ItemView, PackerSettings,
};
use crate::atlas::rect::CachedAtlasRect;
use crate::atlas::slot::{
    capture_reservation, reservation_behind, slot_from_frame, slot_repeats_frame,
};
use crate::atlas::types::{
    AtlasSharedConfig, CachedAtlasKeySlot, CachedAtlasSlot, Frame, LayoutItem, Page,
};
use crate::sort::{
    distinct_ranks, lemma_ranked_strict, lemma_same_multiset, lemma_same_multiset_distinct, ranked,
    sort_ranked, Ranked,
};
use crate::text::{
    ascending, lemma_text_order, lemma_text_transitive, str_le, text_le, text_lt, texts,
};
use crate::text_map::TextMap;
use vstd::prelude::*;

verus! {

// ---------------------------------------------------------------------------------------------
// Packed frames
// ---------------------------------------------------------------------------------------------

/// A packed frame with the reservation behind it.
#[derive(Debug)]
pub struct CapturedFrame {
    pub page_id: usize,
    pub reserved: CachedAtlasRect,
    pub frame: Frame,
}

/// Captured frames sort by page, row, column, and key.
impl Ranked for CapturedFrame {
    open spec fn ranks_le(self, other: Self) -> bool {
        if self.page_id != other.page_id {
            self.page_id < other.page_id
        } else if self.reserved.y != other.reserved.y {
            self.reserved.y < other.reserved.y
        } else if self.reserved.x != other.reserved.x {
            self.reserved.x < other.reserved.x
        } else {
            text_le(self.frame.key@, other.frame.key@)
        }
    }

    proof fn rank_total(a: Self, b: Self) {
        lemma_text_order(a.frame.key@, b.frame.key@);
    }

    proof fn rank_transitive(a: Self, b: Self, c: Self) {
        if a.page_id == b.page_id && b.page_id == c.page_id && a.reserved.y == b.reserved.y
            && b.reserved.y == c.reserved.y && a.reserved.x == b.reserved.x && b.reserved.x
            == c.reserved.x {
            lemma_text_transitive(a.frame.key@, b.frame.key@, c.frame.key@);
        }
    }

    fn rank_le(&self, other: &Self) -> (r: bool) {
        if self.page_id != other.page_id {
            self.page_id < other.page_id
        } else if self.reserved.y != other.reserved.y {
            self.reserved.y < other.reserved.y
        } else if self.reserved.x != other.reserved.x {
            self.reserved.x < other.reserved.x
        } else {
            str_le(self.frame.key.as_str(), other.frame.key.as_str())
        }
    }
}

/// The reservation behind frame `f` of page `p`.
pub open spec fn behind_frame(
    pages: Seq<Page>,
    p: int,
    f: int,
    shared: AtlasSharedConfig,
) -> Result<CachedAtlasRect, AtlasError> {
    reservation_behind(pages[p].frames@[f].frame, pages[p].width, pages[p].height, shared)
}

/// Frame `f` of page `p`, captured with page numbers raised by `offset`.
pub open spec fn captured_at(
    pages: Seq<Page>,
    p: int,
    f: int,
    offset: int,
    shared: AtlasSharedConfig,
) -> CapturedFrame {
    CapturedFrame {
        page_id: (offset + p) as usize,
        reserved: behind_frame(pages, p, f, shared)->Ok_0,
        frame: pages[p].frames@[f],
    }
}

/// Number of frames on the pages before page `p`.
pub open spec fn frames_before(pages: Seq<Page>, p: int) -> int
    decreases p,
{
    if p <= 0 {
        0
    } else {
        frames_before(pages, p - 1) + pages[p - 1].frames@.len()
    }
}

/// `list` captures every frame once, page after page.
pub open spec fn captures_all(
    pages: Seq<Page>,
    offset: int,
    shared: AtlasSharedConfig,
    list: Seq<CapturedFrame>,
) -> bool {
    &&& list.len() == frames_before(pages, pages.len() as int)
    &&& forall|p: int, f: int|
        0 <= p < pages.len() && 0 <= f < pages[p].frames@.len() ==> {
            &&& behind_frame(pages, p, f, shared) is Ok
            &&& list[frames_before(pages, p) + f] == #[trigger] captured_at(
                pages,
                p,
                f,
                offset,
                shared,
            )
        }
}

/// `captured` holds what `captures_all` lists, in sorted order.
pub open spec fn captures_sorted(
    pages: Seq<Page>,
    offset: int,
    shared: AtlasSharedConfig,
    captured: Seq<CapturedFrame>,
) -> bool {
    &&& ranked(captured)
    &&& exists|list: Seq<CapturedFrame>|
        #[trigger] captures_all(pages, offset, shared, list) && captured.to_multiset()
            == list.to_multiset()
}

/// Frame `f` of page `p` is the first without a valid reservation, for the reason `error`.
pub open spec fn is_first_uncaptured(
    pages: Seq<Page>,
    p: int,
    f: int,
    shared: AtlasSharedConfig,
    error: AtlasError,
) -> bool {
    &&& 0 <= p < pages.len()
    &&& 0 <= f < pages[p].frames@.len()
    &&& behind_frame(pages, p, f, shared) == Err::<CachedAtlasRect, AtlasError>(error)
    &&& forall|q: int, g: int|
        0 <= q < pages.len() && 0 <= g < pages[q].frames@.len() && (q < p || (q == p && g < f))
            ==> #[trigger] behind_frame(pages, q, g, shared) is Ok
}

/// Capturing stops with `error`.
pub open spec fn capture_fails(
    pages: Seq<Page>,
    shared: AtlasSharedConfig,
    error: AtlasError,
) -> bool {
    exists|p: int, f: int| #[trigger] is_first_uncaptured(pages, p, f, shared, error)
}

proof fn lemma_frames_before_monotone(pages: Seq<Page>, p: int, q: int)
    requires
        0 <= p <= q <= pages.len(),
    ensures
        0 <= frames_before(pages, p) <= frames_before(pages, q),
    decreases q,
{
    if p < q {
        lemma_frames_before_monotone(pages, p, q - 1);
    } else if p > 0 {
        lemma_frames_before_monotone(pages, 0, p - 1);
    }
}

/// Captures the reservation behind every frame and sorts by page, row, column, and key.
pub fn capture_frames(pages: &[Page], offset: usize, shared: &AtlasSharedConfig) -> (r: Result<
    Vec<CapturedFrame>,
    AtlasError,
>)
    requires
        offset + pages@.len() <= usize::MAX,
        forall|p: int| 0 <= p < pages@.len() ==> (#[trigger] pages@[p]).id == p,
    ensures
        match r {
            Ok(captured) => captures_sorted(pages@, offset as int, *shared, captured@),
            Err(e) => capture_fails(pages@, *shared, e),
        },
{
    let mut list: Vec<CapturedFrame> = Vec::new();
    let mut p: usize = 0;
    while p < pages.len()
        invariant
            p <= pages@.len(),
            offset + pages@.len() <= usize::MAX,
            forall|q: int| 0 <= q < pages@.len() ==> (#[trigger] pages@[q]).id == q,
            list@.len() == frames_before(pages@, p as int),
            forall|q: int, g: int|
                0 <= q < p && 0 <= g < pages@[q].frames@.len() ==> #[trigger] behind_frame(
                    pages@,
                    q,
                    g,
                    *shared,
                ) is Ok,
            forall|q: int, g: int|
                0 <= q < p && 0 <= g < pages@[q].frames@.len() ==> list@[frames_before(pages@, q)
                    + g] == #[trigger] captured_at(pages@, q, g, offset as int, *shared),
        decreases pages@.len() - p,
    {
        let page = &pages[p];
        let ghost base = list@;
        let mut f: usize = 0;
        while f < page.frames.len()
            invariant
                p < pages@.len(),
                *page == pages@[p as int],
                f <= page.frames@.len(),
                offset + pages@.len() <= usize::MAX,
                pages@[p as int].id == p,
                base.len() == frames_before(pages@, p as int),
                list@.len() == base.len() + f,
                forall|i: int| 0 <= i < base.len() ==> #[trigger] list@[i] == base[i],
                forall|q: int, g: int|
                    0 <= q < p && 0 <= g < pages@[q].frames@.len() ==> #[trigger] behind_frame(
                        pages@,
                        q,
                        g,
                        *shared,
                    ) is Ok,
                forall|g: int|
                    0 <= g < f ==> #[trigger] behind_frame(pages@, p as int, g, *shared) is Ok,
                forall|g: int|
                    0 <= g < f ==> list@[base.len() + g] == #[trigger] captured_at(
                        pages@,
                        p as int,
                        g,
                        offset as int,
                        *shared,
                    ),
            decreases page.frames@.len() - f,
        {
            let frame = &page.frames[f];
            match capture_reservation(frame.frame, page.width, page.height, shared) {
                Ok(reserved) => {
                    list.push(
                        CapturedFrame { page_id: offset + page.id, reserved, frame: frame.clone() },
                    );
                },
                Err(e) => {
                    assert(is_first_uncaptured(pages@, p as int, f as int, *shared, e));
                    return Err(e);
                },
            }
            proof {
                assert(behind_frame(pages@, p as int, f as int, *shared) is Ok);
            }
            f = f + 1;
        }
        proof {
            assert forall|q: int, g: int|
                0 <= q < p + 1 && 0 <= g < pages@[q].frames@.len() implies list@[frames_before(
                pages@,
                q,
            ) + g] == #[trigger] captured_at(pages@, q, g, offset as int, *shared) by {
                if q < p {
                    lemma_frames_before_monotone(pages@, q + 1, p as int);
                    lemma_frames_before_monotone(pages@, 0, q);
                    assert(frames_before(pages@, q + 1) == frames_before(pages@, q)
                        + pages@[q].frames@.len());
                }
            }
        }
        p = p + 1;
    }
    let ghost source = list@;
    let captured = sort_ranked(list);
    assert(captures_all(pages@, offset as int, *shared, source));
    Ok(captured)
}

/// Every listed entry captures some frame.
pub proof fn lemma_captured_origin(
    pages: Seq<Page>,
    offset: int,
    shared: AtlasSharedConfig,
    list: Seq<CapturedFrame>,
    i: int,
) -> (origin: (int, int))
    requires
        captures_all(pages, offset, shared, list),
        0 <= i < list.len(),
    ensures
        0 <= origin.0 < pages.len(),
        0 <= origin.1 < pages[origin.0].frames@.len(),
        i == frames_before(pages, origin.0) + origin.1,
        list[i] == captured_at(pages, origin.0, origin.1, offset, shared),
        behind_frame(pages, origin.0, origin.1, shared) is Ok,
{
    let p = lemma_page_of(pages, pages.len() as int, i);
    let f = i - frames_before(pages, p);
    assert(list[frames_before(pages, p) + f] == captured_at(pages, p, f, offset, shared));
    (p, f)
}

/// The page on which the frame with running number `i` stands.
proof fn lemma_page_of(pages: Seq<Page>, end: int, i: int) -> (p: int)
    requires
        0 <= end <= pages.len(),
        0 <= i < frames_before(pages, end),
    ensures
        0 <= p < end,
        frames_before(pages, p) <= i < frames_before(pages, p) + pages[p].frames@.len(),
    decreases end,
{
    if i < frames_before(pages, end - 1) {
        lemma_page_of(pages, end - 1, i)
    } else {
        end - 1
    }
}

/// The flattened frames of the page views are the frames in running order.
pub proof fn lemma_frames_flat(pages: Seq<Page>)
    ensures
        frames_of(page_views(pages)).len() == frames_before(pages, pages.len() as int),
        forall|p: int, f: int|
            0 <= p < pages.len() && 0 <= f < pages[p].frames@.len() ==> frames_of(
                page_views(pages),
            )[frames_before(pages, p) + f] == frame_view(#[trigger] pages[p].frames@[f]),
    decreases pages.len(),
{
    let views = page_views(pages);
    if pages.len() > 0 {
        let before = pages.drop_last();
        lemma_frames_flat(before);
        assert(views.drop_last() =~= page_views(before));
        assert(views.last() == page_view(pages.last()));
        let n = pages.len() - 1;
        assert forall|p: int| 0 <= p <= n implies #[trigger] frames_before(before, p)
            == frames_before(pages, p) by {
            lemma_frames_before_prefix(pages, p);
        }
        assert(frames_before(before, n) == frames_before(pages, n));
        assert forall|p: int, f: int|
            0 <= p < pages.len() && 0 <= f < pages[p].frames@.len() implies frames_of(views)[
            frames_before(pages, p) + f] == frame_view(#[trigger] pages[p].frames@[f]) by {
            lemma_frames_before_monotone(pages, 0, p);
            if p < n {
                assert(before[p].frames@[f] == pages[p].frames@[f]);
                assert(frames_before(before, p) == frames_before(pages, p));
                lemma_frames_before_monotone(pages, p + 1, n);
                assert(frames_before(pages, p + 1) == frames_before(pages, p)
                    + pages[p].frames@.len());
            } else {
                assert(views.last().frames[f] == frame_view(pages[p].frames@[f]));
            }
        }
    }
}

proof fn lemma_frames_before_prefix(pages: Seq<Page>, p: int)
    requires
        pages.len() > 0,
        0 <= p <= pages.len() - 1,
    ensures
        frames_before(pages.drop_last(), p) == frames_before(pages, p),
    decreases p,
{
    if p > 0 {
        lemma_frames_before_prefix(pages, p - 1);
    }
}

// ---------------------------------------------------------------------------------------------
// Key relations
// ---------------------------------------------------------------------------------------------

/// Paths of key relations in order.
pub open spec fn relation_paths(key_slots: Seq<CachedAtlasKeySlot>) -> Seq<Seq<char>> {
    key_slots.map_values(|relation: CachedAtlasKeySlot| relation.path@)
}

/// Some relation puts the path into the slot.
pub open spec fn relates(key_slots: Seq<CachedAtlasKeySlot>, path: Seq<char>, id: u64) -> bool {
    exists|k: int|
        0 <= k < key_slots.len() && (#[trigger] key_slots[k]).path@ == path && key_slots[k].slot_id
            == id
}

/// Some group lists the path and has the slot.
pub open spec fn group_relates(
    groups: Seq<PreparedAtlasGroup>,
    ids: Seq<u64>,
    path: Seq<char>,
    id: u64,
) -> bool {
    exists|g: int|
        0 <= g < groups.len() && lists_text((#[trigger] groups[g]).logical_keys@, path) && ids[g]
            == id
}

/// `key_slots` relates every logical key to the slot of its group, by ascending path.
pub open spec fn relates_groups(
    groups: Seq<PreparedAtlasGroup>,
    ids: Seq<u64>,
    key_slots: Seq<CachedAtlasKeySlot>,
) -> bool {
    &&& ascending(relation_paths(key_slots))
    &&& forall|path: Seq<char>, id: u64| #[trigger]
        relates(key_slots, path, id) <==> group_relates(groups, ids, path, id)
}

/// Number of logical keys in the groups before group `g`.
pub open spec fn keys_before(groups: Seq<PreparedAtlasGroup>, g: int) -> int
    decreases g,
{
    if g <= 0 {
        0
    } else {
        keys_before(groups, g - 1) + groups[g - 1].logical_keys@.len()
    }
}

/// The relation of key `a` of group `g`.
pub open spec fn relation_at(
    groups: Seq<PreparedAtlasGroup>,
    ids: Seq<u64>,
    g: int,
    a: int,
) -> CachedAtlasKeySlot {
    CachedAtlasKeySlot { path: groups[g].logical_keys@[a], slot_id: ids[g] }
}

proof fn lemma_keys_before_monotone(groups: Seq<PreparedAtlasGroup>, g: int, h: int)
    requires
        0 <= g <= h <= groups.len(),
    ensures
        0 <= keys_before(groups, g) <= keys_before(groups, h),
    decreases h,
{
    if g < h {
        lemma_keys_before_monotone(groups, g, h - 1);
    } else if g > 0 {
        lemma_keys_before_monotone(groups, 0, g - 1);
    }
}

/// The group that holds the key with running number `i`.
proof fn lemma_group_of_key(groups: Seq<PreparedAtlasGroup>, end: int, i: int) -> (g: int)
    requires
        0 <= end <= groups.len(),
        0 <= i < keys_before(groups, end),
    ensures
        0 <= g < end,
        keys_before(groups, g) <= i < keys_before(groups, g) + groups[g].logical_keys@.len(),
    decreases end,
{
    if i < keys_before(groups, end - 1) {
        lemma_group_of_key(groups, end - 1, i)
    } else {
        end - 1
    }
}

fn flat_relations(groups: &[PreparedAtlasGroup], slot_ids: &[u64]) -> (list: Vec<
    CachedAtlasKeySlot,
>)
    requires
        slot_ids@.len() == groups@.len(),
    ensures
        list@.len() == keys_before(groups@, groups@.len() as int),
        forall|h: int, b: int|
            0 <= h < groups@.len() && 0 <= b < groups@[h].logical_keys@.len() ==> list@[keys_before(
                groups@,
                h,
            ) + b] == #[trigger] relation_at(groups@, slot_ids@, h, b),
{
    let mut list: Vec<CachedAtlasKeySlot> = Vec::new();
    let mut g: usize = 0;
    while g < groups.len()
        invariant
            g <= groups@.len(),
            slot_ids@.len() == groups@.len(),
            list@.len() == keys_before(groups@, g as int),
            forall|h: int, b: int|
                0 <= h < g && 0 <= b < groups@[h].logical_keys@.len() ==> list@[keys_before(
                    groups@,
                    h,
                ) + b] == #[trigger] relation_at(groups@, slot_ids@, h, b),
        decreases groups@.len() - g,
    {
        let keys = &groups[g].logical_keys;
        let slot_id: u64 = slot_ids[g];
        let ghost base = list@;
        let mut a: usize = 0;
        while a < keys.len()
            invariant
                g < groups@.len(),
                *keys == groups@[g as int].logical_keys,
                slot_id == slot_ids@[g as int],
                a <= keys@.len(),
                base.len() == keys_before(groups@, g as int),
                list@.len() == base.len() + a,
                forall|i: int| 0 <= i < base.len() ==> #[trigger] list@[i] == base[i],
                forall|b: int|
                    0 <= b < a ==> list@[base.len() + b] == #[trigger] relation_at(
                        groups@,
                        slot_ids@,
                        g as int,
                        b,
                    ),
            decreases keys@.len() - a,
        {
            list.push(CachedAtlasKeySlot { path: keys[a].clone(), slot_id });
            a = a + 1;
        }
        proof {
            assert forall|h: int, b: int|
                0 <= h < g + 1 && 0 <= b < groups@[h].logical_keys@.len() implies list@[keys_before(
                groups@,
                h,
            ) + b] == #[trigger] relation_at(groups@, slot_ids@, h, b) by {
                if h < g {
                    lemma_keys_before_monotone(groups@, h + 1, g as int);
                    lemma_keys_before_monotone(groups@, 0, h);
                    assert(keys_before(groups@, h + 1) == keys_before(groups@, h)
                        + groups@[h].logical_keys@.len());
                }
            }
        }
        g = g + 1;
    }
    list
}

/// Relates every logical key of the groups to the slot of its group.
pub fn key_slots_for_groups(groups: &[PreparedAtlasGroup], slot_ids: &[u64]) -> (r: Vec<
    CachedAtlasKeySlot,
>)
    requires
        groups_partition(groups@),
        slot_ids@.len() == groups@.len(),
    ensures
        relates_groups(groups@, slot_ids@, r@),
        r@.len() == keys_before(groups@, groups@.len() as int),
{
    let list = flat_relations(groups, slot_ids);
    let ghost source = list@;
    let r = sort_ranked(list);
    proof {
        lemma_flat_distinct(groups@, slot_ids@, source);
        lemma_ranked_strict(source, r@);
        assert(ascending(relation_paths(r@))) by {
            assert forall|i: int, j: int| 0 <= i < j < r@.len() implies text_lt(
                #[trigger] relation_paths(r@)[i],
                #[trigger] relation_paths(r@)[j],
            ) by {
                assert(r@[i].ranks_le(r@[j]) && !r@[j].ranks_le(r@[i]));
                lemma_text_order(r@[i].path@, r@[j].path@);
            }
        }
        assert forall|path: Seq<char>, id: u64| #[trigger]
            relates(r@, path, id) <==> group_relates(groups@, slot_ids@, path, id) by {
            if relates(r@, path, id) {
                let k = choose|k: int|
                    0 <= k < r@.len() && (#[trigger] r@[k]).path@ == path && r@[k].slot_id == id;
                assert(r@.contains(r@[k]));
                assert(source.contains(r@[k]));
                let i = choose|i: int| 0 <= i < source.len() && source[i] == r@[k];
                let h = lemma_group_of_key(groups@, groups@.len() as int, i);
                let b = i - keys_before(groups@, h);
                assert(source[keys_before(groups@, h) + b] == relation_at(
                    groups@,
                    slot_ids@,
                    h,
                    b,
                ));
                assert(groups@[h].logical_keys@[b]@ == path);
                assert(lists_text(groups@[h].logical_keys@, path));
            }
            if group_relates(groups@, slot_ids@, path, id) {
                let h = choose|h: int|
                    0 <= h < groups@.len() && lists_text(
                        (#[trigger] groups@[h]).logical_keys@,
                        path,
                    ) && slot_ids@[h] == id;
                let b = choose|b: int|
                    0 <= b < groups@[h].logical_keys@.len() && (
                    #[trigger] groups@[h].logical_keys@[b])@ == path;
                let i = keys_before(groups@, h) + b;
                lemma_keys_before_monotone(groups@, 0, h);
                lemma_keys_before_monotone(groups@, h + 1, groups@.len() as int);
                assert(keys_before(groups@, h + 1) == keys_before(groups@, h)
                    + groups@[h].logical_keys@.len());
                assert(source[i] == relation_at(groups@, slot_ids@, h, b));
                assert(source.contains(source[i]));
                assert(r@.contains(source[i]));
                let k = choose|k: int| 0 <= k < r@.len() && r@[k] == source[i];
                assert(r@[k].path@ == path);
            }
        }
    }
    r
}

proof fn lemma_flat_distinct(
    groups: Seq<PreparedAtlasGroup>,
    ids: Seq<u64>,
    source: Seq<CachedAtlasKeySlot>,
)
    requires
        groups_partition(groups),
        source.len() == keys_before(groups, groups.len() as int),
        forall|h: int, b: int|
            0 <= h < groups.len() && 0 <= b < groups[h].logical_keys@.len() ==> source[keys_before(
                groups,
                h,
            ) + b] == #[trigger] relation_at(groups, ids, h, b),
    ensures
        distinct_ranks(source),
{
    assert forall|i: int, j: int|
        0 <= i < source.len() && 0 <= j < source.len() && i != j implies !((
    #[trigger] source[i]).ranks_le(#[trigger] source[j]) && source[j].ranks_le(source[i])) by {
        lemma_text_order(source[i].path@, source[j].path@);
        let g = lemma_group_of_key(groups, groups.len() as int, i);
        let h = lemma_group_of_key(groups, groups.len() as int, j);
        let a = i - keys_before(groups, g);
        let b = j - keys_before(groups, h);
        assert(source[keys_before(groups, g) + a] == relation_at(groups, ids, g, a));
        assert(source[keys_before(groups, h) + b] == relation_at(groups, ids, h, b));
        lemma_distinct_keys(groups, (g, a), (h, b));
    }
}

proof fn lemma_distinct_keys(groups: Seq<PreparedAtlasGroup>, a: (int, int), b: (int, int))
    requires
        groups_partition(groups),
        0 <= a.0 < groups.len(),
        0 <= b.0 < groups.len(),
        0 <= a.1 < groups[a.0].logical_keys@.len(),
        0 <= b.1 < groups[b.0].logical_keys@.len(),
        a != b,
    ensures
        groups[a.0].logical_keys@[a.1]@ != groups[b.0].logical_keys@[b.1]@,
{
    let path = groups[a.0].logical_keys@[a.1]@;
    if groups[b.0].logical_keys@[b.1]@ == path {
        assert(lists_text(groups[a.0].logical_keys@, path));
        assert(lists_text(groups[b.0].logical_keys@, path));
        assert(a.0 == b.0);
        assert(is_group(groups[a.0]));
        let keys = texts(groups[a.0].logical_keys@);
        if a.1 < b.1 {
            assert(text_lt(keys[a.1], keys[b.1]));
        } else {
            assert(text_lt(keys[b.1], keys[a.1]));
        }
    }
}

// ---------------------------------------------------------------------------------------------
// Slots of captured frames
// ---------------------------------------------------------------------------------------------

/// The group whose item has the key.
pub open spec fn group_of_item(groups: Seq<PreparedAtlasGroup>, key: Seq<char>) -> int {
    choose|g: int| 0 <= g < groups.len() && (#[trigger] groups[g]).item.key@ == key
}

/// In a partition no two groups share an item key.
pub proof fn lemma_group_of_item(groups: Seq<PreparedAtlasGroup>, g: int)
    requires
        groups_partition(groups),
        0 <= g < groups.len(),
    ensures
        group_of_item(groups, groups[g].item.key@) == g,
{
    let key = groups[g].item.key@;
    let h = group_of_item(groups, key);
    assert(0 <= h < groups.len() && groups[h].item.key@ == key);
    assert(is_group(groups[g]) && is_group(groups[h]));
    assert(lists_text(groups[g].logical_keys@, key));
    assert(lists_text(groups[h].logical_keys@, key));
}

/// Positions of the groups by the key of their item.
pub fn item_groups(groups: &[PreparedAtlasGroup]) -> (r: TextMap<usize>)
    requires
        groups_partition(groups@),
    ensures
        r.wf(),
        forall|key: Seq<char>| #[trigger]
            r@.dom().contains(key) <==> crate::atlas::group::has_provider(groups@, key),
        forall|key: Seq<char>| #[trigger]
            r@.dom().contains(key) ==> r@[key] < groups@.len() && r@[key] as int == group_of_item(
                groups@,
                key,
            ) && groups@[r@[key] as int].item.key@ == key,
{
    let mut map: TextMap<usize> = TextMap::new();
    let mut i: usize = 0;
    while i < groups.len()
        invariant
            i <= groups@.len(),
            groups_partition(groups@),
            map.wf(),
            forall|key: Seq<char>| #[trigger]
                map@.dom().contains(key) ==> map@[key] < i && groups@[map@[key] as int].item.key@
                    == key,
            forall|g: int| 0 <= g < i ==> map@.dom().contains((#[trigger] groups@[g]).item.key@),
        decreases groups@.len() - i,
    {
        map.insert(groups[i].item.key.clone(), i);
        i = i + 1;
    }
    proof {
        assert forall|key: Seq<char>| #[trigger] map@.dom().contains(key) implies map@[key] as int
            == group_of_item(groups@, key) by {
            lemma_group_of_item(groups@, map@[key] as int);
        }
        assert forall|key: Seq<char>| #[trigger]
            map@.dom().contains(key) <==> crate::atlas::group::has_provider(groups@, key) by {
            if map@.dom().contains(key) {
                assert(groups@[map@[key] as int].item.key@ == key);
            }
        }
    }
    map
}

/// Slot `i` of the list stands for captured frame `i` and has identity `first_id + i`.
pub open spec fn slots_repeat_captured(
    captured: Seq<CapturedFrame>,
    groups: Seq<PreparedAtlasGroup>,
    first_id: u64,
    slots: Seq<CachedAtlasSlot>,
) -> bool {
    &&& slots.len() == captured.len()
    &&& forall|i: int|
        0 <= i < slots.len() ==> {
            &&& (#[trigger] slots[i]).slot_id == first_id + i
            &&& slots[i].page_id == captured[i].page_id
            &&& slot_repeats_frame(
                slots[i],
                captured[i].reserved,
                captured[i].frame,
                groups[group_of_item(groups, captured[i].frame.key@)].content_fingerprint,
            )
        }
}

/// The page number or the identity that follows frame `i` cannot be represented.
pub open spec fn unplaceable(captured: Seq<CapturedFrame>, first_id: u64, i: int) -> bool {
    captured[i].page_id > u32::MAX || first_id + i + 1 > u64::MAX
}

/// Turning captured frames into slots stops with `error`.
pub open spec fn placing_fails(
    captured: Seq<CapturedFrame>,
    first_id: u64,
    error: AtlasError,
) -> bool {
    exists|i: int|
        {
            &&& 0 <= i < captured.len()
            &&& #[trigger] unplaceable(captured, first_id, i)
            &&& forall|j: int| 0 <= j < i ==> !#[trigger] unplaceable(captured, first_id, j)
            &&& error == if captured[i].page_id > u32::MAX {
                AtlasError::PageIdExceedsRange
            } else {
                AtlasError::SlotIdOverflow
            }
        }
}

/// Turns captured frames into slots with consecutive identities.
pub fn place_captured(
    captured: &[CapturedFrame],
    groups: &[PreparedAtlasGroup],
    by_item: &TextMap<usize>,
    first_id: u64,
) -> (r: Result<Vec<CachedAtlasSlot>, AtlasError>)
    requires
        by_item.wf(),
        forall|key: Seq<char>| #[trigger]
            by_item@.dom().contains(key) ==> by_item@[key] < groups@.len() && by_item@[key] as int
                == group_of_item(groups@, key),
        forall|i: int|
            0 <= i < captured@.len() ==> by_item@.dom().contains(
                (#[trigger] captured@[i]).frame.key@,
            ),
    ensures
        match r {
            Ok(slots) => {
                &&& slots_repeat_captured(captured@, groups@, first_id, slots@)
                &&& first_id + captured@.len() <= u64::MAX
            },
            Err(e) => placing_fails(captured@, first_id, e),
        },
{
    let mut slots: Vec<CachedAtlasSlot> = Vec::new();
    let mut next_id: u64 = first_id;
    let mut i: usize = 0;
    while i < captured.len()
        invariant
            i <= captured@.len(),
            next_id == first_id + i,
            by_item.wf(),
            forall|key: Seq<char>| #[trigger]
                by_item@.dom().contains(key) ==> by_item@[key] < groups@.len()
                    && by_item@[key] as int == group_of_item(groups@, key),
            forall|k: int|
                0 <= k < captured@.len() ==> by_item@.dom().contains(
                    (#[trigger] captured@[k]).frame.key@,
                ),
            slots_repeat_captured(captured@.take(i as int), groups@, first_id, slots@),
            forall|j: int| 0 <= j < i ==> !#[trigger] unplaceable(captured@, first_id, j),
        decreases captured@.len() - i,
    {
        let entry = &captured[i];
        assert(by_item@.dom().contains(captured@[i as int].frame.key@));
        let group: usize = *by_item.get(entry.frame.key.as_str()).unwrap();
        let slot = match slot_from_frame(
            next_id,
            entry.page_id,
            entry.reserved,
            &entry.frame,
            groups[group].content_fingerprint,
        ) {
            Ok(slot) => slot,
            Err(e) => {
                assert(unplaceable(captured@, first_id, i as int));
                return Err(e);
            },
        };
        let ghost before = slots@;
        slots.push(slot);
        proof {
            let seen = captured@.take(i as int);
            let now = captured@.take(i + 1);
            assert forall|k: int| 0 <= k < slots@.len() implies {
                &&& (#[trigger] slots@[k]).slot_id == first_id + k
                &&& slots@[k].page_id == now[k].page_id
                &&& slot_repeats_frame(
                    slots@[k],
                    now[k].reserved,
                    now[k].frame,
                    groups@[group_of_item(groups@, now[k].frame.key@)].content_fingerprint,
                )
            } by {
                if k < i {
                    assert(slots@[k] == before[k]);
                    assert(seen[k] == now[k]);
                }
            }
        }
        next_id = match next_id.checked_add(1) {
            Some(next) => next,
            None => {
                assert(unplaceable(captured@, first_id, i as int));
                return Err(AtlasError::SlotIdOverflow);
            },
        };
        assert(!unplaceable(captured@, first_id, i as int));
        i = i + 1;
    }
    assert(captured@.take(i as int) =~= captured@);
    Ok(slots)
}

// ---------------------------------------------------------------------------------------------
// Frames and groups
// ---------------------------------------------------------------------------------------------

/// The chosen groups are distinct.
pub open spec fn are_distinct_groups(groups: Seq<PreparedAtlasGroup>, chosen: Seq<int>) -> bool {
    &&& chosen.no_duplicates()
    &&& forall|j: int| 0 <= j < chosen.len() ==> 0 <= #[trigger] chosen[j] < groups.len()
}

/// The items of the chosen groups.
pub open spec fn chosen_items(groups: Seq<PreparedAtlasGroup>, chosen: Seq<int>) -> Seq<
    LayoutItem,
> {
    Seq::new(chosen.len(), |j: int| groups[chosen[j]].item)
}

/// The frame places the item: same key, size, and trimming record, unrotated.
pub open spec fn places_item(frame: Frame, item: LayoutItem) -> bool {
    &&& placed_record(frame_view(frame)) == filled_item(item_view(item))
    &&& !frame.rotated
}

/// Entry `i` places the item of group `g`.
pub open spec fn places_group(
    captured: Seq<CapturedFrame>,
    groups: Seq<PreparedAtlasGroup>,
    i: int,
    g: int,
) -> bool {
    &&& 0 <= i < captured.len()
    &&& 0 <= g < groups.len()
    &&& places_item(captured[i].frame, groups[g].item)
}

/// The captured frames place each chosen group's item exactly once, and nothing else.
pub open spec fn places_chosen(
    captured: Seq<CapturedFrame>,
    groups: Seq<PreparedAtlasGroup>,
    chosen: Seq<int>,
) -> bool {
    &&& captured.len() == chosen.len()
    &&& forall|i: int|
        0 <= i < captured.len() ==> chosen.contains(
            group_of_item(groups, (#[trigger] captured[i]).frame.key@),
        ) && places_group(
            captured,
            groups,
            i,
            group_of_item(groups, captured[i].frame.key@),
        )
    &&& forall|i: int, k: int|
        0 <= i < k < captured.len() ==> (#[trigger] captured[i]).frame.key@ != (
        #[trigger] captured[k]).frame.key@
    &&& forall|j: int|
        0 <= j < chosen.len() ==> captures_key(
            captured,
            groups[#[trigger] chosen[j]].item.key@,
        )
}

/// Some entry has the key.
pub open spec fn captures_key(captured: Seq<CapturedFrame>, key: Seq<char>) -> bool {
    exists|i: int| 0 <= i < captured.len() && (#[trigger] captured[i]).frame.key@ == key
}

/// A packed layout of distinct groups' items places each of them exactly once.
pub proof fn lemma_places_chosen(
    groups: Seq<PreparedAtlasGroup>,
    chosen: Seq<int>,
    settings: PackerSettings,
    pages: Seq<Page>,
    offset: int,
    shared: AtlasSharedConfig,
    captured: Seq<CapturedFrame>,
)
    requires
        groups_partition(groups),
        are_distinct_groups(groups, chosen),
        is_packed(item_views(chosen_items(groups, chosen)), settings, page_views(pages)),
        captures_sorted(pages, offset, shared, captured),
    ensures
        places_chosen(captured, groups, chosen),
{
    let items = item_views(chosen_items(groups, chosen));
    let flat = frames_of(page_views(pages));
    let records = flat.map_values(|frame: FrameView| placed_record(frame));
    let filled = items.map_values(|item: ItemView| filled_item(item));
    let list = choose|list: Seq<CapturedFrame>|
        #[trigger] captures_all(pages, offset, shared, list) && captured.to_multiset()
            == list.to_multiset();
    lemma_frames_flat(pages);
    lemma_same_multiset(records, filled);
    lemma_same_multiset(captured, list);
    assert forall|j: int| 0 <= j < filled.len() implies #[trigger] filled[j] == filled_item(
        item_view(groups[chosen[j]].item),
    ) by {}
    assert forall|j: int, k: int| 0 <= j < filled.len() && 0 <= k < filled.len() && j != k implies (
    #[trigger] filled[j]).key != (#[trigger] filled[k]).key by {
        lemma_group_of_item(groups, chosen[j]);
        lemma_group_of_item(groups, chosen[k]);
        assert(filled[j].key == groups[chosen[j]].item.key@);
        assert(filled[k].key == groups[chosen[k]].item.key@);
    }
    assert(filled.no_duplicates());
    lemma_same_multiset_distinct(filled, records);
    assert(list.len() == records.len());
    // What each listed entry places.
    assert forall|i: int| 0 <= i < list.len() implies {
        &&& records[i] == placed_record(frame_view((#[trigger] list[i]).frame))
        &&& !list[i].frame.rotated
        &&& filled.contains(records[i])
    } by {
        let (p, f) = lemma_captured_origin(pages, offset, shared, list, i);
        assert(flat[frames_before(pages, p) + f] == frame_view(pages[p].frames@[f]));
        assert(page_views(pages)[p].frames[f] == frame_view(pages[p].frames@[f]));
        assert(is_packed_page(page_views(pages)[p], p, settings));
        assert(records.contains(records[i]));
    }
    assert forall|i: int, k: int| 0 <= i < list.len() && 0 <= k < list.len() && i != k implies (
    #[trigger] list[i]).frame.key@ != (#[trigger] list[k]).frame.key@ by {
        assert(records[i] != records[k]);
        assert(records[i] == placed_record(frame_view(list[i].frame)));
        assert(records[k] == placed_record(frame_view(list[k].frame)));
        assert(filled.contains(records[i]));
        assert(filled.contains(records[k]));
        let a = choose|a: int| 0 <= a < filled.len() && filled[a] == records[i];
        let b = choose|b: int| 0 <= b < filled.len() && filled[b] == records[k];
        assert(a != b);
        assert(filled[a].key != filled[b].key);
    }
    assert(list.no_duplicates());
    lemma_same_multiset_distinct(list, captured);
    assert forall|i: int| 0 <= i < captured.len() implies chosen.contains(
        group_of_item(groups, (#[trigger] captured[i]).frame.key@),
    ) && places_group(captured, groups, i, group_of_item(groups, captured[i].frame.key@)) by {
        assert(captured.contains(captured[i]));
        assert(list.contains(captured[i]));
        let k = choose|k: int| 0 <= k < list.len() && list[k] == captured[i];
        assert(filled.contains(records[k]));
        let j = choose|j: int| 0 <= j < filled.len() && filled[j] == records[k];
        assert(filled[j].key == records[k].key);
        lemma_group_of_item(groups, chosen[j]);
    }
    assert forall|i: int, k: int| 0 <= i < k < captured.len() implies (
    #[trigger] captured[i]).frame.key@ != (#[trigger] captured[k]).frame.key@ by {
        assert(captured[i] != captured[k]);
        assert(captured.contains(captured[i]) && captured.contains(captured[k]));
        assert(list.contains(captured[i]) && list.contains(captured[k]));
        let a = choose|a: int| 0 <= a < list.len() && list[a] == captured[i];
        let b = choose|b: int| 0 <= b < list.len() && list[b] == captured[k];
        assert(a != b);
    }
    assert forall|j: int| 0 <= j < chosen.len() implies captures_key(
        captured,
        groups[#[trigger] chosen[j]].item.key@,
    ) by {
        assert(filled.contains(filled[j]));
        assert(records.contains(filled[j]));
        let i = choose|i: int| 0 <= i < records.len() && records[i] == filled[j];
        assert(list[i].frame.key@ == filled[j].key);
        assert(list.contains(list[i]));
        assert(captured.contains(list[i]));
        let k = choose|k: int| 0 <= k < captured.len() && captured[k] == list[i];
        assert(captured[k].frame.key@ == groups[chosen[j]].item.key@);
    }
}

/// Every captured frame has a valid reservation, on a page of the layout.
pub proof fn lemma_captured_valid(
    pages: Seq<Page>,
    offset: int,
    shared: AtlasSharedConfig,
    captured: Seq<CapturedFrame>,
    i: int,
) -> (origin: (int, int))
    requires
        captures_sorted(pages, offset, shared, captured),
        0 <= i < captured.len(),
    ensures
        0 <= origin.0 < pages.len(),
        0 <= origin.1 < pages[origin.0].frames@.len(),
        captured[i] == captured_at(pages, origin.0, origin.1, offset, shared),
        behind_frame(pages, origin.0, origin.1, shared) is Ok,
{
    let list = choose|list: Seq<CapturedFrame>|
        #[trigger] captures_all(pages, offset, shared, list) && captured.to_multiset()
            == list.to_multiset();
    lemma_same_multiset(captured, list);
    assert(captured.contains(captured[i]));
    assert(list.contains(captured[i]));
    let k = choose|k: int| 0 <= k < list.len() && list[k] == captured[i];
    lemma_captured_origin(pages, offset, shared, list, k)
}

} // verus!
