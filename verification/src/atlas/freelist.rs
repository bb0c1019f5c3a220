//! Free space of one atlas page.

use crate::atlas::error::AtlasError;
use crate::atlas::rect::{
    area, bottom, contains, interior, intersects, lemma_u32_product, right, usable_rect,
    CachedAtlasRect,
};
use crate::sort::{
    lemma_ranked_strict, lemma_same_multiset, lemma_strictly_ranked_unique, ranked, sort_ranked,
    strictly_ranked, Ranked,
};
use vstd::prelude::*;

verus! {

/// How tightly a placement fits. Smaller is better, field by field in this order.
#[derive(Clone, Copy, Debug, PartialEq, Eq, Structural)]
pub struct FitScore {
    pub area_waste: u64,
    pub short_side_waste: u32,
    pub page_id: usize,
    pub top: u32,
    pub x: u32,
}

impl FitScore {
    /// `self` is at least as good a fit as `other`.
    pub open spec fn at_least(self, other: Self) -> bool {
        if self.area_waste != other.area_waste {
            self.area_waste < other.area_waste
        } else if self.short_side_waste != other.short_side_waste {
            self.short_side_waste < other.short_side_waste
        } else if self.page_id != other.page_id {
            self.page_id < other.page_id
        } else if self.top != other.top {
            self.top < other.top
        } else {
            self.x <= other.x
        }
    }

    /// Whether `self` is at least as good a fit as `other`.
    pub fn fits_as_well(&self, other: &Self) -> (r: bool)
        ensures
            r == self.at_least(*other),
    {
        if self.area_waste != other.area_waste {
            self.area_waste < other.area_waste
        } else if self.short_side_waste != other.short_side_waste {
            self.short_side_waste < other.short_side_waste
        } else if self.page_id != other.page_id {
            self.page_id < other.page_id
        } else if self.top != other.top {
            self.top < other.top
        } else {
            self.x <= other.x
        }
    }

    /// The same score, attributed to page `page_id`.
    pub fn with_page(self, page_id: usize) -> (r: Self)
        ensures
            r == (FitScore { page_id, ..self }),
    {
        FitScore { page_id, ..self }
    }
}

/// A reservation of `width` by `height` fits into `rect`.
pub open spec fn admits(rect: CachedAtlasRect, width: u32, height: u32) -> bool {
    rect.width >= width && rect.height >= height
}

/// Score of placing a reservation in the upper left corner of `rect`.
pub open spec fn score_in(rect: CachedAtlasRect, width: u32, height: u32) -> FitScore {
    let dw = (rect.width - width) as u32;
    let dh = (rect.height - height) as u32;
    FitScore {
        area_waste: (rect.spec_area() - width * height) as u64,
        short_side_waste: if dw < dh { dw } else { dh },
        page_id: 0,
        top: (rect.y + height) as u32,
        x: rect.x,
    }
}

/// `score` is the best score that some free rectangle offers.
pub open spec fn is_best_score(
    free: Seq<CachedAtlasRect>,
    width: u32,
    height: u32,
    score: FitScore,
) -> bool {
    &&& exists|i: int|
        0 <= i < free.len() && admits(#[trigger] free[i], width, height) && score_in(
            free[i],
            width,
            height,
        ) == score
    &&& forall|i: int|
        0 <= i < free.len() && admits(#[trigger] free[i], width, height) ==> score.at_least(
            score_in(free[i], width, height),
        )
}

/// Some free rectangle is large enough.
pub open spec fn has_room(free: Seq<CachedAtlasRect>, width: u32, height: u32) -> bool {
    exists|i: int| 0 <= i < free.len() && admits(#[trigger] free[i], width, height)
}

/// `rect` lies within one of the free rectangles.
pub open spec fn within_one(free: Seq<CachedAtlasRect>, rect: CachedAtlasRect) -> bool {
    exists|i: int| 0 <= i < free.len() && (#[trigger] free[i]).encloses(rect)
}

/// The texel at `px`, `py` is free.
pub open spec fn free_at(free: Seq<CachedAtlasRect>, px: int, py: int) -> bool {
    exists|i: int| 0 <= i < free.len() && (#[trigger] free[i]).covers(px, py)
}

/// `piece` is one of the parts of `rect` that are left when `node` is cut out: the full-width
/// bands above and below, and the parts left and right of `node` between them.
pub open spec fn is_piece(
    rect: CachedAtlasRect,
    node: CachedAtlasRect,
    piece: CachedAtlasRect,
) -> bool {
    let x1 = if rect.x > node.x { rect.x as int } else { node.x as int };
    let y1 = if rect.y > node.y { rect.y as int } else { node.y as int };
    let x2 = if rect.right_edge() < node.right_edge() {
        rect.right_edge()
    } else {
        node.right_edge()
    };
    let y2 = if rect.bottom_edge() < node.bottom_edge() {
        rect.bottom_edge()
    } else {
        node.bottom_edge()
    };
    &&& piece.positive()
    &&& if rect.apart(node) {
        piece == rect
    } else {
        ||| (piece.x == rect.x && piece.width == rect.width && piece.y == rect.y
            && piece.bottom_edge() == y1)
        ||| (piece.x == rect.x && piece.width == rect.width && piece.y == y2 && piece.bottom_edge()
            == rect.bottom_edge())
        ||| (piece.x == rect.x && piece.right_edge() == x1 && piece.y == y1 && piece.bottom_edge()
            == y2)
        ||| (piece.x == x2 && piece.right_edge() == rect.right_edge() && piece.y == y1
            && piece.bottom_edge() == y2)
    }
}

/// `piece` is left of one of the free rectangles when `node` is cut out.
pub open spec fn is_remainder(
    free: Seq<CachedAtlasRect>,
    node: CachedAtlasRect,
    piece: CachedAtlasRect,
) -> bool {
    exists|i: int| 0 <= i < free.len() && #[trigger] is_piece(free[i], node, piece)
}

/// `piece` is a remainder that no other remainder encloses.
pub open spec fn is_maximal_remainder(
    free: Seq<CachedAtlasRect>,
    node: CachedAtlasRect,
    piece: CachedAtlasRect,
) -> bool {
    &&& is_remainder(free, node, piece)
    &&& forall|other: CachedAtlasRect| #[trigger]
        is_remainder(free, node, other) && other.encloses(piece) ==> other == piece
}

/// `rest` lists, in order, exactly the maximal remainders of `free` without `node`.
pub open spec fn is_subtracted(
    free: Seq<CachedAtlasRect>,
    node: CachedAtlasRect,
    rest: Seq<CachedAtlasRect>,
) -> bool {
    &&& strictly_ranked(rest)
    &&& forall|piece: CachedAtlasRect| #[trigger]
        rest.contains(piece) <==> is_maximal_remainder(free, node, piece)
}

/// Every free rectangle has texels and representable edges.
pub open spec fn all_proper(free: Seq<CachedAtlasRect>) -> bool {
    forall|i: int| 0 <= i < free.len() ==> (#[trigger] free[i]).positive() && free[i].fits()
}

/// `free` is what is left of `usable` when the reservations are cut out one after the other.
pub open spec fn is_seeded(
    usable: CachedAtlasRect,
    occupied: Seq<(u64, CachedAtlasRect)>,
    free: Seq<CachedAtlasRect>,
) -> bool
    decreases occupied.len(),
{
    if occupied.len() == 0 {
        free == seq![usable]
    } else {
        exists|before: Seq<CachedAtlasRect>|
            is_seeded(usable, occupied.drop_last(), before) && #[trigger] is_subtracted(
                before,
                occupied.last().1,
                free,
            )
    }
}

/// Slots sort by their identity.
impl Ranked for (u64, CachedAtlasRect) {
    open spec fn ranks_le(self, other: Self) -> bool {
        self.0 <= other.0
    }

    proof fn rank_total(a: Self, b: Self) {
    }

    proof fn rank_transitive(a: Self, b: Self, c: Self) {
    }

    fn rank_le(&self, other: &Self) -> (r: bool) {
        self.0 <= other.0
    }
}

proof fn lemma_piece_cover(rect: CachedAtlasRect, node: CachedAtlasRect, px: int, py: int)
    requires
        rect.positive(),
        rect.fits(),
        node.fits(),
    ensures
        (exists|p: CachedAtlasRect| #[trigger] is_piece(rect, node, p) && p.covers(px, py)) <==> (
        rect.covers(px, py) && !node.covers(px, py)),
{
    if rect.covers(px, py) && !node.covers(px, py) {
        let x1 = if rect.x > node.x { rect.x as int } else { node.x as int };
        let y1 = if rect.y > node.y { rect.y as int } else { node.y as int };
        let x2 = if rect.right_edge() < node.right_edge() {
            rect.right_edge()
        } else {
            node.right_edge()
        };
        let y2 = if rect.bottom_edge() < node.bottom_edge() {
            rect.bottom_edge()
        } else {
            node.bottom_edge()
        };
        let p = if rect.apart(node) {
            rect
        } else if py < y1 {
            CachedAtlasRect { x: rect.x, y: rect.y, width: rect.width, height: (y1 - rect.y) as u32 }
        } else if py >= y2 {
            CachedAtlasRect {
                x: rect.x,
                y: y2 as u32,
                width: rect.width,
                height: (rect.bottom_edge() - y2) as u32,
            }
        } else if px < x1 {
            CachedAtlasRect {
                x: rect.x,
                y: y1 as u32,
                width: (x1 - rect.x) as u32,
                height: (y2 - y1) as u32,
            }
        } else {
            CachedAtlasRect {
                x: x2 as u32,
                y: y1 as u32,
                width: (rect.right_edge() - x2) as u32,
                height: (y2 - y1) as u32,
            }
        };
        assert(is_piece(rect, node, p) && p.covers(px, py));
    }
}

/// Every remainder is enclosed by a maximal one.
proof fn lemma_maximal_above(
    free: Seq<CachedAtlasRect>,
    node: CachedAtlasRect,
    piece: CachedAtlasRect,
) -> (top: CachedAtlasRect)
    requires
        is_remainder(free, node, piece),
        all_proper(free),
        node.fits(),
    ensures
        is_maximal_remainder(free, node, top),
        top.encloses(piece),
    decreases piece.x + (u32::MAX - piece.right_edge()) + piece.y + (u32::MAX - piece.bottom_edge()),
{
    if is_maximal_remainder(free, node, piece) {
        piece
    } else {
        let other = choose|other: CachedAtlasRect| #[trigger]
            is_remainder(free, node, other) && other.encloses(piece) && other != piece;
        lemma_remainder_proper(free, node, other);
        lemma_maximal_above(free, node, other)
    }
}

proof fn lemma_remainder_proper(
    free: Seq<CachedAtlasRect>,
    node: CachedAtlasRect,
    piece: CachedAtlasRect,
)
    requires
        is_remainder(free, node, piece),
        all_proper(free),
        node.fits(),
    ensures
        piece.positive(),
        piece.fits(),
        within_one(free, piece),
{
    let i = choose|i: int| 0 <= i < free.len() && #[trigger] is_piece(free[i], node, piece);
    assert(free[i].encloses(piece));
}

/// Cutting `node` out of the free space frees no texel, and takes exactly those of `node`.
pub proof fn lemma_subtract_texels(
    free: Seq<CachedAtlasRect>,
    node: CachedAtlasRect,
    rest: Seq<CachedAtlasRect>,
)
    requires
        all_proper(free),
        node.fits(),
        is_subtracted(free, node, rest),
    ensures
        all_proper(rest),
        forall|px: int, py: int| #[trigger]
            free_at(rest, px, py) <==> free_at(free, px, py) && !node.covers(px, py),
        forall|i: int| 0 <= i < rest.len() ==> within_one(free, #[trigger] rest[i]),
{
    assert forall|i: int| 0 <= i < rest.len() implies (#[trigger] rest[i]).positive()
        && rest[i].fits() && within_one(free, rest[i]) by {
        assert(rest.contains(rest[i]));
        lemma_remainder_proper(free, node, rest[i]);
    }
    assert forall|px: int, py: int| #[trigger]
        free_at(rest, px, py) <==> free_at(free, px, py) && !node.covers(px, py) by {
        if free_at(rest, px, py) {
            let i = choose|i: int| 0 <= i < rest.len() && (#[trigger] rest[i]).covers(px, py);
            assert(rest.contains(rest[i]));
            let j = choose|j: int| 0 <= j < free.len() && #[trigger] is_piece(free[j], node, rest[i]);
            lemma_piece_cover(free[j], node, px, py);
            assert(free[j].covers(px, py));
        }
        if free_at(free, px, py) && !node.covers(px, py) {
            let j = choose|j: int| 0 <= j < free.len() && (#[trigger] free[j]).covers(px, py);
            lemma_piece_cover(free[j], node, px, py);
            let p = choose|p: CachedAtlasRect| #[trigger]
                is_piece(free[j], node, p) && p.covers(px, py);
            assert(is_remainder(free, node, p));
            let top = lemma_maximal_above(free, node, p);
            assert(rest.contains(top));
            let i = choose|i: int| 0 <= i < rest.len() && rest[i] == top;
            assert(rest[i].covers(px, py));
        }
    }
}

/// What is left after cutting out the reservations is one determined list.
pub proof fn lemma_seeded_unique(
    usable: CachedAtlasRect,
    occupied: Seq<(u64, CachedAtlasRect)>,
    a: Seq<CachedAtlasRect>,
    b: Seq<CachedAtlasRect>,
)
    requires
        is_seeded(usable, occupied, a),
        is_seeded(usable, occupied, b),
    ensures
        a == b,
    decreases occupied.len(),
{
    if occupied.len() > 0 {
        let prior = occupied.drop_last();
        let x = choose|x: Seq<CachedAtlasRect>|
            is_seeded(usable, prior, x) && #[trigger] is_subtracted(x, occupied.last().1, a);
        let y = choose|y: Seq<CachedAtlasRect>|
            is_seeded(usable, prior, y) && #[trigger] is_subtracted(y, occupied.last().1, b);
        lemma_seeded_unique(usable, prior, x, y);
        lemma_strictly_ranked_unique(a, b);
    }
}

/// The free space of a seeded page is its usable interior without the reserved texels.
pub proof fn lemma_seeded_texels(
    usable: CachedAtlasRect,
    occupied: Seq<(u64, CachedAtlasRect)>,
    free: Seq<CachedAtlasRect>,
)
    requires
        is_seeded(usable, occupied, free),
        usable.positive(),
        usable.fits(),
        forall|i: int| 0 <= i < occupied.len() ==> (#[trigger] occupied[i]).1.fits(),
    ensures
        all_proper(free),
        forall|px: int, py: int| #[trigger]
            free_at(free, px, py) <==> usable.covers(px, py) && forall|i: int|
                0 <= i < occupied.len() ==> !(#[trigger] occupied[i]).1.covers(px, py),
        forall|i: int| 0 <= i < free.len() ==> usable.encloses(#[trigger] free[i]),
    decreases occupied.len(),
{
    if occupied.len() == 0 {
        assert(free[0] == usable);
        assert forall|px: int, py: int| #[trigger] free_at(free, px, py) <==> usable.covers(
            px,
            py,
        ) by {
            if usable.covers(px, py) {
                assert(free[0].covers(px, py));
            }
        }
    } else {
        let prior = occupied.drop_last();
        let node = occupied.last().1;
        let before = choose|before: Seq<CachedAtlasRect>|
            is_seeded(usable, prior, before) && #[trigger] is_subtracted(before, node, free);
        assert forall|i: int| 0 <= i < prior.len() implies (#[trigger] prior[i]).1.fits() by {
            assert(prior[i] == occupied[i]);
        }
        assert(occupied[occupied.len() - 1].1.fits());
        lemma_seeded_texels(usable, prior, before);
        lemma_subtract_texels(before, node, free);
        assert forall|px: int, py: int| #[trigger]
            free_at(free, px, py) <==> usable.covers(px, py) && forall|i: int|
                0 <= i < occupied.len() ==> !(#[trigger] occupied[i]).1.covers(px, py) by {
            assert(free_at(before, px, py) <==> usable.covers(px, py) && forall|i: int|
                0 <= i < prior.len() ==> !(#[trigger] prior[i]).1.covers(px, py));
            if free_at(free, px, py) {
                assert forall|i: int| 0 <= i < occupied.len() implies !(
                #[trigger] occupied[i]).1.covers(px, py) by {
                    if i < prior.len() {
                        assert(prior[i] == occupied[i]);
                    }
                }
            }
            if usable.covers(px, py) && forall|i: int|
                0 <= i < occupied.len() ==> !(#[trigger] occupied[i]).1.covers(px, py) {
                assert forall|i: int| 0 <= i < prior.len() implies !(#[trigger] prior[i]).1.covers(
                    px,
                    py,
                ) by {
                    assert(prior[i] == occupied[i]);
                }
                assert(!occupied[occupied.len() - 1].1.covers(px, py));
            }
        }
        assert forall|i: int| 0 <= i < free.len() implies usable.encloses(#[trigger] free[i]) by {
            let j = choose|j: int|
                0 <= j < before.len() && (#[trigger] before[j]).encloses(free[i]);
            assert(usable.encloses(before[j]));
        }
    }
}

/// Seeding a page does not depend on the order in which distinct slots are listed.
pub proof fn lemma_seed_order_independent(
    usable: CachedAtlasRect,
    listed: Seq<(u64, CachedAtlasRect)>,
    relisted: Seq<(u64, CachedAtlasRect)>,
    sorted: Seq<(u64, CachedAtlasRect)>,
    resorted: Seq<(u64, CachedAtlasRect)>,
    free: Seq<CachedAtlasRect>,
    refree: Seq<CachedAtlasRect>,
)
    requires
        listed.to_multiset() == relisted.to_multiset(),
        forall|i: int, j: int|
            0 <= i < listed.len() && 0 <= j < listed.len() && i != j ==> (#[trigger] listed[i]).0
                != (#[trigger] listed[j]).0,
        ranked(sorted) && sorted.to_multiset() == listed.to_multiset(),
        ranked(resorted) && resorted.to_multiset() == relisted.to_multiset(),
        is_seeded(usable, sorted, free),
        is_seeded(usable, resorted, refree),
    ensures
        free == refree,
{
    lemma_ranked_strict(listed, sorted);
    lemma_ranked_strict(listed, resorted);
    lemma_same_multiset(sorted, resorted);
    lemma_strictly_ranked_unique(sorted, resorted);
    lemma_seeded_unique(usable, sorted, free, refree);
}

/// Free-rectangle list of one atlas page, seeded from the reservations already on it.
///
/// Placements use best-fit scoring and cut the placed reservation out of every overlapping free
/// rectangle.
pub struct SeededFreeList {
    pub free: Vec<CachedAtlasRect>,
}

impl SeededFreeList {
    /// All free rectangles have texels and representable edges.
    pub open spec fn wf(&self) -> bool {
        all_proper(self.free@)
    }

    /// Starts from the page interior and cuts out the occupied reservations in slot order.
    pub fn new(
        page_width: u32,
        page_height: u32,
        border_padding: u32,
        occupied: &[(u64, CachedAtlasRect)],
    ) -> (r: Result<Self, AtlasError>)
        ensures
            match (interior(page_width, page_height, border_padding), r) {
                (Err(e), _) => r == Err::<Self, AtlasError>(e),
                (Ok(usable), Ok(list)) => {
                    &&& list.wf()
                    &&& forall|i: int|
                        0 <= i < occupied@.len() ==> (#[trigger] occupied@[i]).1.fits()
                            && usable.encloses(occupied@[i].1)
                    &&& exists|sorted: Seq<(u64, CachedAtlasRect)>|
                        {
                            &&& #[trigger] ranked(sorted)
                            &&& sorted.to_multiset() == occupied@.to_multiset()
                            &&& is_seeded(usable, sorted, list.free@)
                        }
                },
                (Ok(usable), Err(e)) => {
                    &&& e == AtlasError::OccupiedOutsideInterior
                    &&& exists|i: int|
                        0 <= i < occupied@.len() && !((#[trigger] occupied@[i]).1.fits()
                            && usable.encloses(occupied@[i].1))
                },
            },
    {
        let mut listed: Vec<(u64, CachedAtlasRect)> = Vec::new();
        let mut k: usize = 0;
        while k < occupied.len()
            invariant
                k <= occupied.len(),
                listed@ == occupied@.take(k as int),
            decreases occupied.len() - k,
        {
            listed.push(occupied[k]);
            proof {
                assert(occupied@.take(k + 1) =~= occupied@.take(k as int).push(occupied@[k as int]));
            }
            k = k + 1;
        }
        assert(listed@ =~= occupied@);
        let sorted = sort_ranked(listed);
        let usable = usable_rect(page_width, page_height, border_padding)?;
        let mut free: Vec<CachedAtlasRect> = Vec::new();
        free.push(usable);
        let mut result = SeededFreeList { free };
        assert(result.free@ =~= seq![usable]);
        let mut i: usize = 0;
        assert(sorted@.take(0) =~= Seq::<(u64, CachedAtlasRect)>::empty());
        while i < sorted.len()
            invariant
                i <= sorted.len(),
                usable.positive() && usable.fits(),
                interior(page_width, page_height, border_padding) == Ok::<
                    CachedAtlasRect,
                    AtlasError,
                >(usable),
                ranked(sorted@),
                sorted@.to_multiset() == occupied@.to_multiset(),
                forall|x: (u64, CachedAtlasRect)| #[trigger]
                    sorted@.contains(x) <==> occupied@.contains(x),
                result.wf(),
                is_seeded(usable, sorted@.take(i as int), result.free@),
                forall|j: int|
                    0 <= j < i ==> (#[trigger] sorted@[j]).1.fits() && usable.encloses(sorted@[j].1),
            decreases sorted.len() - i,
        {
            let rect = sorted[i].1;
            if !contains(&usable, &rect) {
                proof {
                    assert(sorted@.contains(sorted@[i as int]));
                    assert(occupied@.contains(sorted@[i as int]));
                    let j = choose|j: int| 0 <= j < occupied@.len() && occupied@[j] == sorted@[i as int];
                    assert(!(occupied@[j].1.fits() && usable.encloses(occupied@[j].1)));
                }
                return Err(AtlasError::OccupiedOutsideInterior);
            }
            let ghost before = result.free@;
            let cut = result.subtract(rect);
            proof {
                lemma_subtract_texels(before, rect, result.free@);
                assert(sorted@.take(i + 1).drop_last() =~= sorted@.take(i as int));
                assert(sorted@.take(i + 1).last() == sorted@[i as int]);
                assert(is_subtracted(before, sorted@.take(i + 1).last().1, result.free@));
            }
            i = i + 1;
        }
        proof {
            assert(sorted@.take(i as int) =~= sorted@);
            assert forall|j: int| 0 <= j < occupied@.len() implies (#[trigger] occupied@[j]).1.fits()
                && usable.encloses(occupied@[j].1) by {
                assert(occupied@.contains(occupied@[j]));
                assert(sorted@.contains(occupied@[j]));
                let q = choose|q: int| 0 <= q < sorted@.len() && sorted@[q] == occupied@[j];
                assert(sorted@[q].1.fits());
            }
            assert(ranked(sorted@));
        }
        Ok(result)
    }

    /// Best score at which a reservation of the given size can be placed, if it fits at all.
    pub fn best_fit(&self, width: u32, height: u32) -> (r: Option<FitScore>)
        requires
            self.wf(),
        ensures
            r is None <==> !has_room(self.free@, width, height),
            r matches Some(score) ==> is_best_score(self.free@, width, height, score),
    {
        let mut best: Option<FitScore> = None;
        let mut i: usize = 0;
        while i < self.free.len()
            invariant
                self.wf(),
                i <= self.free.len(),
                best is None <==> !has_room(self.free@.take(i as int), width, height),
                best matches Some(score) ==> is_best_score(
                    self.free@.take(i as int),
                    width,
                    height,
                    score,
                ),
            decreases self.free.len() - i,
        {
            let rect = self.free[i];
            let ghost prev = self.free@.take(i as int);
            let ghost next = self.free@.take(i + 1);
            proof {
                assert(next =~= prev.push(rect));
                assert forall|k: int| 0 <= k < prev.len() implies next[k] == prev[k] by {}
                assert(next[i as int] == rect);
                assert(rect.positive() && rect.fits());
            }
            if rect.width >= width && rect.height >= height {
                proof {
                    assert(width * height <= rect.width * rect.height) by (nonlinear_arith)
                        requires
                            width <= rect.width,
                            height <= rect.height,
                    ;
                    lemma_u32_product(width, height);
                    lemma_u32_product(rect.width, rect.height);
                }
                let dw: u32 = rect.width - width;
                let dh: u32 = rect.height - height;
                let score = FitScore {
                    area_waste: area(rect) - width as u64 * height as u64,
                    short_side_waste: if dw < dh { dw } else { dh },
                    page_id: 0,
                    top: rect.y + height,
                    x: rect.x,
                };
                assert(score == score_in(rect, width, height));
                assert(admits(next[i as int], width, height));
                let replace = match &best {
                    Some(current) => !current.fits_as_well(&score),
                    None => true,
                };
                if replace {
                    best = Some(score);
                }
                proof {
                    let chosen = best->0;
                    if replace {
                        assert(score_in(next[i as int], width, height) == chosen);
                    } else {
                        let k = choose|k: int|
                            0 <= k < prev.len() && admits(#[trigger] prev[k], width, height)
                                && score_in(prev[k], width, height) == chosen;
                        assert(admits(next[k], width, height) && score_in(next[k], width, height)
                            == chosen);
                    }
                    assert forall|k: int|
                        0 <= k < next.len() && admits(
                            #[trigger] next[k],
                            width,
                            height,
                        ) implies chosen.at_least(score_in(next[k], width, height)) by {
                        if k < i {
                            assert(admits(prev[k], width, height));
                        }
                    }
                }
            } else {
                proof {
                    if best is Some {
                        let chosen = best->0;
                        let k = choose|k: int|
                            0 <= k < prev.len() && admits(#[trigger] prev[k], width, height)
                                && score_in(prev[k], width, height) == chosen;
                        assert(admits(next[k], width, height));
                        assert forall|k: int|
                            0 <= k < next.len() && admits(
                                #[trigger] next[k],
                                width,
                                height,
                            ) implies chosen.at_least(score_in(next[k], width, height)) by {
                            assert(admits(prev[k], width, height));
                        }
                    }
                    if has_room(next, width, height) {
                        let k = choose|k: int|
                            0 <= k < next.len() && admits(#[trigger] next[k], width, height);
                        assert(admits(prev[k], width, height));
                    }
                }
            }
            i = i + 1;
        }
        assert(self.free@.take(i as int) =~= self.free@);
        best
    }

    /// Places a reservation at its best fit and cuts it out of the free space.
    pub fn insert(&mut self, width: u32, height: u32) -> (r: Option<CachedAtlasRect>)
        requires
            old(self).wf(),
        ensures
            final(self).wf(),
            r is None <==> !has_room(old(self).free@, width, height),
            r is None ==> final(self).free@ == old(self).free@,
            r matches Some(rect) ==> {
                &&& rect.width == width
                &&& rect.height == height
                &&& rect.fits()
                &&& exists|score: FitScore|
                    {
                        &&& #[trigger] is_best_score(old(self).free@, width, height, score)
                        &&& score.x == rect.x
                        &&& score.top == rect.y + height
                    }
                &&& within_one(old(self).free@, rect)
                &&& is_subtracted(old(self).free@, rect, final(self).free@)
            },
    {
        let score = match self.best_fit(width, height) {
            Some(score) => score,
            None => {
                return None;
            },
        };
        let ghost before = self.free@;
        let ghost k = choose|i: int|
            0 <= i < before.len() && admits(#[trigger] before[i], width, height) && score_in(
                before[i],
                width,
                height,
            ) == score;
        proof {
            assert(before[k].positive() && before[k].fits());
        }
        let rect = CachedAtlasRect { x: score.x, y: score.top - height, width, height };
        assert(before[k].encloses(rect));
        let cut = self.subtract(rect);
        proof {
            lemma_subtract_texels(before, rect, self.free@);
            assert(is_best_score(before, width, height, score));
        }
        Some(rect)
    }

    /// Cuts `node` out of the free space.
    ///
    /// A node with an unrepresentable edge fails and loses the list.
    pub fn subtract(&mut self, node: CachedAtlasRect) -> (r: Result<(), AtlasError>)
        requires
            old(self).wf(),
        ensures
            r is Err <==> !node.fits() && old(self).free@.len() > 0,
            r matches Err(e) ==> {
                &&& e == if node.right_edge() > u32::MAX {
                    AtlasError::RectRightOverflow
                } else {
                    AtlasError::RectBottomOverflow
                }
                &&& final(self).free@.len() == 0
            },
            r is Ok && node.fits() ==> is_subtracted(old(self).free@, node, final(self).free@),
            r is Ok && !node.fits() ==> final(self).free@.len() == 0,
    {
        let ghost before = self.free@;
        let mut taken: Vec<CachedAtlasRect> = Vec::new();
        std::mem::swap(&mut taken, &mut self.free);
        let mut next: Vec<CachedAtlasRect> = Vec::new();
        let mut i: usize = 0;
        while i < taken.len()
            invariant
                i <= taken.len(),
                taken@ == before,
                all_proper(before),
                self.free@.len() == 0,
                i > 0 ==> node.fits(),
                forall|p: CachedAtlasRect| #[trigger]
                    next@.contains(p) <==> is_remainder(before.take(i as int), node, p),
                before.len() == old(self).free@.len(),
            decreases taken.len() - i,
        {
            let free = taken[i];
            let ghost done = before.take(i as int);
            let ghost kept = next@;
            let mut pieces: Vec<CachedAtlasRect> = Vec::new();
            assert(free.positive() && free.fits());
            if !intersects(&free, &node) {
                pieces.push(free);
                proof {
                    assert(pieces@[0] == free);
                    assert forall|p: CachedAtlasRect| #[trigger]
                        pieces@.contains(p) <==> is_piece(free, node, p) by {
                        if is_piece(free, node, p) {
                            assert(pieces@[0] == p);
                        }
                    }
                }
            } else {
                let free_right: u32 = right(free)?;
                let free_bottom: u32 = bottom(free)?;
                let node_right: u32 = right(node)?;
                let node_bottom: u32 = bottom(node)?;
                pieces = cut_pieces(free, node, free_right, free_bottom, node_right, node_bottom);
            }
            proof {
                assert(forall|p: CachedAtlasRect| #[trigger]
                    pieces@.contains(p) <==> is_piece(free, node, p));
            }
            let mut j: usize = 0;
            while j < pieces.len()
                invariant
                    j <= pieces.len(),
                    next@ == kept + pieces@.take(j as int),
                decreases pieces.len() - j,
            {
                next.push(pieces[j]);
                proof {
                    assert(kept + pieces@.take(j + 1) =~= (kept + pieces@.take(j as int)).push(
                        pieces@[j as int],
                    ));
                }
                j = j + 1;
            }
            proof {
                assert(pieces@.take(j as int) =~= pieces@);
                let upto = before.take(i + 1);
                assert forall|p: CachedAtlasRect| #[trigger]
                    next@.contains(p) <==> is_remainder(upto, node, p) by {
                    if next@.contains(p) {
                        let q = choose|q: int| 0 <= q < next@.len() && next@[q] == p;
                        if q < kept.len() {
                            assert(kept[q] == p);
                            assert(kept.contains(p));
                            let w = choose|w: int| 0 <= w < done.len() && #[trigger] is_piece(done[w], node, p);
                            assert(is_piece(upto[w], node, p));
                        } else {
                            assert(pieces@[q - kept.len()] == p);
                            assert(pieces@.contains(p));
                            assert(is_piece(upto[i as int], node, p));
                        }
                    }
                    if is_remainder(upto, node, p) {
                        let w = choose|w: int| 0 <= w < upto.len() && #[trigger] is_piece(upto[w], node, p);
                        if w < i {
                            assert(is_piece(done[w], node, p));
                            assert(kept.contains(p));
                            let q = choose|q: int| 0 <= q < kept.len() && kept[q] == p;
                            assert(next@[q] == p);
                        } else {
                            assert(pieces@.contains(p));
                            let q = choose|q: int| 0 <= q < pieces@.len() && pieces@[q] == p;
                            assert(next@[kept.len() + q] == p);
                        }
                    }
                }
            }
            i = i + 1;
        }
        assert(before.take(i as int) =~= before);
        if next.len() == 0 {
            proof {
                if node.fits() {
                    assert forall|p: CachedAtlasRect| #[trigger]
                        self.free@.contains(p) <==> is_maximal_remainder(before, node, p) by {
                        if is_maximal_remainder(before, node, p) {
                            assert(next@.contains(p));
                        }
                    }
                }
            }
            return Ok(());
        }
        proof {
            assert(next@.contains(next@[0]));
            assert(before.len() > 0);
        }
        let sorted = sort_ranked(next);
        let unique = drop_repeats(&sorted);
        self.free = keep_maximal(&unique);
        proof {
            let rest = self.free@;
            assert forall|p: CachedAtlasRect| #[trigger]
                rest.contains(p) <==> is_maximal_remainder(before, node, p) by {
                if rest.contains(p) {
                    assert(unique@.contains(p));
                    assert(sorted@.contains(p) && next@.contains(p));
                    assert forall|other: CachedAtlasRect| #[trigger]
                        is_remainder(before, node, other) && other.encloses(p) implies other == p by {
                        assert(next@.contains(other));
                        assert(sorted@.contains(other));
                        assert(unique@.contains(other));
                        lemma_remainder_proper(before, node, other);
                        lemma_remainder_proper(before, node, p);
                        let q = choose|q: int| 0 <= q < unique@.len() && unique@[q] == other;
                        assert(enclosed_by(unique@[q], p) ==> false);
                    }
                }
                if is_maximal_remainder(before, node, p) {
                    assert(next@.contains(p) && sorted@.contains(p) && unique@.contains(p));
                    assert forall|q: int| 0 <= q < unique@.len() implies !enclosed_by(
                        #[trigger] unique@[q],
                        p,
                    ) by {
                        assert(unique@.contains(unique@[q]));
                        assert(sorted@.contains(unique@[q]) && next@.contains(unique@[q]));
                        assert(is_remainder(before, node, unique@[q]));
                    }
                }
            }
        }
        Ok(())
    }
}

/// The parts of `free` around `node`.
fn cut_pieces(
    free: CachedAtlasRect,
    node: CachedAtlasRect,
    free_right: u32,
    free_bottom: u32,
    node_right: u32,
    node_bottom: u32,
) -> (pieces: Vec<CachedAtlasRect>)
    requires
        free.positive(),
        free_right == free.right_edge(),
        free_bottom == free.bottom_edge(),
        node_right == node.right_edge(),
        node_bottom == node.bottom_edge(),
        !free.apart(node),
    ensures
        forall|p: CachedAtlasRect| #[trigger] pieces@.contains(p) <==> is_piece(free, node, p),
{
    let ix1: u32 = if free.x > node.x { free.x } else { node.x };
    let iy1: u32 = if free.y > node.y { free.y } else { node.y };
    let ix2: u32 = if free_right < node_right { free_right } else { node_right };
    let iy2: u32 = if free_bottom < node_bottom { free_bottom } else { node_bottom };
    let mut pieces: Vec<CachedAtlasRect> = Vec::new();
    let ghost mut at_above: int = -1;
    let ghost mut at_below: int = -1;
    let ghost mut at_left: int = -1;
    let ghost mut at_right: int = -1;
    if iy1 > free.y {
        proof {
            at_above = pieces@.len() as int;
        }
        pieces.push(
            CachedAtlasRect { x: free.x, y: free.y, width: free.width, height: iy1 - free.y },
        );
    }
    if iy2 < free_bottom {
        proof {
            at_below = pieces@.len() as int;
        }
        pieces.push(
            CachedAtlasRect { x: free.x, y: iy2, width: free.width, height: free_bottom - iy2 },
        );
    }
    if ix1 > free.x && iy2 > iy1 {
        proof {
            at_left = pieces@.len() as int;
        }
        pieces.push(
            CachedAtlasRect { x: free.x, y: iy1, width: ix1 - free.x, height: iy2 - iy1 },
        );
    }
    if ix2 < free_right && iy2 > iy1 {
        proof {
            at_right = pieces@.len() as int;
        }
        pieces.push(
            CachedAtlasRect { x: ix2, y: iy1, width: free_right - ix2, height: iy2 - iy1 },
        );
    }
    proof {
        assert forall|p: CachedAtlasRect| #[trigger]
            pieces@.contains(p) <==> is_piece(free, node, p) by {
            if is_piece(free, node, p) {
                if p.y == free.y && p.bottom_edge() == iy1 && p.x == free.x && p.width == free.width {
                    assert(pieces@[at_above] == p);
                } else if p.y == iy2 && p.bottom_edge() == free_bottom && p.x == free.x && p.width
                    == free.width {
                    assert(pieces@[at_below] == p);
                } else if p.x == free.x && p.right_edge() == ix1 {
                    assert(pieces@[at_left] == p);
                } else {
                    assert(pieces@[at_right] == p);
                }
            }
        }
    }
    pieces
}

/// A sorted list without the repeats of its elements.
fn drop_repeats(sorted: &Vec<CachedAtlasRect>) -> (unique: Vec<CachedAtlasRect>)
    requires
        ranked(sorted@),
    ensures
        strictly_ranked(unique@),
        forall|p: CachedAtlasRect| #[trigger] unique@.contains(p) <==> sorted@.contains(p),
{
    let mut unique: Vec<CachedAtlasRect> = Vec::new();
    let mut i: usize = 0;
    while i < sorted.len()
        invariant
            i <= sorted.len(),
            ranked(sorted@),
            strictly_ranked(unique@),
            forall|p: CachedAtlasRect| #[trigger]
                unique@.contains(p) <==> sorted@.take(i as int).contains(p),
            i > 0 ==> unique.len() > 0 && unique@.last() == sorted@[i - 1],
            i == 0 ==> unique.len() == 0,
        decreases sorted.len() - i,
    {
        let rect = sorted[i];
        let ghost done = sorted@.take(i as int);
        let ghost upto = sorted@.take(i + 1);
        let ghost kept = unique@;
        let repeated = unique.len() > 0 && unique[unique.len() - 1] == rect;
        if !repeated {
            unique.push(rect);
            proof {
                assert forall|a: int| 0 <= a < kept.len() implies (#[trigger] kept[a]).ranks_le(
                    rect,
                ) && !rect.ranks_le(kept[a]) by {
                    assert(kept.last() == sorted@[i - 1]);
                    assert(sorted@[i - 1].ranks_le(sorted@[i as int]));
                    if a < kept.len() - 1 {
                        assert(kept[a].ranks_le(kept[kept.len() - 1]));
                    }
                }
            }
        }
        proof {
            assert(upto =~= done.push(rect));
            assert forall|p: CachedAtlasRect| #[trigger]
                unique@.contains(p) <==> upto.contains(p) by {
                if unique@.contains(p) {
                    let a = choose|a: int| 0 <= a < unique@.len() && unique@[a] == p;
                    if a < kept.len() {
                        assert(kept[a] == p);
                        assert(kept.contains(p));
                        let b = choose|b: int| 0 <= b < done.len() && done[b] == p;
                        assert(upto[b] == p);
                    } else {
                        assert(upto[i as int] == p);
                    }
                }
                if upto.contains(p) {
                    let b = choose|b: int| 0 <= b < upto.len() && upto[b] == p;
                    if b < i {
                        assert(done[b] == p);
                        assert(done.contains(p));
                        assert(kept.contains(p));
                        let a = choose|a: int| 0 <= a < kept.len() && kept[a] == p;
                        assert(unique@[a] == p);
                    } else {
                        assert(unique@[unique@.len() - 1] == p);
                    }
                }
            }
        }
        i = i + 1;
    }
    assert(sorted@.take(i as int) =~= sorted@);
    unique
}

/// `outer` makes `inner` redundant.
pub open spec fn enclosed_by(outer: CachedAtlasRect, inner: CachedAtlasRect) -> bool {
    outer != inner && outer.fits() && inner.fits() && outer.encloses(inner)
}

/// The rectangles of a strictly sorted list that no other one encloses.
fn keep_maximal(unique: &Vec<CachedAtlasRect>) -> (kept: Vec<CachedAtlasRect>)
    requires
        strictly_ranked(unique@),
    ensures
        strictly_ranked(kept@),
        forall|p: CachedAtlasRect| #[trigger]
            kept@.contains(p) <==> unique@.contains(p) && forall|q: int|
                0 <= q < unique@.len() ==> !enclosed_by(#[trigger] unique@[q], p),
{
    let mut kept: Vec<CachedAtlasRect> = Vec::new();
    let mut i: usize = 0;
    let ghost mut origin: Seq<int> = seq![];
    while i < unique.len()
        invariant
            i <= unique.len(),
            strictly_ranked(unique@),
            origin.len() == kept@.len(),
            forall|a: int| 0 <= a < origin.len() ==> 0 <= #[trigger] origin[a] < i && unique@[origin[a]] == kept@[a],
            forall|a: int, b: int| 0 <= a < b < origin.len() ==> #[trigger] origin[a] < #[trigger] origin[b],
            forall|a: int, q: int|
                0 <= a < kept@.len() && 0 <= q < unique@.len() ==> !enclosed_by(
                    #[trigger] unique@[q],
                    #[trigger] kept@[a],
                ),
            forall|b: int|
                0 <= b < i && (forall|q: int|
                    0 <= q < unique@.len() ==> !enclosed_by(#[trigger] unique@[q], unique@[b]))
                    ==> kept@.contains(#[trigger] unique@[b]),
        decreases unique.len() - i,
    {
        let rect = unique[i];
        let mut redundant = false;
        let mut j: usize = 0;
        while j < unique.len()
            invariant
                j <= unique.len(),
                redundant <==> exists|q: int| 0 <= q < j && enclosed_by(#[trigger] unique@[q], rect),
            decreases unique.len() - j,
        {
            let other = unique[j];
            if rect != other && contains(&other, &rect) {
                redundant = true;
                assert(enclosed_by(unique@[j as int], rect));
            }
            j = j + 1;
        }
        let ghost prev = kept@;
        if !redundant {
            kept.push(rect);
            proof {
                origin = origin.push(i as int);
                assert(kept@[prev.len() as int] == rect);
            }
        }
        proof {
            assert forall|b: int|
                0 <= b < i + 1 && (forall|q: int|
                    0 <= q < unique@.len() ==> !enclosed_by(
                        #[trigger] unique@[q],
                        unique@[b],
                    )) implies kept@.contains(#[trigger] unique@[b]) by {
                if b < i {
                    assert(prev.contains(unique@[b]));
                    let a = choose|a: int| 0 <= a < prev.len() && prev[a] == unique@[b];
                    assert(kept@[a] == unique@[b]);
                } else {
                    assert(!redundant);
                    assert(kept@[prev.len() as int] == unique@[b]);
                }
            }
        }
        i = i + 1;
    }
    proof {
        assert forall|a: int, b: int| 0 <= a < b < kept@.len() implies (#[trigger] kept@[a]).ranks_le(
            #[trigger] kept@[b],
        ) && !kept@[b].ranks_le(kept@[a]) by {
            assert(origin[a] < origin[b]);
            assert(unique@[origin[a]].ranks_le(unique@[origin[b]]));
        }
        assert forall|p: CachedAtlasRect| #[trigger]
            kept@.contains(p) <==> unique@.contains(p) && forall|q: int|
                0 <= q < unique@.len() ==> !enclosed_by(#[trigger] unique@[q], p) by {
            if kept@.contains(p) {
                let a = choose|a: int| 0 <= a < kept@.len() && kept@[a] == p;
                assert(unique@[origin[a]] == p);
            }
            if unique@.contains(p) && forall|q: int|
                0 <= q < unique@.len() ==> !enclosed_by(#[trigger] unique@[q], p) {
                let b = choose|b: int| 0 <= b < unique@.len() && unique@[b] == p;
                assert(kept@.contains(unique@[b]));
            }
        }
    }
    kept
}

} // verus!
