//! Page rectangles in texels.

use crate::atlas::error::AtlasError;
use crate::sort::Ranked;
use vstd::prelude::*;

verus! {

/// A rectangle of texels on an atlas page or in a source image.
#[derive(Clone, Copy, Debug, PartialEq, Eq, Structural)]
pub struct CachedAtlasRect {
    pub x: u32,
    pub y: u32,
    pub width: u32,
    pub height: u32,
}

impl CachedAtlasRect {
    /// First column to the right of the rectangle.
    pub open spec fn right_edge(self) -> int {
        self.x + self.width
    }

    /// First row below the rectangle.
    pub open spec fn bottom_edge(self) -> int {
        self.y + self.height
    }

    /// Both far edges are representable.
    pub open spec fn fits(self) -> bool {
        self.right_edge() <= u32::MAX && self.bottom_edge() <= u32::MAX
    }

    pub open spec fn positive(self) -> bool {
        self.width > 0 && self.height > 0
    }

    /// The texel in column `px` and row `py` belongs to the rectangle.
    pub open spec fn covers(self, px: int, py: int) -> bool {
        self.x <= px < self.right_edge() && self.y <= py < self.bottom_edge()
    }

    /// `inner` lies within the edges of `self`.
    pub open spec fn encloses(self, inner: Self) -> bool {
        &&& inner.x >= self.x
        &&& inner.y >= self.y
        &&& inner.right_edge() <= self.right_edge()
        &&& inner.bottom_edge() <= self.bottom_edge()
    }

    /// One of the rectangles ends before the other begins, along some axis.
    pub open spec fn apart(self, other: Self) -> bool {
        ||| self.x >= other.right_edge()
        ||| other.x >= self.right_edge()
        ||| self.y >= other.bottom_edge()
        ||| other.y >= self.bottom_edge()
    }

    pub open spec fn spec_area(self) -> int {
        self.width * self.height
    }
}

/// Rectangles sort by column, row, width, and height.
impl Ranked for CachedAtlasRect {
    open spec fn ranks_le(self, other: Self) -> bool {
        if self.x != other.x {
            self.x < other.x
        } else if self.y != other.y {
            self.y < other.y
        } else if self.width != other.width {
            self.width < other.width
        } else {
            self.height <= other.height
        }
    }

    proof fn rank_total(a: Self, b: Self) {
    }

    proof fn rank_transitive(a: Self, b: Self, c: Self) {
    }

    fn rank_le(&self, other: &Self) -> (r: bool) {
        if self.x != other.x {
            self.x < other.x
        } else if self.y != other.y {
            self.y < other.y
        } else if self.width != other.width {
            self.width < other.width
        } else {
            self.height <= other.height
        }
    }
}

/// Rectangles that are apart share no texel, and the other way round for non-empty ones.
pub proof fn lemma_apart_shares_no_texel(a: CachedAtlasRect, b: CachedAtlasRect)
    requires
        a.positive(),
        b.positive(),
    ensures
        a.apart(b) <==> forall|px: int, py: int| !(#[trigger] a.covers(px, py) && b.covers(px, py)),
{
    if !a.apart(b) {
        let px = if a.x > b.x { a.x as int } else { b.x as int };
        let py = if a.y > b.y { a.y as int } else { b.y as int };
        assert(a.covers(px, py) && b.covers(px, py));
    }
}

/// Texel count of a rectangle.
pub fn area(rect: CachedAtlasRect) -> (r: u64)
    ensures
        r == rect.spec_area(),
{
    proof {
        lemma_u32_product(rect.width, rect.height);
    }
    rect.width as u64 * rect.height as u64
}

pub proof fn lemma_u32_product(a: u32, b: u32)
    ensures
        0 <= a * b <= 0xffff_fffe_0000_0001,
{
    assert(0 <= a * b <= 0xffff_fffe_0000_0001) by (nonlinear_arith);
}

/// Column just right of the rectangle.
pub fn right(rect: CachedAtlasRect) -> (r: Result<u32, AtlasError>)
    ensures
        r == (if rect.right_edge() <= u32::MAX {
            Ok::<u32, AtlasError>(rect.right_edge() as u32)
        } else {
            Err(AtlasError::RectRightOverflow)
        }),
{
    match rect.x.checked_add(rect.width) {
        Some(edge) => Ok(edge),
        None => Err(AtlasError::RectRightOverflow),
    }
}

/// Row just below the rectangle.
pub fn bottom(rect: CachedAtlasRect) -> (r: Result<u32, AtlasError>)
    ensures
        r == (if rect.bottom_edge() <= u32::MAX {
            Ok::<u32, AtlasError>(rect.bottom_edge() as u32)
        } else {
            Err(AtlasError::RectBottomOverflow)
        }),
{
    match rect.y.checked_add(rect.height) {
        Some(edge) => Ok(edge),
        None => Err(AtlasError::RectBottomOverflow),
    }
}

/// Whether `inner` lies within `outer`. A rectangle with an unrepresentable edge is within nothing.
pub fn contains(outer: &CachedAtlasRect, inner: &CachedAtlasRect) -> (r: bool)
    ensures
        r == (outer.fits() && inner.fits() && outer.encloses(*inner)),
{
    let (Ok(outer_right), Ok(outer_bottom)) = (right(*outer), bottom(*outer)) else {
        return false;
    };
    let (Ok(inner_right), Ok(inner_bottom)) = (right(*inner), bottom(*inner)) else {
        return false;
    };
    inner.x >= outer.x && inner.y >= outer.y && inner_right <= outer_right && inner_bottom
        <= outer_bottom
}

/// Whether two rectangles overlap. One with an unrepresentable edge counts as overlapping.
pub fn intersects(left: &CachedAtlasRect, right_rect: &CachedAtlasRect) -> (r: bool)
    ensures
        r == !(left.fits() && right_rect.fits() && left.apart(*right_rect)),
{
    let (Ok(left_right), Ok(left_bottom)) = (right(*left), bottom(*left)) else {
        return true;
    };
    let (Ok(right_edge), Ok(right_bottom)) = (right(*right_rect), bottom(*right_rect)) else {
        return true;
    };
    !(left.x >= right_edge || right_rect.x >= left_right || left.y >= right_bottom || right_rect.y
        >= left_bottom)
}

/// The page interior that is left when `border` texels are kept free on every side.
pub open spec fn interior(width: u32, height: u32, border: u32) -> Result<
    CachedAtlasRect,
    AtlasError,
> {
    if 2 * border > u32::MAX {
        Err(AtlasError::BorderOverflow)
    } else if width < 2 * border {
        Err(AtlasError::PageNarrowerThanBorders)
    } else if height < 2 * border {
        Err(AtlasError::PageShorterThanBorders)
    } else if width == 2 * border || height == 2 * border {
        Err(AtlasError::PageWithoutInterior)
    } else {
        Ok(
            CachedAtlasRect {
                x: border,
                y: border,
                width: (width - 2 * border) as u32,
                height: (height - 2 * border) as u32,
            },
        )
    }
}

/// Computes the usable interior of a page.
pub fn usable_rect(width: u32, height: u32, border: u32) -> (r: Result<CachedAtlasRect, AtlasError>)
    ensures
        r == interior(width, height, border),
{
    let twice: u32 = match border.checked_mul(2) {
        Some(twice) => twice,
        None => {
            return Err(AtlasError::BorderOverflow);
        },
    };
    if width < twice {
        return Err(AtlasError::PageNarrowerThanBorders);
    }
    if height < twice {
        return Err(AtlasError::PageShorterThanBorders);
    }
    if width == twice || height == twice {
        return Err(AtlasError::PageWithoutInterior);
    }
    Ok(CachedAtlasRect { x: border, y: border, width: width - twice, height: height - twice })
}

} // verus!
