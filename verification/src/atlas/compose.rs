//! Composing pages from their textures.

use crate::atlas::pack::{rect_in_image, PixelImage};
use crate::atlas::packer::{
    frame_view, is_packed_page, page_view, reserved_apart, settings_for,
};
use crate::atlas::types::{Frame, Page, Rect, ATLAS_TEXTURE_EXTRUSION};
use crate::text_map::TextMap;
use tex_packer_core::compositing::{blit_rgba, BlitOptions, BlitRect};
use vstd::prelude::*;

verus! {

/// The four bytes of a texel.
pub open spec fn texel(image: PixelImage, x: int, y: int) -> Seq<u8> {
    image.pixels@.subrange((y * image.width + x) * 4, (y * image.width + x) * 4 + 4)
}

/// A texel that nothing covers.
pub open spec fn blank_texel() -> Seq<u8> {
    seq![0u8, 0u8, 0u8, 0u8]
}

/// The nearest number from zero up to, and without, `count`.
pub open spec fn clamped(value: int, count: int) -> int {
    if value < 0 {
        0
    } else if value >= count {
        count - 1
    } else {
        value
    }
}

/// A part of a texture, to be shown at a place.
#[derive(Clone, Copy, Debug, PartialEq, Eq, Structural)]
pub struct Blit {
    /// Leftmost column and topmost row of the place.
    pub x: u32,
    pub y: u32,
    pub part: Rect,
    /// The part is turned by a quarter, clockwise.
    pub rotated: bool,
    /// By how many texels the edges of the part are continued around it.
    pub extrude: u32,
}

/// Width of the part as shown.
pub open spec fn shown_width(blit: Blit) -> int {
    if blit.rotated {
        blit.part.h as int
    } else {
        blit.part.w as int
    }
}

/// Height of the part as shown.
pub open spec fn shown_height(blit: Blit) -> int {
    if blit.rotated {
        blit.part.w as int
    } else {
        blit.part.h as int
    }
}

/// The texel shows the part, or the continuation of its edges.
pub open spec fn reaches(blit: Blit, x: int, y: int) -> bool {
    &&& blit.x - blit.extrude <= x < blit.x + shown_width(blit) + blit.extrude
    &&& blit.y - blit.extrude <= y < blit.y + shown_height(blit) + blit.extrude
}

/// What the texel shows: the nearest texel of the part.
pub open spec fn shown(blit: Blit, source: PixelImage, x: int, y: int) -> Seq<u8> {
    let across = clamped(x - blit.x, shown_width(blit));
    let down = clamped(y - blit.y, shown_height(blit));
    if blit.rotated {
        texel(source, blit.part.x + down, blit.part.y + (blit.part.h - 1 - across))
    } else {
        texel(source, blit.part.x + across, blit.part.y + down)
    }
}

/// The part is not empty and lies in the texture, its place lies in the canvas, and the numbers past
/// the canvas that the continuation of the edges passes through are 32-bit ones.
pub open spec fn blit_fits(blit: Blit, source: PixelImage, width: u32, height: u32) -> bool {
    &&& source.wf()
    &&& blit.part.w > 0
    &&& blit.part.h > 0
    &&& rect_in_image(source, blit.part)
    &&& blit.x + shown_width(blit) <= width
    &&& blit.y + shown_height(blit) <= height
    &&& width + blit.extrude <= u32::MAX
    &&& height + blit.extrude <= u32::MAX
}

/// `tex_packer_core::compositing::blit_rgba` without outlines.
///
/// Where the part reaches, the canvas shows the part, and around it the nearest texel of the part;
/// elsewhere the canvas stays as it is. The pixels of both images are rows of four-byte texels.
#[verifier::external_body]
fn blit_part(source: &PixelImage, canvas: PixelImage, blit: Blit) -> (r: PixelImage)
    requires
        canvas.wf(),
        blit_fits(blit, *source, canvas.width, canvas.height),
    ensures
        r.wf(),
        r.width == canvas.width,
        r.height == canvas.height,
        forall|x: int, y: int|
            0 <= x < canvas.width && 0 <= y < canvas.height ==> #[trigger] texel(r, x, y) == if reaches(
                blit,
                x,
                y,
            ) {
                shown(blit, *source, x, y)
            } else {
                texel(canvas, x, y)
            },
{
    let image = image::RgbaImage::from_raw(source.width, source.height, source.pixels.clone()).unwrap();
    let mut page = image::RgbaImage::from_raw(canvas.width, canvas.height, canvas.pixels).unwrap();
    let part = BlitRect::new(blit.part.x, blit.part.y, blit.part.w, blit.part.h);
    let place = BlitRect::new(blit.x, blit.y, blit.part.w, blit.part.h);
    let options = BlitOptions { rotated: blit.rotated, extrude: blit.extrude, outlines: false };
    blit_rgba(&image, &mut page, place, part, options);
    PixelImage { width: canvas.width, height: canvas.height, pixels: page.into_raw() }
}

/// How a frame is shown on its page.
pub open spec fn blit_of(frame: Frame) -> Blit {
    Blit {
        x: frame.frame.x,
        y: frame.frame.y,
        part: frame.source,
        rotated: frame.rotated,
        extrude: ATLAS_TEXTURE_EXTRUSION,
    }
}

fn frame_blit(frame: &Frame) -> (r: Blit)
    ensures
        r == blit_of(*frame),
{
    Blit {
        x: frame.frame.x,
        y: frame.frame.y,
        part: frame.source,
        rotated: frame.rotated,
        extrude: ATLAS_TEXTURE_EXTRUSION,
    }
}

/// The texture of the frame is there, and the frame fits both it and the page.
pub open spec fn frame_ready(
    images: Map<Seq<char>, PixelImage>,
    width: u32,
    height: u32,
    frame: Frame,
) -> bool {
    &&& images.dom().contains(frame.key@)
    &&& blit_fits(blit_of(frame), images[frame.key@], width, height)
}

/// Every frame of the page is ready, and the page can be held in memory.
pub open spec fn page_ready(images: Map<Seq<char>, PixelImage>, page: Page) -> bool {
    &&& page.width * page.height * 4 <= usize::MAX
    &&& forall|f: int|
        0 <= f < page.frames@.len() ==> frame_ready(
            images,
            page.width,
            page.height,
            #[trigger] page.frames@[f],
        )
}

/// What a texel of a page shows after the first `end` frames: the last of them that reaches it.
pub open spec fn composed(
    images: Map<Seq<char>, PixelImage>,
    frames: Seq<Frame>,
    end: int,
    x: int,
    y: int,
) -> Seq<u8>
    decreases end,
{
    if end <= 0 {
        blank_texel()
    } else if reaches(blit_of(frames[end - 1]), x, y) {
        shown(blit_of(frames[end - 1]), images[frames[end - 1].key@], x, y)
    } else {
        composed(images, frames, end - 1, x, y)
    }
}

proof fn lemma_texel_inside(width: int, height: int, x: int, y: int)
    requires
        0 <= x < width,
        0 <= y < height,
    ensures
        0 <= (y * width + x) * 4,
        (y * width + x) * 4 + 4 <= width * height * 4,
{
    assert(y * width + x + 1 <= width * height) by (nonlinear_arith)
        requires
            0 <= x < width,
            0 <= y,
            y + 1 <= height,
    ;
    assert(0 <= y * width) by (nonlinear_arith)
        requires
            0 <= y,
            0 <= width,
    ;
}

proof fn lemma_area_bound(width: u32, height: u32)
    ensures
        0 <= width * height <= 0xffff_fffe_0000_0001,
{
    assert(0 <= width * height <= 0xffff_ffff * 0xffff_ffff) by (nonlinear_arith)
        requires
            0 <= width <= 0xffff_ffff,
            0 <= height <= 0xffff_ffff,
    ;
}

fn blank_page(width: u32, height: u32) -> (r: PixelImage)
    requires
        width * height * 4 <= usize::MAX,
    ensures
        r.wf(),
        r.width == width,
        r.height == height,
        forall|x: int, y: int|
            0 <= x < width && 0 <= y < height ==> #[trigger] texel(r, x, y) == blank_texel(),
{
    assert(width * height <= width * height * 4) by (nonlinear_arith)
        requires
            0 <= width,
            0 <= height,
    ;
    let count: usize = width as usize * height as usize * 4;
    let mut pixels: Vec<u8> = Vec::new();
    while pixels.len() < count
        invariant
            pixels@.len() <= count,
            forall|i: int| 0 <= i < pixels@.len() ==> pixels@[i] == 0,
        decreases count - pixels@.len(),
    {
        pixels.push(0);
    }
    let page = PixelImage { width, height, pixels };
    assert forall|x: int, y: int| 0 <= x < width && 0 <= y < height implies #[trigger] texel(
        page,
        x,
        y,
    ) == blank_texel() by {
        lemma_texel_inside(width as int, height as int, x, y);
        assert(texel(page, x, y) =~= blank_texel());
    }
    page
}

/// Whether every frame of the page is ready, and the page can be held in memory.
pub fn can_compose(images: &TextMap<PixelImage>, page: &Page) -> (r: bool)
    requires
        images.wf(),
    ensures
        r == page_ready(images@, *page),
{
    proof {
        lemma_area_bound(page.width, page.height);
    }
    let texels: u64 = page.width as u64 * page.height as u64;
    if texels > usize::MAX as u64 / 4 {
        return false;
    }
    let mut f: usize = 0;
    while f < page.frames.len()
        invariant
            f <= page.frames@.len(),
            images.wf(),
            page.width * page.height * 4 <= usize::MAX,
            forall|g: int|
                0 <= g < f ==> frame_ready(images@, page.width, page.height, #[trigger] page.frames@[g]),
        decreases page.frames@.len() - f,
    {
        let frame = &page.frames[f];
        if !frame_can_show(images, page.width, page.height, frame) {
            return false;
        }
        f = f + 1;
    }
    true
}

fn frame_can_show(images: &TextMap<PixelImage>, width: u32, height: u32, frame: &Frame) -> (r: bool)
    requires
        images.wf(),
    ensures
        r == frame_ready(images@, width, height, *frame),
{
    let source = match images.get(frame.key.as_str()) {
        Some(source) => source,
        None => {
            return false;
        },
    };
    proof {
        lemma_area_bound(source.width, source.height);
    }
    let part = frame.source;
    let across: u64 = if frame.rotated {
        part.h as u64
    } else {
        part.w as u64
    };
    let down: u64 = if frame.rotated {
        part.w as u64
    } else {
        part.h as u64
    };
    source.pixels.len() as u128 == source.width as u128 * source.height as u128 * 4 && part.w > 0
        && part.h > 0 && part.x as u64 + part.w as u64 <= source.width as u64 && part.y as u64
        + part.h as u64 <= source.height as u64 && frame.frame.x as u64 + across <= width as u64
        && frame.frame.y as u64 + down <= height as u64 && width <= u32::MAX
        - ATLAS_TEXTURE_EXTRUSION && height <= u32::MAX - ATLAS_TEXTURE_EXTRUSION
}

/// Composes a page: its frames one after the other, each with its edges continued around it, on an
/// empty canvas.
pub fn compose_planned_page(images: &TextMap<PixelImage>, page: &Page) -> (r: PixelImage)
    requires
        images.wf(),
        page_ready(images@, *page),
    ensures
        r.wf(),
        r.width == page.width,
        r.height == page.height,
        forall|x: int, y: int|
            0 <= x < page.width && 0 <= y < page.height ==> #[trigger] texel(r, x, y) == composed(
                images@,
                page.frames@,
                page.frames@.len() as int,
                x,
                y,
            ),
{
    let mut canvas = blank_page(page.width, page.height);
    let mut f: usize = 0;
    while f < page.frames.len()
        invariant
            f <= page.frames@.len(),
            images.wf(),
            page_ready(images@, *page),
            canvas.wf(),
            canvas.width == page.width,
            canvas.height == page.height,
            forall|x: int, y: int|
                0 <= x < page.width && 0 <= y < page.height ==> #[trigger] texel(canvas, x, y)
                    == composed(images@, page.frames@, f as int, x, y),
        decreases page.frames@.len() - f,
    {
        let frame = &page.frames[f];
        assert(frame_ready(images@, page.width, page.height, page.frames@[f as int]));
        if let Some(source) = images.get(frame.key.as_str()) {
            canvas = blit_part(source, canvas, frame_blit(frame));
        }
        f = f + 1;
    }
    canvas
}

/// The two frames, with their edges continued, share no texel.
pub open spec fn apart(a: Blit, b: Blit) -> bool {
    ||| a.x + shown_width(a) + a.extrude <= b.x - b.extrude
    ||| b.x + shown_width(b) + b.extrude <= a.x - a.extrude
    ||| a.y + shown_height(a) + a.extrude <= b.y - b.extrude
    ||| b.y + shown_height(b) + b.extrude <= a.y - a.extrude
}

/// The frames of a freshly packed page share no texel.
pub proof fn lemma_packed_frames_apart(page: Page, id: int, gpu_max: u32)
    requires
        is_packed_page(page_view(page), id, settings_for(gpu_max)),
        forall|f: int|
            0 <= f < page.frames@.len() ==> (#[trigger] page.frames@[f]).source.w
                == page.frames@[f].frame.w && page.frames@[f].source.h == page.frames@[f].frame.h,
    ensures
        forall|i: int, j: int|
            0 <= i < j < page.frames@.len() ==> apart(
                blit_of(#[trigger] page.frames@[i]),
                blit_of(#[trigger] page.frames@[j]),
            ),
{
    let view = page_view(page);
    assert forall|i: int, j: int| 0 <= i < j < page.frames@.len() implies apart(
        blit_of(#[trigger] page.frames@[i]),
        blit_of(#[trigger] page.frames@[j]),
    ) by {
        assert(view.frames[i] == frame_view(page.frames@[i]));
        assert(view.frames[j] == frame_view(page.frames@[j]));
        assert(reserved_apart(view.frames[i], view.frames[j], settings_for(gpu_max)));
    }
}

/// On a page whose frames share no texel, every texel that a frame reaches shows that frame.
pub proof fn lemma_frames_show(
    images: Map<Seq<char>, PixelImage>,
    frames: Seq<Frame>,
    f: int,
    x: int,
    y: int,
)
    requires
        0 <= f < frames.len(),
        forall|i: int, j: int|
            0 <= i < j < frames.len() ==> apart(
                blit_of(#[trigger] frames[i]),
                blit_of(#[trigger] frames[j]),
            ),
        reaches(blit_of(frames[f]), x, y),
    ensures
        composed(images, frames, frames.len() as int, x, y) == shown(
            blit_of(frames[f]),
            images[frames[f].key@],
            x,
            y,
        ),
{
    lemma_frame_shows(images, frames, f, frames.len() as int, x, y);
}

proof fn lemma_frame_shows(
    images: Map<Seq<char>, PixelImage>,
    frames: Seq<Frame>,
    f: int,
    end: int,
    x: int,
    y: int,
)
    requires
        0 <= f < end <= frames.len(),
        forall|i: int, j: int|
            0 <= i < j < frames.len() ==> apart(
                blit_of(#[trigger] frames[i]),
                blit_of(#[trigger] frames[j]),
            ),
        reaches(blit_of(frames[f]), x, y),
    ensures
        composed(images, frames, end, x, y) == shown(
            blit_of(frames[f]),
            images[frames[f].key@],
            x,
            y,
        ),
    decreases end,
{
    if f < end - 1 {
        assert(apart(blit_of(frames[f]), blit_of(frames[end - 1])));
        lemma_frame_shows(images, frames, f, end - 1, x, y);
    }
}

} // verus!
