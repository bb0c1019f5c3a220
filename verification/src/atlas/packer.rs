//! Page packing.

use crate::atlas::error::AtlasError;
use crate::atlas::types::{
    Frame, LayoutItem, Page, Rect, ATLAS_BORDER_PADDING, ATLAS_TEXTURE_EXTRUSION,
    ATLAS_TEXTURE_PADDING, ATLAS_TRIM,
};
use tex_packer_core::{
    AlgorithmFamily, LayoutItem as PackerItem, MaxRectsHeuristic, PackerConfig, Rect as PackerRect,
};
use vstd::prelude::*;

verus! {

/// How the packer looks for the place of an item.
#[derive(Clone, Copy, Debug, PartialEq, Eq, Structural)]
pub enum PackerMethod {
    /// Among the maximal free rectangles, the one with the least area to spare.
    BestAreaFit,
}

/// Settings of one packing run.
#[derive(Clone, Copy, Debug, PartialEq, Eq, Structural)]
pub struct PackerSettings {
    /// Cap on each page dimension.
    pub max_size: u32,
    pub allow_rotation: bool,
    pub force_max_dimensions: bool,
    pub power_of_two: bool,
    pub square: bool,
    pub trim: bool,
    pub border_padding: u32,
    pub texture_padding: u32,
    pub texture_extrusion: u32,
    pub method: PackerMethod,
}

/// Settings of every atlas packing run for a page cap.
pub open spec fn settings_for(gpu_max: u32) -> PackerSettings {
    PackerSettings {
        max_size: gpu_max,
        allow_rotation: false,
        force_max_dimensions: false,
        power_of_two: true,
        square: false,
        trim: ATLAS_TRIM,
        border_padding: ATLAS_BORDER_PADDING,
        texture_padding: ATLAS_TEXTURE_PADDING,
        texture_extrusion: ATLAS_TEXTURE_EXTRUSION,
        method: PackerMethod::BestAreaFit,
    }
}

/// Returns the settings used for all atlas packing runs.
///
/// Rotation is disabled so that texture coordinates stay axis-aligned, and page dimensions are
/// powers of two for mipmap compatibility. `gpu_max` caps each page's longest dimension.
pub fn make_packer_config(gpu_max: u32) -> (r: PackerSettings)
    ensures
        r == settings_for(gpu_max),
{
    PackerSettings {
        max_size: gpu_max,
        allow_rotation: false,
        force_max_dimensions: false,
        power_of_two: true,
        square: false,
        trim: ATLAS_TRIM,
        border_padding: ATLAS_BORDER_PADDING,
        texture_padding: ATLAS_TEXTURE_PADDING,
        texture_extrusion: ATLAS_TEXTURE_EXTRUSION,
        method: PackerMethod::BestAreaFit,
    }
}

/// A layout item as plain values.
pub struct ItemView {
    pub key: Seq<char>,
    pub w: u32,
    pub h: u32,
    pub source: Option<Rect>,
    pub source_size: Option<(u32, u32)>,
    pub trimmed: bool,
}

/// A placed frame as plain values.
pub struct FrameView {
    pub key: Seq<char>,
    pub frame: Rect,
    pub rotated: bool,
    pub trimmed: bool,
    pub source: Rect,
    pub source_size: (u32, u32),
}

/// A page as plain values.
pub struct PageView {
    pub id: int,
    pub width: u32,
    pub height: u32,
    pub frames: Seq<FrameView>,
}

pub open spec fn item_view(item: LayoutItem) -> ItemView {
    ItemView {
        key: item.key@,
        w: item.w,
        h: item.h,
        source: item.source,
        source_size: item.source_size,
        trimmed: item.trimmed,
    }
}

pub open spec fn frame_view(frame: Frame) -> FrameView {
    FrameView {
        key: frame.key@,
        frame: frame.frame,
        rotated: frame.rotated,
        trimmed: frame.trimmed,
        source: frame.source,
        source_size: frame.source_size,
    }
}

pub open spec fn page_view(page: Page) -> PageView {
    PageView {
        id: page.id as int,
        width: page.width,
        height: page.height,
        frames: page.frames@.map_values(|frame: Frame| frame_view(frame)),
    }
}

pub open spec fn item_views(items: Seq<LayoutItem>) -> Seq<ItemView> {
    items.map_values(|item: LayoutItem| item_view(item))
}

pub open spec fn page_views(pages: Seq<Page>) -> Seq<PageView> {
    pages.map_values(|page: Page| page_view(page))
}

/// What a placed frame must repeat of its item: key, content size, and trimming record.
pub open spec fn placed_record(frame: FrameView) -> ItemView {
    ItemView {
        key: frame.key,
        w: frame.frame.w,
        h: frame.frame.h,
        source: Some(frame.source),
        source_size: Some(frame.source_size),
        trimmed: frame.trimmed,
    }
}

/// The item with its source record filled in: the whole content where it has none.
pub open spec fn filled_item(item: ItemView) -> ItemView {
    ItemView {
        source: Some(
            match item.source {
                Some(source) => source,
                None => Rect { x: 0, y: 0, w: item.w, h: item.h },
            },
        ),
        source_size: Some(
            match item.source_size {
                Some(size) => size,
                None => (item.w, item.h),
            },
        ),
        ..item
    }
}

/// All frames, page after page.
pub open spec fn frames_of(pages: Seq<PageView>) -> Seq<FrameView>
    decreases pages.len(),
{
    if pages.len() == 0 {
        Seq::empty()
    } else {
        frames_of(pages.drop_last()) + pages.last().frames
    }
}

/// What a reservation adds to each dimension of its content.
pub open spec fn settings_extra(settings: PackerSettings) -> int {
    settings.texture_padding + 2 * settings.texture_extrusion
}

/// Distance from the corner of a reservation to its content.
pub open spec fn settings_offset(settings: PackerSettings) -> int {
    settings.texture_extrusion + settings.texture_padding / 2
}

/// The page cap leaves an interior, and every item with its reservation fits into it.
pub open spec fn layout_feasible(items: Seq<ItemView>, settings: PackerSettings) -> bool {
    &&& items.len() > 0
    &&& 2 * settings.border_padding < settings.max_size
    &&& forall|i: int|
        0 <= i < items.len() ==> {
            &&& 0 < (#[trigger] items[i]).w + settings_extra(settings) <= settings.max_size - 2
                * settings.border_padding
            &&& 0 < items[i].h + settings_extra(settings) <= settings.max_size - 2
                * settings.border_padding
        }
}

/// The reservation around the frame lies in the interior of the page.
pub open spec fn reserved_in_page(
    page: PageView,
    frame: FrameView,
    settings: PackerSettings,
) -> bool {
    let trailing = settings_extra(settings) - settings_offset(settings);
    &&& frame.frame.x >= settings.border_padding + settings_offset(settings)
    &&& frame.frame.y >= settings.border_padding + settings_offset(settings)
    &&& frame.frame.x + frame.frame.w + trailing + settings.border_padding <= page.width
    &&& frame.frame.y + frame.frame.h + trailing + settings.border_padding <= page.height
}

/// The reservations around two frames share no texel.
pub open spec fn reserved_apart(a: FrameView, b: FrameView, settings: PackerSettings) -> bool {
    let extra = settings_extra(settings);
    ||| a.frame.x + a.frame.w + extra <= b.frame.x
    ||| b.frame.x + b.frame.w + extra <= a.frame.x
    ||| a.frame.y + a.frame.h + extra <= b.frame.y
    ||| b.frame.y + b.frame.h + extra <= a.frame.y
}

/// One page of a layout: numbered in order, not empty, with sides that are powers of two below
/// twice the cap, and with unrotated frames whose reservations lie apart in its interior.
pub open spec fn is_packed_page(page: PageView, id: int, settings: PackerSettings) -> bool {
    &&& page.id == id
    &&& page.frames.len() > 0
    &&& is_power_of_two(page.width) && page.width < 2 * settings.max_size
    &&& is_power_of_two(page.height) && page.height < 2 * settings.max_size
    &&& forall|f: int|
        0 <= f < page.frames.len() ==> !(#[trigger] page.frames[f]).rotated && reserved_in_page(
            page,
            page.frames[f],
            settings,
        )
    &&& forall|f: int, g: int|
        0 <= f < g < page.frames.len() ==> reserved_apart(
            #[trigger] page.frames[f],
            #[trigger] page.frames[g],
            settings,
        )
}

/// The value is a power of two.
pub open spec fn is_power_of_two(value: u32) -> bool {
    exists|k: nat| value == #[trigger] vstd::arithmetic::power2::pow2(k)
}

/// The pages place every item exactly once.
pub open spec fn is_packed(
    items: Seq<ItemView>,
    settings: PackerSettings,
    pages: Seq<PageView>,
) -> bool {
    &&& forall|p: int|
        0 <= p < pages.len() ==> is_packed_page(#[trigger] pages[p], p, settings)
    &&& frames_of(pages).map_values(|frame: FrameView| placed_record(frame)).to_multiset()
        == items.map_values(|item: ItemView| filled_item(item)).to_multiset()
}

/// Pages and frames that an atlas of the packer holds.
pub uninterp spec fn atlas_contents(atlas: tex_packer_core::Atlas<String>) -> Seq<PageView>;

/// What the packer makes of a list of items: the pages, or `None` where it fails.
pub uninterp spec fn packed_layout(items: Seq<ItemView>, settings: PackerSettings) -> Option<
    Seq<PageView>,
>;

/// The packer's result.
#[verifier::external_type_specification]
#[verifier::external_body]
#[verifier::reject_recursive_types(K)]
pub struct ExAtlas<K>(tex_packer_core::Atlas<K>);

/// The packer's error.
#[verifier::external_type_specification]
#[verifier::external_body]
pub struct ExTexPackerError(tex_packer_core::TexPackerError);

/// Calls `tex_packer_core::pack_layout_items`. The method of the settings stands for the MaxRects
/// family with the best-area-fit heuristic.
///
/// The result depends on the items and settings alone. The call succeeds exactly where the page
/// cap leaves an interior and each item fits into an empty page: an item that does not fit the
/// page in hand opens a new one. Without rotation, and with page sides rounded up to powers of two,
/// the pages are numbered from zero, none is empty, and each item is placed once with its
/// reservation inside the interior and apart from the others. The packer multiplies the two
/// dimensions of an item, and rounds a page side up to a power of two, in 32 bits.
#[verifier::external_body]
fn pack_items(items: &[LayoutItem], settings: &PackerSettings) -> (r: Result<
    tex_packer_core::Atlas<String>,
    tex_packer_core::TexPackerError,
>)
    requires
        settings.max_size <= 0x8000_0000,
        forall|i: int| 0 <= i < items@.len() ==> (#[trigger] items@[i]).w * items@[i].h <= u32::MAX,
    ensures
        r is Ok <==> packed_layout(item_views(items@), *settings) is Some,
        r matches Ok(atlas) ==> packed_layout(item_views(items@), *settings) == Some(
            atlas_contents(atlas),
        ),
        !settings.allow_rotation ==> (r is Ok <==> layout_feasible(item_views(items@), *settings)),
        r matches Ok(atlas) ==> (!settings.allow_rotation && !settings.force_max_dimensions
            && settings.power_of_two && !settings.square) ==> is_packed(
            item_views(items@),
            *settings,
            atlas_contents(atlas),
        ),
{
    let convert = |r: &Rect| PackerRect::new(r.x, r.y, r.w, r.h);
    let list = items.iter().map(|i| PackerItem {
        key: i.key.clone(), w: i.w, h: i.h, source: i.source.as_ref().map(convert),
        source_size: i.source_size, trimmed: i.trimmed,
    }).collect();
    let PackerSettings { max_size, allow_rotation, force_max_dimensions, power_of_two, square, trim,
        border_padding, texture_padding, texture_extrusion, method } = *settings;
    let (family, mr_heuristic) = match method {
        PackerMethod::BestAreaFit => (AlgorithmFamily::MaxRects, MaxRectsHeuristic::BestAreaFit),
    };
    tex_packer_core::pack_layout_items(list, PackerConfig {
        max_width: max_size, max_height: max_size, allow_rotation, force_max_dimensions, power_of_two, square, trim,
        border_padding, texture_padding, texture_extrusion, family, mr_heuristic, ..Default::default()
    })
}

/// Reads the public fields of `tex_packer_core::Atlas` out into pages of the library.
#[verifier::external_body]
fn atlas_pages(atlas: tex_packer_core::Atlas<String>) -> (pages: Vec<Page>)
    ensures
        page_views(pages@) == atlas_contents(atlas),
{
    let convert = |r: tex_packer_core::Rect| Rect { x: r.x, y: r.y, w: r.w, h: r.h };
    let frame = |f: tex_packer_core::Frame| Frame {
        key: f.key, frame: convert(f.frame), rotated: f.rotated, trimmed: f.trimmed,
        source: convert(f.source), source_size: f.source_size,
    };
    atlas.pages.into_iter().map(|p| Page {
        id: p.id, width: p.width, height: p.height, frames: p.frames.into_iter().map(frame).collect(),
    }).collect()
}

/// Packs the items into pages capped at `gpu_max`.
pub fn pack_layout_only(layout_items: &[LayoutItem], gpu_max: u32) -> (r: Result<
    Vec<Page>,
    AtlasError,
>)
    requires
        gpu_max <= 0x8000_0000,
        forall|i: int|
            0 <= i < layout_items@.len() ==> (#[trigger] layout_items@[i]).w * layout_items@[i].h
                <= u32::MAX,
    ensures
        r is Ok <==> layout_feasible(item_views(layout_items@), settings_for(gpu_max)),
        match r {
            Ok(pages) => {
                &&& packed_layout(item_views(layout_items@), settings_for(gpu_max)) == Some(
                    page_views(pages@),
                )
                &&& is_packed(
                    item_views(layout_items@),
                    settings_for(gpu_max),
                    page_views(pages@),
                )
            },
            Err(e) => {
                &&& packed_layout(item_views(layout_items@), settings_for(gpu_max)) is None
                &&& e == AtlasError::PackingFailed
            },
        },
{
    match pack_items(layout_items, &make_packer_config(gpu_max)) {
        Ok(atlas) => Ok(atlas_pages(atlas)),
        Err(_) => Err(AtlasError::PackingFailed),
    }
}

} // verus!
