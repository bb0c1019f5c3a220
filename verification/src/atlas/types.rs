//! Atlas records: layout items, packed pages, cached family evidence, and shared configuration.

use crate::atlas::rect::CachedAtlasRect;
use crate::atlas::sizing::{AtlasDomain, SizingPlan};
use crate::ordered_map::OrderedTextMap;
use crate::sort::Ranked;
use crate::text::{lemma_text_order, lemma_text_transitive, str_le, text_le};
use vstd::prelude::*;

verus! {

/// Filename prefix for opaque (DXT1) atlas pages.
pub const OPAQUE_ATLAS_PREFIX: &'static str = "_mge_xe_atlas";

/// Filename prefix for alpha-tested (DXT5) atlas pages.
pub const ALPHA_ATLAS_PREFIX: &'static str = "_mge_xe_atlas_alpha";

/// Padding in texels added around the entire atlas border to avoid edge-bleeding artifacts.
pub const ATLAS_BORDER_PADDING: u32 = 8;

/// Per-frame padding in texels between packed textures (additional separation beyond extrusion).
pub const ATLAS_TEXTURE_PADDING: u32 = 0;

/// Pixels extruded at each texture edge to prevent bilinear bleed across frame boundaries.
pub const ATLAS_TEXTURE_EXTRUSION: u32 = 16;

/// Whether transparent borders are trimmed before packing.
pub const ATLAS_TRIM: bool = true;

/// Version of the atlas evidence recipe embedded in the generator state.
pub const ATLAS_CACHE_VERSION: u32 = 5;

/// `a - b`, or zero where `b` is larger.
pub open spec fn minus(a: int, b: int) -> int {
    if a < b {
        0
    } else {
        a - b
    }
}

/// Largest texture, in texels on the longest side, that can be placed on a page whose cap is
/// `atlas_max_size`.
///
/// The packer shrinks the usable canvas by the border padding on each side and inflates every
/// texture by the texture padding plus the extrusion on each side, so a texture sized at the raw
/// cap can never be placed on any page.
pub fn usable_texture_dim(atlas_max_size: u32) -> (r: u32)
    ensures
        r == minus(
            atlas_max_size as int,
            2 * ATLAS_BORDER_PADDING + ATLAS_TEXTURE_PADDING + 2 * ATLAS_TEXTURE_EXTRUSION,
        ),
{
    atlas_max_size.saturating_sub(2 * ATLAS_BORDER_PADDING).saturating_sub(
        ATLAS_TEXTURE_PADDING,
    ).saturating_sub(2 * ATLAS_TEXTURE_EXTRUSION)
}

/// One value for the opaque family and one for the alpha family.
#[derive(Debug)]
pub struct AtlasTextureSet<T> {
    pub opaque: T,
    pub alpha: T,
}

impl<T> AtlasTextureSet<T> {
    pub fn new(opaque: T, alpha: T) -> (r: Self)
        ensures
            r.opaque == opaque,
            r.alpha == alpha,
    {
        AtlasTextureSet { opaque, alpha }
    }
}

/// How byte-identical or pixel-identical textures share one atlas slot.
#[derive(Clone, Copy, Debug, PartialEq, Eq, Structural)]
pub enum TextureDedupeMode {
    /// Every texture keeps a slot of its own.
    Off,
    /// Identical textures share one slot.
    Exact,
}

/// A rectangle as the packer reports it.
#[derive(Clone, Copy, Debug, PartialEq, Eq, Structural)]
pub struct Rect {
    pub x: u32,
    pub y: u32,
    pub w: u32,
    pub h: u32,
}

impl Rect {
    pub fn new(x: u32, y: u32, w: u32, h: u32) -> (r: Self)
        ensures
            r == (Rect { x, y, w, h }),
    {
        Rect { x, y, w, h }
    }
}

/// One prepared texture to be placed on a page.
#[derive(Debug)]
pub struct LayoutItem {
    pub key: String,
    pub w: u32,
    pub h: u32,
    pub source: Option<Rect>,
    pub source_size: Option<(u32, u32)>,
    pub trimmed: bool,
}

impl Clone for LayoutItem {
    fn clone(&self) -> (r: Self)
        ensures
            r == *self,
    {
        LayoutItem {
            key: self.key.clone(),
            w: self.w,
            h: self.h,
            source: self.source,
            source_size: self.source_size,
            trimmed: self.trimmed,
        }
    }
}

/// A placed texture.
#[derive(Debug)]
pub struct Frame {
    pub key: String,
    /// Where the texture stands on the page.
    pub frame: Rect,
    pub rotated: bool,
    pub trimmed: bool,
    /// The part of the prepared image that is placed.
    pub source: Rect,
    pub source_size: (u32, u32),
}

impl Clone for Frame {
    fn clone(&self) -> (r: Self)
        ensures
            r == *self,
    {
        Frame {
            key: self.key.clone(),
            frame: self.frame,
            rotated: self.rotated,
            trimmed: self.trimmed,
            source: self.source,
            source_size: self.source_size,
        }
    }
}

/// A page of placed textures.
#[derive(Debug)]
pub struct Page {
    pub id: usize,
    pub width: u32,
    pub height: u32,
    pub frames: Vec<Frame>,
}

/// Size and content hash of a source texture.
#[derive(Clone, Copy, Debug, PartialEq, Eq)]
pub struct TextureFingerprint {
    /// File size in bytes.
    pub size: u64,
    /// BLAKE3 content hash.
    pub hash: [u8; 32],
}

/// Settings that both families share; a change invalidates all cached evidence.
#[derive(Clone, Copy, Debug, PartialEq, Eq, Structural)]
pub struct AtlasSharedConfig {
    pub gpu_max: u32,
    pub border_padding: u32,
    pub texture_padding: u32,
    pub texture_extrusion: u32,
    pub trim: bool,
    /// Unconditional cap on any source texture's longer axis before atlas packing.
    pub max_texture_long_dim: u32,
    /// Unconditional cap on any source texture's shorter axis.
    pub max_texture_short_dim: u32,
    /// Texture deduplication mode. Changing it repacks atlases and reassigns frames.
    pub dedupe_mode: TextureDedupeMode,
    /// Exact-dedupe algorithm version. A bump invalidates caches built by an older algorithm.
    pub recipe_version: u32,
}

/// The shared configuration that a plan and the packer constants amount to.
pub open spec fn shared_config_of(
    plan: SizingPlan,
    dedupe_mode: TextureDedupeMode,
    gpu_max: u32,
    recipe_version: u32,
) -> AtlasSharedConfig {
    AtlasSharedConfig {
        gpu_max,
        border_padding: ATLAS_BORDER_PADDING,
        texture_padding: ATLAS_TEXTURE_PADDING,
        texture_extrusion: ATLAS_TEXTURE_EXTRUSION,
        trim: ATLAS_TRIM,
        max_texture_long_dim: plan.caps.long,
        max_texture_short_dim: plan.caps.short,
        dedupe_mode,
        recipe_version,
    }
}

impl AtlasSharedConfig {
    /// Returns the shared configuration for the current atlas settings.
    pub fn current(
        plan: &SizingPlan,
        dedupe_mode: TextureDedupeMode,
        gpu_max: u32,
        recipe_version: u32,
    ) -> (r: Self)
        ensures
            r == shared_config_of(*plan, dedupe_mode, gpu_max, recipe_version),
    {
        AtlasSharedConfig {
            gpu_max,
            border_padding: ATLAS_BORDER_PADDING,
            texture_padding: ATLAS_TEXTURE_PADDING,
            texture_extrusion: ATLAS_TEXTURE_EXTRUSION,
            trim: ATLAS_TRIM,
            max_texture_long_dim: plan.caps.long,
            max_texture_short_dim: plan.caps.short,
            dedupe_mode,
            recipe_version,
        }
    }
}

/// Settings of one family.
#[derive(Debug)]
pub struct AtlasFamilyConfig {
    /// Sorted per-texture sizing deviations below the shared global cap.
    pub sizing_overrides: Vec<(String, u32)>,
}

impl Clone for AtlasFamilyConfig {
    fn clone(&self) -> (r: Self)
        ensures
            r.sizing_overrides@ == self.sizing_overrides@,
    {
        let mut sizing_overrides: Vec<(String, u32)> = Vec::new();
        let mut i: usize = 0;
        while i < self.sizing_overrides.len()
            invariant
                i <= self.sizing_overrides.len(),
                sizing_overrides@ == self.sizing_overrides@.take(i as int),
            decreases self.sizing_overrides.len() - i,
        {
            let entry = &self.sizing_overrides[i];
            sizing_overrides.push((entry.0.clone(), entry.1));
            proof {
                assert(self.sizing_overrides@.take(i + 1) =~= self.sizing_overrides@.take(
                    i as int,
                ).push(self.sizing_overrides@[i as int]));
            }
            i = i + 1;
        }
        assert(self.sizing_overrides@.take(i as int) =~= self.sizing_overrides@);
        AtlasFamilyConfig { sizing_overrides }
    }
}

impl AtlasFamilyConfig {
    /// A configuration without sizing deviations.
    pub fn empty() -> (r: Self)
        ensures
            r.sizing_overrides@.len() == 0,
    {
        AtlasFamilyConfig { sizing_overrides: Vec::new() }
    }

    /// Returns the family-local sizing configuration for `domain`.
    ///
    /// The overlay is listed in key order; cache validation requires its keys to remain strictly
    /// ascending.
    pub fn current(plan: &SizingPlan, domain: AtlasDomain) -> (r: Self)
        ensures
            r.sizing_overrides@ == plan.overrides_of(domain).listed(),
    {
        let overrides: &OrderedTextMap<u32> = match domain {
            AtlasDomain::Opaque => &plan.opaque_overrides,
            AtlasDomain::Alpha => &plan.alpha_overrides,
        };
        let mut sizing_overrides: Vec<(String, u32)> = Vec::new();
        let mut i: usize = 0;
        while i < overrides.len()
            invariant
                i <= overrides.listed().len(),
                sizing_overrides@ == overrides.listed().take(i as int),
            decreases overrides.listed().len() - i,
        {
            sizing_overrides.push((overrides.key_at(i).clone(), *overrides.value_at(i)));
            proof {
                assert(overrides.listed().take(i + 1) =~= overrides.listed().take(i as int).push(
                    overrides.listed()[i as int],
                ));
            }
            i = i + 1;
        }
        assert(overrides.listed().take(i as int) =~= overrides.listed());
        AtlasFamilyConfig { sizing_overrides }
    }
}

/// The atlas region of one source texture. The bounds are IEEE single-precision bit patterns.
#[derive(Debug)]
pub struct CachedUvBound {
    /// Normalized source texture key.
    pub path: String,
    /// Atlas page index.
    pub page: u32,
    /// Minimum U coordinate.
    pub min_x: u32,
    /// Maximum U coordinate.
    pub max_x: u32,
    /// Minimum V coordinate.
    pub min_y: u32,
    /// Maximum V coordinate.
    pub max_y: u32,
}

impl Clone for CachedUvBound {
    fn clone(&self) -> (r: Self)
        ensures
            r == *self,
    {
        CachedUvBound {
            path: self.path.clone(),
            page: self.page,
            min_x: self.min_x,
            max_x: self.max_x,
            min_y: self.min_y,
            max_y: self.max_y,
        }
    }
}

/// Region bounds of one frame, as IEEE single-precision bit patterns.
#[derive(Clone, Copy, Debug, Default, PartialEq, Eq, Structural)]
pub struct UvBound {
    pub min_y: u32,
    pub max_x: u32,
    pub min_x: u32,
    pub max_y: u32,
}

impl UvBound {
    /// The bit patterns, by which bounds are told apart.
    pub fn bits(self) -> (r: [u32; 4])
        ensures
            r@ == seq![self.min_y, self.max_x, self.min_x, self.max_y],
    {
        [self.min_y, self.max_x, self.min_x, self.max_y]
    }
}

/// Fingerprint of one source texture.
#[derive(Debug)]
pub struct CachedTextureFingerprint {
    pub path: String,
    pub fingerprint: TextureFingerprint,
}

impl Clone for CachedTextureFingerprint {
    fn clone(&self) -> (r: Self)
        ensures
            r == *self,
    {
        CachedTextureFingerprint { path: self.path.clone(), fingerprint: self.fingerprint }
    }
}

/// Dimensions of one page.
#[derive(Clone, Copy, Debug, PartialEq, Eq, Structural)]
pub struct CachedAtlasPage {
    pub width: u32,
    pub height: u32,
}

/// A reserved page region with what is composited into it.
#[derive(Debug)]
pub struct CachedAtlasSlot {
    /// Monotonic family-local identity. Freed ids are never reused.
    pub slot_id: u64,
    /// Stable page index.
    pub page_id: u32,
    /// Complete rectangle withheld from the allocator, including extrusion and padding.
    pub reserved_rect: CachedAtlasRect,
    /// Visible composited destination within `reserved_rect`.
    pub destination: CachedAtlasRect,
    /// Visible source rectangle within the prepared provider image.
    pub source: CachedAtlasRect,
    pub source_size: [u32; 2],
    pub rotated: bool,
    pub trimmed: bool,
    /// Logical key used to name the retained prepared image.
    pub provider_key: String,
    /// BLAKE3 of visible width, height, and row-major RGBA bytes.
    pub content_fingerprint: [u8; 32],
}

impl Clone for CachedAtlasSlot {
    fn clone(&self) -> (r: Self)
        ensures
            r == *self,
    {
        CachedAtlasSlot {
            slot_id: self.slot_id,
            page_id: self.page_id,
            reserved_rect: self.reserved_rect,
            destination: self.destination,
            source: self.source,
            source_size: self.source_size,
            rotated: self.rotated,
            trimmed: self.trimmed,
            provider_key: self.provider_key.clone(),
            content_fingerprint: self.content_fingerprint,
        }
    }
}

/// Slots sort by identity.
impl Ranked for CachedAtlasSlot {
    open spec fn ranks_le(self, other: Self) -> bool {
        self.slot_id <= other.slot_id
    }

    proof fn rank_total(a: Self, b: Self) {
    }

    proof fn rank_transitive(a: Self, b: Self, c: Self) {
    }

    fn rank_le(&self, other: &Self) -> (r: bool) {
        self.slot_id <= other.slot_id
    }
}

/// The slot that holds a logical key.
#[derive(Debug)]
pub struct CachedAtlasKeySlot {
    pub path: String,
    pub slot_id: u64,
}

impl Clone for CachedAtlasKeySlot {
    fn clone(&self) -> (r: Self)
        ensures
            r == *self,
    {
        CachedAtlasKeySlot { path: self.path.clone(), slot_id: self.slot_id }
    }
}

/// Key relations sort by path.
impl Ranked for CachedAtlasKeySlot {
    open spec fn ranks_le(self, other: Self) -> bool {
        text_le(self.path@, other.path@)
    }

    proof fn rank_total(a: Self, b: Self) {
        lemma_text_order(a.path@, b.path@);
    }

    proof fn rank_transitive(a: Self, b: Self, c: Self) {
        lemma_text_transitive(a.path@, b.path@, c.path@);
    }

    fn rank_le(&self, other: &Self) -> (r: bool) {
        str_le(self.path.as_str(), other.path.as_str())
    }
}

/// Evidence of one family's layout.
#[derive(Debug)]
pub struct CachedAtlasFamily {
    pub family_config: AtlasFamilyConfig,
    pub layout_input_digest: [u8; 32],
    /// Next never-issued slot id.
    pub next_slot_id: u64,
    pub pages: Vec<CachedAtlasPage>,
    /// Active slots sorted by `slot_id`.
    pub slots: Vec<CachedAtlasSlot>,
    /// Complete logical-key relation sorted by path.
    pub key_slots: Vec<CachedAtlasKeySlot>,
    pub bindings: Vec<CachedUvBound>,
    pub texture_fingerprints: Vec<CachedTextureFingerprint>,
}

/// Two families hold the same evidence.
pub open spec fn same_family(a: CachedAtlasFamily, b: CachedAtlasFamily) -> bool {
    &&& a.family_config.sizing_overrides@ == b.family_config.sizing_overrides@
    &&& a.layout_input_digest == b.layout_input_digest
    &&& a.next_slot_id == b.next_slot_id
    &&& a.pages@ == b.pages@
    &&& a.slots@ == b.slots@
    &&& a.key_slots@ == b.key_slots@
    &&& a.bindings@ == b.bindings@
    &&& a.texture_fingerprints@ == b.texture_fingerprints@
}

impl Clone for CachedAtlasFamily {
    fn clone(&self) -> (r: Self)
        ensures
            same_family(r, *self),
    {
        let r = CachedAtlasFamily {
            family_config: self.family_config.clone(),
            layout_input_digest: self.layout_input_digest,
            next_slot_id: self.next_slot_id,
            pages: self.pages.clone(),
            slots: self.slots.clone(),
            key_slots: self.key_slots.clone(),
            bindings: self.bindings.clone(),
            texture_fingerprints: self.texture_fingerprints.clone(),
        };
        assert(r.pages@ =~= self.pages@);
        assert(r.slots@ =~= self.slots@);
        assert(r.key_slots@ =~= self.key_slots@);
        assert(r.bindings@ =~= self.bindings@);
        assert(r.texture_fingerprints@ =~= self.texture_fingerprints@);
        r
    }
}

/// Evidence of both families.
#[derive(Debug)]
pub struct AtlasCache {
    pub version: u32,
    pub shared_config: AtlasSharedConfig,
    pub opaque: CachedAtlasFamily,
    pub alpha: CachedAtlasFamily,
}

impl Clone for AtlasCache {
    fn clone(&self) -> (r: Self)
        ensures
            r.version == self.version,
            r.shared_config == self.shared_config,
            same_family(r.opaque, self.opaque),
            same_family(r.alpha, self.alpha),
    {
        AtlasCache {
            version: self.version,
            shared_config: self.shared_config,
            opaque: self.opaque.clone(),
            alpha: self.alpha.clone(),
        }
    }
}

/// Whether two 32-byte digests are the same.
pub fn digest_eq(a: &[u8; 32], b: &[u8; 32]) -> (r: bool)
    ensures
        r == (a@ == b@),
{
    let mut i: usize = 0;
    while i < 32
        invariant
            i <= 32,
            a@.len() == 32,
            b@.len() == 32,
            forall|k: int| 0 <= k < i ==> a@[k] == b@[k],
        decreases 32 - i,
    {
        if a[i] != b[i] {
            return false;
        }
        i = i + 1;
    }
    assert(a@ =~= b@);
    true
}

} // verus!
