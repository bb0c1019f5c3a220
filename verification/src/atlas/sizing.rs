//! Geometry-informed static texture resolution.

use crate::atlas::types::{minus, usable_texture_dim};
use crate::ordered_map::OrderedTextMap;
use crate::text_map::TextMap;
use vstd::arithmetic::power2::{lemma_pow2_unfold, pow2};
use vstd::prelude::*;

pub mod aliases;
pub mod analyze;
pub mod laws;
pub mod plan;
pub mod probe;
pub mod usage;
pub mod usage_laws;

verus! {

/// Operating mode for geometry-informed static texture resolution.
#[derive(Clone, Copy, Debug, PartialEq, Eq, Structural)]
pub enum StaticTextureSizingMode {
    /// Disabled: every texture keeps its baseline dimensions (native, bounded by the page cap).
    Off,
    /// Measure and report without changing selected texture dimensions.
    Report,
    /// Measure, report, and downscale eligible opaque textures only.
    DownscaleOpaque,
    /// Measure, report, and downscale eligible textures in both domains.
    Downscale,
}

/// A reduction selected for `domain` is applied in this mode.
pub open spec fn reduces_in(mode: StaticTextureSizingMode, domain: AtlasDomain) -> bool {
    match mode {
        StaticTextureSizingMode::Off | StaticTextureSizingMode::Report => false,
        StaticTextureSizingMode::DownscaleOpaque => domain == AtlasDomain::Opaque,
        StaticTextureSizingMode::Downscale => true,
    }
}

impl StaticTextureSizingMode {
    /// Whether a reduction selected for `domain` is actually applied to the plan.
    pub fn reduces(self, domain: AtlasDomain) -> (r: bool)
        ensures
            r == reduces_in(self, domain),
    {
        match self {
            StaticTextureSizingMode::Off | StaticTextureSizingMode::Report => false,
            StaticTextureSizingMode::DownscaleOpaque => domain == AtlasDomain::Opaque,
            StaticTextureSizingMode::Downscale => true,
        }
    }
}

impl Default for StaticTextureSizingMode {
    fn default() -> (r: Self)
        ensures
            r == StaticTextureSizingMode::Off,
    {
        StaticTextureSizingMode::Off
    }
}

/// Settings controlling geometry-informed static texture resolution.
#[derive(Clone, Copy, Debug, PartialEq, Eq, Structural)]
pub struct StaticTextureSizingSettings {
    /// Operating mode.
    pub mode: StaticTextureSizingMode,
    /// Required texel density in texels per game unit, as an IEEE single-precision bit pattern.
    pub protected_density: u32,
    /// Floor for the longest selected dimension, in texels.
    pub min_texture_size: u32,
    /// Maximum additional whole-mip reductions past the baseline dimension.
    pub max_mip_reduction: u8,
}

/// Bit pattern of one fifth of a texel per game unit.
pub const DEFAULT_PROTECTED_DENSITY: u32 = 0x3e4c_cccd;

impl Default for StaticTextureSizingSettings {
    fn default() -> (r: Self)
        ensures
            r == (StaticTextureSizingSettings {
                mode: StaticTextureSizingMode::Downscale,
                protected_density: DEFAULT_PROTECTED_DENSITY,
                min_texture_size: 64,
                max_mip_reduction: 4,
            }),
    {
        StaticTextureSizingSettings {
            mode: StaticTextureSizingMode::Downscale,
            protected_density: DEFAULT_PROTECTED_DENSITY,
            min_texture_size: 64,
            max_mip_reduction: 4,
        }
    }
}

/// Atlas domain a sizing decision applies to. Opaque and alpha requirements stay independent.
#[derive(Clone, Copy, Debug, PartialEq, Eq, Structural)]
pub enum AtlasDomain {
    /// Opaque (DXT1) atlas domain.
    Opaque,
    /// Alpha-tested (DXT5) atlas domain.
    Alpha,
}

impl AtlasDomain {
    /// Stable lowercase tag used in reports.
    pub fn as_str(self) -> (r: &'static str)
        ensures
            r@ == match self {
                AtlasDomain::Opaque => "opaque"@,
                AtlasDomain::Alpha => "alpha"@,
            },
    {
        match self {
            AtlasDomain::Opaque => "opaque",
            AtlasDomain::Alpha => "alpha",
        }
    }
}

/// Independent caps on a source texture's longer and shorter axis, in texels.
///
/// Scaling always preserves aspect ratio, so the two caps resolve per texture into one limit on the
/// longest side. Equal caps amount to a plain cap on the longest side. Raising `long` above `short`
/// lets a texture that stacks its parts along one axis keep that axis, while square textures are
/// still bounded by `short`.
#[derive(Clone, Copy, Debug, PartialEq, Eq, Structural)]
pub struct TextureAxisCaps {
    /// Cap on whichever axis is longer.
    pub long: u32,
    /// Cap on whichever axis is shorter.
    pub short: u32,
}

/// The smaller of two numbers.
pub open spec fn least(a: int, b: int) -> int {
    if a <= b {
        a
    } else {
        b
    }
}

/// The larger of two numbers.
pub open spec fn most(a: int, b: int) -> int {
    if a >= b {
        a
    } else {
        b
    }
}

/// `dim` halved until it is at most `cap`, but never below one by halving.
pub open spec fn mip_step(dim: int, cap: int) -> int
    decreases dim,
{
    if dim > cap && dim > 1 {
        mip_step(dim / 2, cap)
    } else {
        dim
    }
}

/// The limit on the longest side of a source under the caps.
pub open spec fn longest_under(caps: TextureAxisCaps, width: u32, height: u32) -> int {
    let long_axis = most(width as int, height as int);
    let short_axis = least(width as int, height as int);
    if short_axis == 0 {
        caps.long as int
    } else {
        mip_step(long_axis, least(caps.long as int, caps.short * long_axis / short_axis))
    }
}

impl TextureAxisCaps {
    /// The configured caps, floored by what can actually be placed on one `atlas_max_size` page.
    ///
    /// The packable dimension is strictly below the page cap (border padding and edge extrusion
    /// consume the difference), so a texture sized at the raw page cap could never be packed.
    pub fn for_atlas(long: u32, short: u32, atlas_max_size: u32) -> (r: Self)
        ensures
            ({
                let usable = minus(
                    atlas_max_size as int,
                    2 * crate::atlas::types::ATLAS_BORDER_PADDING
                        + crate::atlas::types::ATLAS_TEXTURE_PADDING + 2
                        * crate::atlas::types::ATLAS_TEXTURE_EXTRUSION,
                );
                r.long == least(long as int, usable) && r.short == least(short as int, usable)
            }),
    {
        let usable: u32 = usable_texture_dim(atlas_max_size);
        TextureAxisCaps {
            long: if long <= usable {
                long
            } else {
                usable
            },
            short: if short <= usable {
                short
            } else {
                usable
            },
        }
    }

    /// One cap applied to both axes.
    pub fn uniform(cap: u32) -> (r: Self)
        ensures
            r == (TextureAxisCaps { long: cap, short: cap }),
    {
        TextureAxisCaps { long: cap, short: cap }
    }

    /// The effective limit on the longest side of a source of `width` x `height`.
    ///
    /// `short * long_axis / short_axis` is the longest side at which the shorter axis lands exactly
    /// on its cap, so the smaller of that and `long` satisfies both. The result is then snapped
    /// down to a whole mip step of the source.
    pub fn longest_for(self, width: u32, height: u32) -> (r: u32)
        ensures
            r == longest_under(self, width, height),
    {
        let (long_axis, short_axis): (u32, u32) = if width >= height {
            (width, height)
        } else {
            (height, width)
        };
        if short_axis == 0 {
            return self.long;
        }
        proof {
            let s = self.short as int;
            let l = long_axis as int;
            assert(0 <= s * l <= 0xffff_ffff * 0xffff_ffff) by (nonlinear_arith)
                requires
                    0 <= s <= 0xffff_ffff,
                    0 <= l <= 0xffff_ffff,
            ;
        }
        let from_short: u64 = self.short as u64 * long_axis as u64 / short_axis as u64;
        let cap: u32 = if from_short < self.long as u64 {
            from_short as u32
        } else {
            self.long
        };
        snap_to_mip_step(long_axis, cap)
    }
}

/// Rounds `cap` down to a whole mip step of `source_long`, so every downscale selects a mip level
/// rather than resampling between two.
///
/// A no-op whenever `cap` is already a power-of-two division of the source. It bites on the page-fit
/// floor, which sits 48 texels below a power of two: an 8192 source under an 8192 page would
/// otherwise be resampled to 8144, blurring across every internal boundary of a stacked texture to
/// save little of a page.
pub fn snap_to_mip_step(source_long: u32, cap: u32) -> (r: u32)
    ensures
        r == mip_step(source_long as int, cap as int),
{
    let mut dim: u32 = source_long;
    while dim > cap && dim > 1
        invariant
            mip_step(dim as int, cap as int) == mip_step(source_long as int, cap as int),
        decreases dim,
    {
        dim = dim / 2;
    }
    dim
}

/// Snapping gives the largest whole mip step of the source that is within the cap; where even the
/// last mip exceeds the cap, that last mip of one texel.
pub proof fn lemma_mip_step(source: int, cap: int)
    requires
        0 <= source,
        0 <= cap,
    ensures
        exists|level: nat|
            {
                &&& mip_step(source, cap) == source / #[trigger] (pow2(level) as int)
                &&& forall|finer: nat|
                    finer < level ==> source / #[trigger] (pow2(finer) as int) > cap
            },
        mip_step(source, cap) <= most(cap, 1),
        mip_step(source, cap) <= source,
        source >= 1 ==> mip_step(source, cap) >= 1,
        source <= cap ==> mip_step(source, cap) == source,
    decreases source,
{
    vstd::arithmetic::power2::lemma2_to64();
    if source > cap && source > 1 {
        let half = source / 2;
        lemma_mip_step(half, cap);
        let level = choose|level: nat|
            {
                &&& mip_step(half, cap) == half / #[trigger] (pow2(level) as int)
                &&& forall|finer: nat| finer < level ==> half / #[trigger] (pow2(finer) as int) > cap
            };
        lemma_halve_step(source, level);
        assert forall|finer: nat| finer < level + 1 implies source / #[trigger] (pow2(finer) as int)
            > cap by {
            if finer == 0 {
                assert(pow2(0) == 1);
                assert(source / 1 == source);
            } else {
                lemma_halve_step(source, (finer - 1) as nat);
                assert(half / (pow2((finer - 1) as nat) as int) > cap);
            }
        }
        assert(mip_step(source, cap) == source / (pow2(level + 1) as int));
    } else {
        assert(pow2(0) == 1);
        assert(mip_step(source, cap) == source / (pow2(0) as int));
        assert(forall|finer: nat| finer < 0 ==> source / #[trigger] (pow2(finer) as int) > cap);
    }
}

/// Halving and then dividing by a power of two is dividing by the next power.
proof fn lemma_halve_step(source: int, level: nat)
    requires
        0 <= source,
    ensures
        source / (pow2(level + 1) as int) == (source / 2) / (pow2(level) as int),
{
    lemma_pow2_unfold(level + 1);
    vstd::arithmetic::power2::lemma_pow2_pos(level);
    vstd::arithmetic::div_mod::lemma_div_denominator(source, 2, pow2(level) as int);
}

/// Both caps are upper bounds: the longest side stays within `long`, and the shorter side, scaled
/// alike, within `short`. Caps of zero are out of reach, since the last mip has one texel.
pub proof fn lemma_caps_bound(caps: TextureAxisCaps, width: u32, height: u32)
    requires
        caps.long >= 1,
        caps.short >= 1,
        width >= 1,
        height >= 1,
    ensures
        1 <= longest_under(caps, width, height) <= caps.long,
        longest_under(caps, width, height) <= most(width as int, height as int),
        longest_under(caps, width, height) * least(width as int, height as int) <= caps.short * most(
            width as int,
            height as int,
        ),
{
    let l = most(width as int, height as int);
    let s = least(width as int, height as int);
    let short = caps.short as int;
    let fit = short * l / s;
    assert(fit >= 1 && fit * s <= short * l) by (nonlinear_arith)
        requires
            fit == short * l / s,
            short >= 1,
            l >= s >= 1,
    ;
    let cap = least(caps.long as int, fit);
    lemma_mip_step(l, cap);
    let r = mip_step(l, cap);
    assert(r * s <= fit * s) by (nonlinear_arith)
        requires
            r <= fit,
            s >= 1,
    ;
}

/// Orientation does not matter.
pub proof fn lemma_caps_symmetric(caps: TextureAxisCaps, width: u32, height: u32)
    ensures
        longest_under(caps, width, height) == longest_under(caps, height, width),
{
}

/// Equal caps amount to a plain cap on the longest side, snapped to a mip step.
pub proof fn lemma_equal_caps(cap: u32, width: u32, height: u32)
    requires
        width >= 1,
        height >= 1,
    ensures
        longest_under(TextureAxisCaps { long: cap, short: cap }, width, height) == mip_step(
            most(width as int, height as int),
            cap as int,
        ),
{
    let l = most(width as int, height as int);
    let s = least(width as int, height as int);
    let c = cap as int;
    assert(c * l / s >= c) by (nonlinear_arith)
        requires
            l >= s >= 1,
            c >= 0,
    ;
}

/// Source-texture metadata gathered in a single read pass before atlas setup.
#[derive(Clone, Copy, Debug, PartialEq, Eq)]
pub struct SourceTextureInfo {
    /// On-disk byte size (folded into the fingerprint).
    pub size: u64,
    /// BLAKE3 content hash (folded into the fingerprint).
    pub hash: [u8; 32],
    /// Source width in texels, or `0` when dimensions could not be probed.
    pub width: u32,
    /// Source height in texels, or `0` when dimensions could not be probed.
    pub height: u32,
    /// DDS mip levels present, or `1` for non-DDS / unprobed sources.
    pub mip_count: u32,
    /// Whether the source is a DDS file.
    pub is_dds: bool,
}

/// `limit` can be called on everything and gives one answer for one question.
///
/// `limit(width, height, cap)` is the size of a source scaled down to fit `cap` on its longest side.
pub open spec fn is_limiter<L: Fn(u32, u32, u32) -> (u32, u32)>(limit: L) -> bool {
    &&& forall|w: u32, h: u32, cap: u32| #[trigger] call_requires(limit, (w, h, cap))
    &&& forall|w: u32, h: u32, cap: u32, a: (u32, u32), b: (u32, u32)| #[trigger]
        call_ensures(limit, (w, h, cap), a) && #[trigger] call_ensures(limit, (w, h, cap), b)
            ==> a == b
}

/// The answer of `limit`.
pub open spec fn limited<L: Fn(u32, u32, u32) -> (u32, u32)>(
    limit: L,
    width: u32,
    height: u32,
    cap: u32,
) -> (u32, u32) {
    choose|dims: (u32, u32)| call_ensures(limit, (width, height, cap), dims)
}

/// Baseline dimensions for one probed source under the caps, where it has any.
pub open spec fn baseline_of<L: Fn(u32, u32, u32) -> (u32, u32)>(
    limit: L,
    info: SourceTextureInfo,
    caps: TextureAxisCaps,
) -> Option<(u32, u32)> {
    if info.width == 0 || info.height == 0 {
        None
    } else {
        Some(
            limited(
                limit,
                info.width,
                info.height,
                longest_under(caps, info.width, info.height) as u32,
            ),
        )
    }
}

/// Baseline dimensions for one probed source under `caps`, or `None` when unprobeable.
pub fn baseline_dims_for<L: Fn(u32, u32, u32) -> (u32, u32)>(
    limit: &L,
    info: &SourceTextureInfo,
    caps: TextureAxisCaps,
) -> (r: Option<(u32, u32)>)
    requires
        is_limiter(*limit),
    ensures
        r == baseline_of(*limit, *info, caps),
{
    if info.width == 0 || info.height == 0 {
        return None;
    }
    let longest: u32 = caps.longest_for(info.width, info.height);
    let dims: (u32, u32) = limit(info.width, info.height, longest);
    assert(call_ensures(*limit, (info.width, info.height, longest), dims));
    Some(dims)
}

/// The longer side of an image.
pub open spec fn longer(dims: (u32, u32)) -> u32 {
    if dims.0 >= dims.1 {
        dims.0
    } else {
        dims.1
    }
}

/// The longer side of an image.
pub fn longer_side(dims: (u32, u32)) -> (r: u32)
    ensures
        r == longer(dims),
{
    if dims.0 >= dims.1 {
        dims.0
    } else {
        dims.1
    }
}

/// Per-texture atlas-dimension plan: a baseline per texture plus a compact, sorted overlay per
/// domain that lists only the textures reduced below that baseline.
///
/// Empty overlays mean every texture resolves to its baseline. The overlays are ordered because
/// cached evidence lists them, and validation requires the list to ascend.
pub struct SizingPlan {
    /// Axis caps the baselines were derived from, already floored to what fits one atlas page.
    pub caps: TextureAxisCaps,
    /// Unconditional per-texture upper bound on the longest dimension.
    ///
    /// A map of its own rather than entries in the overlays below, because those are populated only
    /// when the mode reduces the domain and are discarded for an alias group that needs full
    /// resolution. A mandatory cap survives both.
    pub baselines: TextMap<u32>,
    /// Opaque-domain reductions below the baseline.
    pub opaque_overrides: OrderedTextMap<u32>,
    /// Alpha-domain reductions below the baseline.
    pub alpha_overrides: OrderedTextMap<u32>,
}

/// The baselines of all probed sources.
pub open spec fn baselines_of<L: Fn(u32, u32, u32) -> (u32, u32)>(
    limit: L,
    source_info: Map<Seq<char>, SourceTextureInfo>,
    caps: TextureAxisCaps,
) -> Map<Seq<char>, u32> {
    Map::new(
        |key: Seq<char>|
            source_info.dom().contains(key) && baseline_of(limit, source_info[key], caps) is Some,
        |key: Seq<char>| longer(baseline_of(limit, source_info[key], caps)->0),
    )
}

impl SizingPlan {
    pub open spec fn wf(&self) -> bool {
        self.baselines.wf() && self.opaque_overrides.wf() && self.alpha_overrides.wf()
    }

    /// The reduction overlay of a domain.
    pub open spec fn overrides_of(&self, domain: AtlasDomain) -> OrderedTextMap<u32> {
        match domain {
            AtlasDomain::Opaque => self.opaque_overrides,
            AtlasDomain::Alpha => self.alpha_overrides,
        }
    }

    /// The selected limit on the longest dimension of `key` in `domain`.
    pub open spec fn dim_of(&self, key: Seq<char>, domain: AtlasDomain) -> u32 {
        if self.overrides_of(domain)@.dom().contains(key) {
            self.overrides_of(domain)@[key]
        } else if self.baselines@.dom().contains(key) {
            self.baselines@[key]
        } else {
            self.caps.long
        }
    }

    /// A plan with no reductions: every probed texture resolves to its axis-derived baseline.
    pub fn baseline<L: Fn(u32, u32, u32) -> (u32, u32)>(
        limit: &L,
        caps: TextureAxisCaps,
        source_info: &TextMap<SourceTextureInfo>,
    ) -> (r: Self)
        requires
            is_limiter(*limit),
            source_info.wf(),
        ensures
            r.wf(),
            r.caps == caps,
            r.baselines@ == baselines_of(*limit, source_info@, caps),
            r.opaque_overrides@ == Map::<Seq<char>, u32>::empty(),
            r.alpha_overrides@ == Map::<Seq<char>, u32>::empty(),
    {
        let mut baselines: TextMap<u32> = TextMap::new();
        let mut i: usize = 0;
        while i < source_info.len()
            invariant
                is_limiter(*limit),
                source_info.wf(),
                i <= source_info.listed().len(),
                baselines.wf(),
                forall|k: int|
                    0 <= k < i ==> ({
                        let entry = #[trigger] source_info.listed()[k];
                        let dims = baseline_of(*limit, entry.1, caps);
                        &&& baselines@.dom().contains(entry.0@) <==> dims is Some
                        &&& dims is Some ==> baselines@[entry.0@] == longer(dims->0)
                    }),
                forall|key: Seq<char>| #[trigger]
                    baselines@.dom().contains(key) ==> exists|k: int|
                        0 <= k < i && (#[trigger] source_info.listed()[k]).0@ == key,
            decreases source_info.listed().len() - i,
        {
            proof {
                source_info.lemma_listed();
            }
            let ghost before = baselines@;
            let key = source_info.key_at(i);
            match baseline_dims_for(limit, source_info.value_at(i), caps) {
                Some(dims) => {
                    baselines.insert(key.clone(), longer_side(dims));
                },
                None => {},
            }
            proof {
                let listed = source_info.listed();
                assert(!before.dom().contains(listed[i as int].0@));
                assert forall|k: int| 0 <= k < i + 1 implies ({
                    let entry = #[trigger] listed[k];
                    let dims = baseline_of(*limit, entry.1, caps);
                    &&& baselines@.dom().contains(entry.0@) <==> dims is Some
                    &&& dims is Some ==> baselines@[entry.0@] == longer(dims->0)
                }) by {
                    if k < i {
                        assert(listed[k].0@ != listed[i as int].0@);
                    }
                }
                assert forall|key: Seq<char>| #[trigger] baselines@.dom().contains(key) implies exists|
                    k: int,
                |
                    0 <= k < i + 1 && (#[trigger] listed[k]).0@ == key by {
                    if before.dom().contains(key) {
                        let k = choose|k: int| 0 <= k < i && (#[trigger] listed[k]).0@ == key;
                        assert(listed[k].0@ == key);
                    } else {
                        assert(listed[i as int].0@ == key);
                    }
                }
            }
            i = i + 1;
        }
        proof {
            source_info.lemma_listed();
            let expected = baselines_of(*limit, source_info@, caps);
            assert forall|key: Seq<char>| baselines@.dom().contains(key) <==> expected.dom().contains(
                key,
            ) by {
                if source_info@.dom().contains(key) {
                    let k = choose|k: int|
                        0 <= k < source_info.listed().len() && (
                        #[trigger] source_info.listed()[k]).0@ == key;
                    assert(source_info@[key] == source_info.listed()[k].1);
                }
            }
            assert forall|key: Seq<char>| #[trigger] baselines@.dom().contains(key) implies baselines@[key]
                == expected[key] by {
                let k = choose|k: int|
                    0 <= k < source_info.listed().len() && (#[trigger] source_info.listed()[k]).0@
                        == key;
                assert(source_info@[key] == source_info.listed()[k].1);
            }
            assert(baselines@ =~= expected);
        }
        SizingPlan {
            caps,
            baselines,
            opaque_overrides: OrderedTextMap::new(),
            alpha_overrides: OrderedTextMap::new(),
        }
    }

    /// A plan with no reductions and no probed sources: every texture resolves to `cap`.
    pub fn uniform(cap: u32) -> (r: Self)
        ensures
            r.wf(),
            r.caps == (TextureAxisCaps { long: cap, short: cap }),
            r.baselines@ == Map::<Seq<char>, u32>::empty(),
            r.opaque_overrides@ == Map::<Seq<char>, u32>::empty(),
            r.alpha_overrides@ == Map::<Seq<char>, u32>::empty(),
    {
        SizingPlan {
            caps: TextureAxisCaps::uniform(cap),
            baselines: TextMap::new(),
            opaque_overrides: OrderedTextMap::new(),
            alpha_overrides: OrderedTextMap::new(),
        }
    }

    /// Returns the selected limit on the longest dimension of `key` in `domain`.
    ///
    /// An unprobeable texture has no baseline and falls back to the long cap.
    pub fn dim_for(&self, key: &str, domain: AtlasDomain) -> (r: u32)
        requires
            self.wf(),
        ensures
            r == self.dim_of(key@, domain),
    {
        let selected = match domain {
            AtlasDomain::Opaque => self.opaque_overrides.get(key),
            AtlasDomain::Alpha => self.alpha_overrides.get(key),
        };
        match selected {
            Some(dim) => *dim,
            None => match self.baselines.get(key) {
                Some(dim) => *dim,
                None => self.caps.long,
            },
        }
    }
}

} // verus!
