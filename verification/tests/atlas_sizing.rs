use statics::atlas::sizing::aliases::merge_dedupe_alias_requirements;
use statics::atlas::sizing::analyze::{accumulate_static, analyze_static_texture_usage, merge_usage_map, TriangleOutcome};
use statics::atlas::sizing::plan::{plan_static_texture_resolutions, select_longest};
use statics::atlas::sizing::probe::{
    fingerprint_bytes, fingerprints_from_source_info, gather_source_info, probe_dds, probe_dimensions,
    probed_dimensions, read_u32, source_info_from_bytes, source_keys, ProbeError, ProbedFormat,
};
use statics::atlas::sizing::usage::{TextureUsageAggregate, UseId, INFINITE_DENSITY};
use statics::atlas::sizing::{
    snap_to_mip_step, AtlasDomain, SizingPlan, SourceTextureInfo, StaticTextureSizingMode,
    StaticTextureSizingSettings, TextureAxisCaps,
};
use statics::atlas::types::{usable_texture_dim, AtlasTextureSet, TextureDedupeMode};
use statics::defaults::{
    DEFAULT_STATIC_ATLAS_MAX_SIZE, DEFAULT_STATIC_TEXTURE_LONG_SIZE, DEFAULT_STATIC_TEXTURE_SHORT_SIZE,
    SUPPORTED_STATIC_ATLAS_SIZES, SUPPORTED_STATIC_TEXTURE_LONG_SIZES, SUPPORTED_STATIC_TEXTURE_SHORT_SIZES,
};
use statics::model::{DistantStatic, StaticType, Subset, SubsetTexture, TextureNames, TextureSym, Vertex};
use statics::text_map::TextMap;

/// The largest texture side that fits the default 16384 page.
const USABLE_16K: u32 = 16336;

/// Scales a texture down so that its longer side is at most `longest`.
fn limited_dimensions(width: u32, height: u32, longest: u32) -> (u32, u32) {
    let long = width.max(height);
    if long <= longest {
        return (width, height);
    }
    let scale = longest as f64 / long as f64;
    let side = |n: u32| ((n as f64 * scale).round() as u32).max(1);
    (side(width), side(height))
}

/// Whole mips that a measured density can spare over the protected one.
fn spare_mips(protected: u32, density: u32) -> u32 {
    let scale = (f32::from_bits(protected) / f32::from_bits(density)).clamp(0.0, 1.0);
    if scale <= 0.0 || scale >= 1.0 {
        0
    } else {
        (1.0 / scale).log2().floor().max(0.0) as u32
    }
}

#[test]
fn equal_caps_reproduce_a_single_longest_side_cap() {
    let caps = TextureAxisCaps::uniform(1024);
    assert_eq!(caps.longest_for(4096, 4096), 1024);
    assert_eq!(caps.longest_for(512, 8192), 1024);
    assert_eq!(caps.longest_for(256, 128), 256);
}

#[test]
fn short_cap_bounds_the_shorter_axis_after_uniform_scaling() {
    let caps = TextureAxisCaps { long: 8192, short: 1024 };
    // 512x8192 is 16:1, so a 1024 short axis permits a 16384 long axis; the long cap binds first.
    assert_eq!(caps.longest_for(512, 8192), 8192);
    assert_eq!(limited_dimensions(512, 8192, caps.longest_for(512, 8192)), (512, 8192));

    // 512x16384 is 32:1: the long cap forces the short axis below its own cap.
    assert_eq!(caps.longest_for(512, 16384), 8192);
    assert_eq!(limited_dimensions(512, 16384, caps.longest_for(512, 16384)), (256, 8192));

    // A square source is governed entirely by the short cap.
    assert_eq!(caps.longest_for(4096, 4096), 1024);

    // Orientation must not matter.
    assert_eq!(caps.longest_for(8192, 512), caps.longest_for(512, 8192));
}

#[test]
fn short_cap_binds_before_the_long_cap_on_mild_aspect_ratios() {
    let caps = TextureAxisCaps { long: 8192, short: 1024 };
    // 2:1 at 4096x2048: the short axis reaches 1024 at a 2048 long axis.
    assert_eq!(caps.longest_for(4096, 2048), 2048);
    assert_eq!(limited_dimensions(4096, 2048, 2048), (2048, 1024));
}

#[test]
fn snap_to_mip_step_is_a_no_op_on_power_of_two_targets() {
    for &source in &[512u32, 1024, 2048, 4096, 8192] {
        for &cap in &SUPPORTED_STATIC_TEXTURE_LONG_SIZES {
            assert_eq!(
                snap_to_mip_step(source, cap),
                source.min(cap),
                "snap changed a power-of-two target: source {source}, cap {cap}"
            );
        }
    }
}

#[test]
fn snap_to_mip_step_halves_rather_than_shaving_at_the_page_fit_floor() {
    assert_eq!(snap_to_mip_step(8192, 8144), 4096);
    assert_eq!(snap_to_mip_step(16384, USABLE_16K), 8192);
    // Sources already inside the floor are untouched.
    assert_eq!(snap_to_mip_step(4096, USABLE_16K), 4096);
}

#[test]
fn snap_to_mip_step_never_reaches_zero() {
    assert_eq!(snap_to_mip_step(4096, 0), 1);
    assert_eq!(snap_to_mip_step(0, 0), 0);
}

#[test]
fn for_atlas_floors_both_caps_to_what_fits_one_page() {
    let caps = TextureAxisCaps::for_atlas(8192, 8192, 8192);
    assert_eq!(caps.long, usable_texture_dim(8192));
    assert_eq!(caps.short, usable_texture_dim(8192));
    // An 8192 source under an 8192 page halves instead of shaving 48 texels off both sides.
    assert_eq!(caps.longest_for(8192, 8192), 4096);
    // A cap already below the floor is untouched by it.
    assert_eq!(TextureAxisCaps::for_atlas(4096, 1024, 8192).short, 1024);
}

#[test]
fn defaults_give_stacked_atlases_sub_texture_parity_with_plain_art() {
    let short = DEFAULT_STATIC_TEXTURE_SHORT_SIZE;
    assert_eq!(DEFAULT_STATIC_TEXTURE_LONG_SIZE, short * 8);
    let caps =
        TextureAxisCaps::for_atlas(DEFAULT_STATIC_TEXTURE_LONG_SIZE, short, DEFAULT_STATIC_ATLAS_MAX_SIZE);

    // Atlas shapes in both stacking orientations, at 8:1 and 4:1.
    for &(width, height) in &[(2048u32, 16384u32), (1024, 8192), (4096, 16384), (2048, 8192), (8192, 2048)] {
        let (baseline_width, baseline_height) = limited_dimensions(width, height, caps.longest_for(width, height));
        assert_eq!(
            baseline_width.min(baseline_height),
            short,
            "{width}x{height} lost sub-texture parity with plain art"
        );
    }

    // Plain art is bounded by the same cap, and art already at or under it is untouched.
    assert_eq!(limited_dimensions(2048, 2048, caps.longest_for(2048, 2048)), (short, short));
    assert_eq!(limited_dimensions(short, short, caps.longest_for(short, short)), (short, short));
    assert_eq!(limited_dimensions(64, 64, caps.longest_for(64, 64)), (64, 64));

    // Past the 8:1 allowance the long cap binds instead, costing sub-texture resolution.
    assert_eq!(limited_dimensions(512, 8192, caps.longest_for(512, 8192)), (short / 2, short * 8));
}

#[test]
fn unprobeable_sources_fall_back_to_the_long_cap() {
    let caps = TextureAxisCaps { long: 2048, short: 512 };
    assert_eq!(caps.longest_for(0, 0), 2048);
    assert_eq!(caps.longest_for(1024, 0), 2048);
}

#[test]
fn supported_sizes_hold_the_defaults_and_fit_a_page() {
    assert!(SUPPORTED_STATIC_TEXTURE_LONG_SIZES.contains(&DEFAULT_STATIC_TEXTURE_LONG_SIZE));
    assert!(SUPPORTED_STATIC_TEXTURE_SHORT_SIZES.contains(&DEFAULT_STATIC_TEXTURE_SHORT_SIZE));
    assert!(SUPPORTED_STATIC_ATLAS_SIZES.contains(&DEFAULT_STATIC_ATLAS_MAX_SIZE));
    assert_eq!(usable_texture_dim(16384), USABLE_16K);
}

fn settings(mode: StaticTextureSizingMode, protected: f32) -> StaticTextureSizingSettings {
    StaticTextureSizingSettings {
        mode,
        protected_density: protected.to_bits(),
        min_texture_size: 64,
        max_mip_reduction: 4,
    }
}

fn select(baseline: u32, density: f32, settings: &StaticTextureSizingSettings) -> u32 {
    select_longest(baseline, spare_mips(settings.protected_density, density.to_bits()), settings)
}

#[test]
fn select_longest_reduces_by_whole_mips_and_respects_floor() {
    let s = settings(StaticTextureSizingMode::DownscaleOpaque, 1.0);
    // limiting density 8 -> required_scale 1/8 -> reduction 3 -> 512>>3 = 64.
    assert_eq!(select(512, 8.0, &s), 64);
    // limiting density 2 -> required_scale 1/2 -> reduction 1 -> 256.
    assert_eq!(select(512, 2.0, &s), 256);
    // limiting density 1 -> required_scale 1 -> no reduction.
    assert_eq!(select(512, 1.0, &s), 512);
}

#[test]
fn select_longest_clamps_to_max_mip_reduction_and_min_size() {
    let s = settings(StaticTextureSizingMode::DownscaleOpaque, 1.0);
    // Enormous density would reduce far, but max_mip_reduction caps it at 4 and the floor at 64.
    assert_eq!(select(512, 100000.0, &s), 64);
    // A sub-floor baseline never upscales and never drops below itself.
    assert_eq!(select(32, 100000.0, &s), 32);
    // With a baseline far over the floor the mip limit binds.
    assert_eq!(select(8192, 100000.0, &s), 512);
}

#[test]
fn select_longest_takes_any_mip_limit() {
    let mut s = settings(StaticTextureSizingMode::Downscale, 1.0);
    s.max_mip_reduction = 255;
    assert_eq!(select_longest(4096, 31, &s), 64);
    assert_eq!(select_longest(4096, 32, &s), 64);
    assert_eq!(select_longest(4096, 1000, &s), 64);
    s.min_texture_size = 0;
    assert_eq!(select_longest(4096, 12, &s), 1);
    assert_eq!(select_longest(4096, 32, &s), 0);
    assert_eq!(select_longest(u32::MAX, 31, &s), 1);
    assert_eq!(select_longest(u32::MAX, 32, &s), 0);
}

fn aggregate(area_density: f32, valid: u64) -> TextureUsageAggregate {
    TextureUsageAggregate {
        limiting_use: Some(UseId { static_key: "s.nif".into(), subset_index: 0, triangle_index: 0 }),
        area_density_min: area_density.to_bits(),
        valid_count: valid,
        uncertain_count: 0,
        needs_baseline: false,
    }
}

fn source(width: u32, height: u32) -> SourceTextureInfo {
    SourceTextureInfo { size: 1, hash: [0; 32], width, height, mip_count: 1, is_dds: true }
}

fn usage(domain: AtlasDomain, key: &str, agg: TextureUsageAggregate) -> AtlasTextureSet<TextMap<TextureUsageAggregate>> {
    let mut set = AtlasTextureSet::new(TextMap::new(), TextMap::new());
    match domain {
        AtlasDomain::Opaque => set.opaque.insert(key.to_owned(), agg),
        AtlasDomain::Alpha => set.alpha.insert(key.to_owned(), agg),
    };
    set
}

fn info_of(entries: &[(&str, SourceTextureInfo)]) -> TextMap<SourceTextureInfo> {
    let mut info = TextMap::new();
    for (key, value) in entries {
        info.insert((*key).to_owned(), *value);
    }
    info
}

fn plan_with(
    info: &TextMap<SourceTextureInfo>,
    u: &AtlasTextureSet<TextMap<TextureUsageAggregate>>,
    mode: StaticTextureSizingMode,
) -> (SizingPlan, u64) {
    let (plan, metrics) = plan_static_texture_resolutions(
        &limited_dimensions,
        &spare_mips,
        info,
        u,
        &settings(mode, 1.0),
        TextureAxisCaps::uniform(512),
    );
    (plan, metrics.reduced_texture_count)
}

#[test]
fn downscale_opaque_writes_overlay_report_only_does_not() {
    let info = info_of(&[("a.dds", source(1024, 1024))]);
    let u = usage(AtlasDomain::Opaque, "a.dds", aggregate(8.0, 10));

    let (plan, reduced) = plan_with(&info, &u, StaticTextureSizingMode::DownscaleOpaque);
    assert_eq!(plan.opaque_overrides.get("a.dds"), Some(&64));
    assert_eq!(plan.dim_for("a.dds", AtlasDomain::Opaque), 64);
    assert_eq!(reduced, 1);

    let (plan, reduced) = plan_with(&info, &u, StaticTextureSizingMode::Report);
    assert!(plan.opaque_overrides.is_empty(), "Report mode must not populate the overlay");
    assert_eq!(plan.dim_for("a.dds", AtlasDomain::Opaque), 512);
    assert_eq!(reduced, 1, "Report still projects the reduction");
}

#[test]
fn alpha_is_reduced_only_in_downscale_mode() {
    let info = info_of(&[("leaf.dds", source(1024, 1024))]);
    let u = usage(AtlasDomain::Alpha, "leaf.dds", aggregate(8.0, 10));

    let (plan, reduced) = plan_with(&info, &u, StaticTextureSizingMode::DownscaleOpaque);
    assert!(plan.alpha_overrides.is_empty());
    assert_eq!(reduced, 1, "the reduction is still projected");

    let (plan, _) = plan_with(&info, &u, StaticTextureSizingMode::Downscale);
    assert_eq!(plan.alpha_overrides.get("leaf.dds"), Some(&64));
}

#[test]
fn a_few_uncertain_triangles_do_not_block_reduction() {
    let info = info_of(&[("a.dds", source(1024, 1024))]);

    // 1 unmeasurable triangle out of 100 is noise, not evidence the measurement is wrong.
    let mut agg = aggregate(8.0, 99);
    agg.uncertain_count = 1;
    let u = usage(AtlasDomain::Opaque, "a.dds", agg);
    let (plan, reduced) = plan_with(&info, &u, StaticTextureSizingMode::Downscale);
    assert_eq!(plan.opaque_overrides.get("a.dds"), Some(&64));
    assert_eq!(reduced, 1);

    // Past the ratio we have genuinely not measured the texture.
    let mut agg = aggregate(8.0, 50);
    agg.uncertain_count = 50;
    let u = usage(AtlasDomain::Opaque, "a.dds", agg);
    let (plan, reduced) = plan_with(&info, &u, StaticTextureSizingMode::Downscale);
    assert!(plan.opaque_overrides.is_empty());
    assert_eq!(reduced, 0);
}

#[test]
fn unknown_texture_dimensions_force_baseline_fallback() {
    let info = info_of(&[("x.dds", source(1024, 1024))]);
    let mut agg = aggregate(8.0, 10);
    agg.needs_baseline = true;
    let u = usage(AtlasDomain::Opaque, "x.dds", agg);
    let (plan, reduced) = plan_with(&info, &u, StaticTextureSizingMode::DownscaleOpaque);
    assert!(plan.opaque_overrides.is_empty());
    assert_eq!(reduced, 0);
}

#[test]
fn dedupe_reconciliation_lifts_group_to_max_selected() {
    // Two byte-identical opaque textures, one reduced to 64, the other kept at baseline 512.
    let info = info_of(&[("a.dds", source(512, 512)), ("b.dds", source(512, 512))]);
    let textures = AtlasTextureSet::new(vec!["a.dds".to_owned(), "b.dds".to_owned()], Vec::new());

    let mut plan = SizingPlan::uniform(512);
    plan.opaque_overrides.insert("a.dds".to_owned(), 64);
    merge_dedupe_alias_requirements(&limited_dimensions, &textures, &info, TextureDedupeMode::Exact, &mut plan);
    // Group max selected is 512 (b kept baseline), so a's reduction is cleared.
    assert!(plan.opaque_overrides.is_empty());

    // Now both want a reduction; the larger (256) wins for both.
    let mut plan2 = SizingPlan::uniform(512);
    plan2.opaque_overrides.insert("a.dds".to_owned(), 64);
    plan2.opaque_overrides.insert("b.dds".to_owned(), 256);
    merge_dedupe_alias_requirements(&limited_dimensions, &textures, &info, TextureDedupeMode::Exact, &mut plan2);
    assert_eq!(plan2.opaque_overrides.get("a.dds"), Some(&256));
    assert_eq!(plan2.opaque_overrides.get("b.dds"), Some(&256));

    // Off mode leaves the plan untouched.
    let mut plan3 = SizingPlan::uniform(512);
    plan3.opaque_overrides.insert("a.dds".to_owned(), 64);
    merge_dedupe_alias_requirements(&limited_dimensions, &textures, &info, TextureDedupeMode::Off, &mut plan3);
    assert_eq!(plan3.opaque_overrides.get("a.dds"), Some(&64));
}

fn usage_default() -> TextureUsageAggregate {
    TextureUsageAggregate::default()
}

#[test]
fn lowest_density_use_wins_and_blocks_reduction_independently() {
    let mut agg = usage_default();
    assert_eq!(agg.area_density_min, INFINITE_DENSITY);
    // A dense use and a sparse use of the same texture: the sparse (smaller) one limits.
    agg.record_valid(10.0f32.to_bits(), "b.nif", 0, 0);
    agg.record_valid(2.0f32.to_bits(), "a.nif", 1, 3);
    assert_eq!(f32::from_bits(agg.area_density_min), 2.0);
    let limiting = agg.limiting_use.as_ref().unwrap();
    assert_eq!(
        (limiting.static_key.as_str(), limiting.subset_index, limiting.triangle_index),
        ("a.nif", 1, 3)
    );
    assert_eq!(agg.valid_count, 2);
}

#[test]
fn limiting_use_ties_break_on_stable_id_regardless_of_merge_order() {
    let one = 1.0f32.to_bits();
    let mut forward = usage_default();
    forward.record_valid(one, "z.nif", 0, 0);
    forward.record_valid(one, "a.nif", 9, 9);

    let mut reverse = usage_default();
    reverse.record_valid(one, "a.nif", 9, 9);
    reverse.record_valid(one, "z.nif", 0, 0);

    for agg in [&forward, &reverse] {
        let limiting = agg.limiting_use.as_ref().unwrap();
        assert_eq!(limiting.static_key, "a.nif");
    }
}

#[test]
fn merge_is_commutative_for_density_and_flags() {
    let left = || {
        let mut left = usage_default();
        left.record_valid(4.0f32.to_bits(), "m.nif", 0, 0);
        left
    };
    let right = || {
        let mut right = usage_default();
        right.record_valid(1.0f32.to_bits(), "a.nif", 0, 0);
        right.needs_baseline = true;
        right.uncertain_count = 2;
        right
    };

    let mut a = left();
    a.merge_from(right());
    let mut b = right();
    b.merge_from(left());

    assert_eq!(a.area_density_min, b.area_density_min);
    assert_eq!(f32::from_bits(a.area_density_min), 1.0);
    assert!(a.needs_baseline && b.needs_baseline);
    assert_eq!(a.valid_count, b.valid_count);
    assert_eq!(a.uncertain_count, b.uncertain_count);
}

#[test]
fn uncertain_triangles_are_counted() {
    let mut agg = usage_default();
    agg.record_uncertain();
    agg.record_uncertain();
    assert_eq!((agg.valid_count, agg.uncertain_count), (0, 2));
    assert!(agg.limiting_use.is_none());
}

fn encode(format: image::ImageFormat, width: u32, height: u32) -> Vec<u8> {
    let mut bytes = Vec::new();
    image::DynamicImage::ImageRgba8(image::RgbaImage::new(width, height))
        .write_to(&mut std::io::Cursor::new(&mut bytes), format)
        .unwrap();
    bytes
}

fn dds_header(width: u32, height: u32, flags: u32, mips: u32) -> Vec<u8> {
    let mut bytes = vec![0u8; 128];
    bytes[..4].copy_from_slice(b"DDS ");
    bytes[4..8].copy_from_slice(&124u32.to_le_bytes());
    bytes[8..12].copy_from_slice(&flags.to_le_bytes());
    bytes[12..16].copy_from_slice(&height.to_le_bytes());
    bytes[16..20].copy_from_slice(&width.to_le_bytes());
    bytes[28..32].copy_from_slice(&mips.to_le_bytes());
    bytes
}

#[test]
fn probe_dds_reads_width_height_and_mips() {
    let bytes = dds_header(64, 32, 0x0002_0000, 7);
    assert_eq!(probe_dimensions("x.dds", &bytes), (64, 32, 7, true));
    assert_eq!(probe_dds(&bytes), Some((64, 32, 7)));
    assert_eq!(probe_dds(&bytes[..20]), None);
    assert_eq!(read_u32(&bytes, 16), 64);
}

#[test]
fn probe_non_dds_reads_bmp_dimensions_without_decode() {
    let bmp = encode(image::ImageFormat::Bmp, 8, 4);
    assert_eq!(probe_dimensions("x.bmp", &bmp), (8, 4, 1, false));
}

#[test]
fn probe_non_dds_reads_tga_dimensions_without_decode() {
    // TGA has no magic bytes, so it is only probeable via its extension.
    let tga = encode(image::ImageFormat::Tga, 8, 4);
    assert_eq!(probe_dimensions("x.tga", &tga), (8, 4, 1, false));
}

#[test]
fn probe_rejects_bytes_that_contradict_the_extension() {
    let bmp = encode(image::ImageFormat::Bmp, 8, 4);
    assert_eq!(probe_dimensions("x.tga", &bmp), (0, 0, 1, false));
}

#[test]
fn probe_rejects_unreadable_extension() {
    let bmp = encode(image::ImageFormat::Bmp, 8, 4);
    assert_eq!(probe_dimensions("x.png", &bmp), (0, 0, 1, false));
}

#[test]
fn unprobeable_sources_have_no_dimensions() {
    assert_eq!(probed_dimensions(ProbedFormat::Image(Some((7, 9))), b""), (7, 9, 1, false));
    assert_eq!(probed_dimensions(ProbedFormat::Image(None), b""), (0, 0, 1, false));
    assert_eq!(probed_dimensions(ProbedFormat::Unknown, b""), (0, 0, 1, false));
    assert_eq!(probed_dimensions(ProbedFormat::Dds, b""), (0, 0, 1, true));
}

#[test]
fn probe_rejects_garbage_bytes() {
    assert_eq!(probe_dimensions("x.tga", b"not an image"), (0, 0, 1, false));
    assert_eq!(probe_dimensions("x.dds", b"not an image"), (0, 0, 1, true));
}

#[test]
fn fingerprints_hold_the_length_and_the_digest() {
    let (size, hash) = fingerprint_bytes(b"abc");
    assert_eq!(size, 3);
    assert_eq!(hash, *blake3::hash(b"abc").as_bytes());
    assert_ne!(hash, fingerprint_bytes(b"abd").1);
    let info = source_info_from_bytes("x.png", b"abc");
    assert_eq!((info.size, info.hash), (size, hash));
}

#[test]
fn source_keys_are_sorted_and_unique() {
    let textures = AtlasTextureSet::new(
        vec!["b".to_owned(), "a".to_owned()],
        vec!["c".to_owned(), "a".to_owned()],
    );
    assert_eq!(source_keys(&textures), vec!["a".to_owned(), "b".to_owned(), "c".to_owned()]);
}

#[test]
fn gathering_fails_on_any_dropped_source() {
    let keys = vec!["a".to_owned(), "b".to_owned()];
    let both = gather_source_info(&keys, &[Some(source(1, 1)), Some(source(2, 2))]);
    let info = match both {
        Ok(info) => info,
        Err(error) => panic!("{error:?}"),
    };
    assert_eq!(info.get("b").unwrap().width, 2);
    let textures = AtlasTextureSet::new(keys.clone(), Vec::new());
    assert_eq!(fingerprints_from_source_info(&info, &textures).opaque, vec![(1, [0; 32]); 2]);
    match gather_source_info(&keys, &[Some(source(1, 1)), None]) {
        Ok(_) => panic!("a missing source must be reported"),
        Err(error) => assert_eq!(error, ProbeError { dropped: 1, total: 2 }),
    }
}

fn names() -> TextureNames {
    TextureNames { keys: vec![None, Some("a.dds".to_owned()), Some("b.dds".to_owned())] }
}

fn using(sym: u32, triangles: Vec<[u16; 3]>) -> Subset {
    Subset {
        vertices: vec![Vertex::default(); 3],
        triangles,
        texture: SubsetTexture::Source(TextureSym(sym)),
        ..Subset::default()
    }
}

fn known_sources() -> TextMap<SourceTextureInfo> {
    let mut sources = TextMap::new();
    sources.insert(
        "a.dds".to_owned(),
        SourceTextureInfo { size: 1, hash: [1; 32], width: 64, height: 32, mip_count: 1, is_dds: true },
    );
    sources
}

/// Measures the triangles of a static at the densities that are listed for its subsets.
fn meter_of(outcomes: Vec<Vec<TriangleOutcome>>) -> impl Fn(usize, usize, u32, u32) -> TriangleOutcome {
    move |subset, triangle, width, height| {
        assert_eq!((width, height), (64, 32));
        outcomes[subset][triangle]
    }
}

fn density(value: f32) -> TriangleOutcome {
    TriangleOutcome::Density(value.to_bits())
}

fn two_statics() -> Vec<(String, DistantStatic)> {
    let mut alpha = using(1, vec![[0, 1, 2]]);
    alpha.has_alpha = true;
    let mut scrolling = using(1, vec![[0, 1, 2]]);
    scrolling.has_uv_controller = true;
    vec![
        (
            "m.nif".to_owned(),
            DistantStatic {
                subsets: vec![using(1, vec![[0, 1, 2], [0, 1, 3], [0, 1, 2]]), using(2, vec![[0, 1, 2]])],
                ..DistantStatic::default()
            },
        ),
        (
            "c.nif".to_owned(),
            DistantStatic {
                subsets: vec![using(1, vec![[0, 1, 2], [0, 1, 2]]), alpha, scrolling],
                ..DistantStatic::default()
            },
        ),
    ]
}

fn two_meters() -> Vec<impl Fn(usize, usize, u32, u32) -> TriangleOutcome> {
    vec![
        meter_of(vec![vec![density(2.0), density(0.5), TriangleOutcome::Uncertain]]),
        meter_of(vec![vec![density(2.0), TriangleOutcome::Ignored], vec![density(4.0)]]),
    ]
}

fn limiting(usage: &TextureUsageAggregate) -> (String, u32, u32) {
    let limiting = usage.limiting_use.as_ref().unwrap();
    (limiting.static_key.clone(), limiting.subset_index, limiting.triangle_index)
}

#[test]
fn usage_is_aggregated_over_all_statics_by_domain() {
    let usage = analyze_static_texture_usage(
        &two_meters(),
        &limited_dimensions,
        &names(),
        &two_statics(),
        &known_sources(),
        TextureAxisCaps::uniform(1024),
    );
    let a = usage.opaque.get("a.dds").unwrap();
    // The triangle with a corner out of range is uncertain, whatever it would have measured.
    assert_eq!((a.valid_count, a.uncertain_count, a.needs_baseline), (2, 2, false));
    assert_eq!(a.area_density_min, 2.0f32.to_bits());
    // Equal densities: the smaller static key limits.
    assert_eq!(limiting(a), ("c.nif".to_owned(), 0, 0));
    let b = usage.opaque.get("b.dds").unwrap();
    assert_eq!((b.valid_count, b.uncertain_count, b.needs_baseline), (0, 1, true));
    let alpha = usage.alpha.get("a.dds").unwrap();
    assert_eq!((alpha.valid_count, alpha.area_density_min), (1, 4.0f32.to_bits()));
    assert_eq!((usage.opaque.len(), usage.alpha.len()), (2, 1));
}

#[test]
fn grass_contributes_no_usage() {
    let mut statics = two_statics();
    statics[1].1.static_type = StaticType::StaticGrass;
    let usage = analyze_static_texture_usage(
        &two_meters(),
        &limited_dimensions,
        &names(),
        &statics,
        &known_sources(),
        TextureAxisCaps::uniform(1024),
    );
    assert_eq!(usage.alpha.len(), 0);
    assert_eq!(limiting(usage.opaque.get("a.dds").unwrap()), ("m.nif".to_owned(), 0, 0));
}

#[test]
fn partial_usage_merges_to_the_same_result_in_any_order() {
    let (statics, meters) = (two_statics(), two_meters());
    let partial = |i: usize| {
        let mut usage = AtlasTextureSet { opaque: TextMap::new(), alpha: TextMap::new() };
        accumulate_static(
            &mut usage,
            &meters[i],
            &limited_dimensions,
            &statics[i].0,
            &statics[i].1,
            &names(),
            &known_sources(),
            TextureAxisCaps::uniform(1024),
        );
        usage.opaque
    };
    for (first, second) in [(0, 1), (1, 0)] {
        let mut usage = partial(first);
        merge_usage_map(&mut usage, partial(second));
        let a = usage.get("a.dds").unwrap();
        assert_eq!((a.valid_count, a.uncertain_count), (2, 2));
        assert_eq!(limiting(a), ("c.nif".to_owned(), 0, 0));
    }
}
