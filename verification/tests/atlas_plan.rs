use statics::atlas::apply::{update_uv_bounds_from_maps, DistantStatics, UvUpdateError};
use statics::atlas::compose::{can_compose, compose_planned_page};
use statics::atlas::manager::{AtlasManager, AtlasPublishPlan, PlanInputs};
use statics::atlas::metrics::AtlasFamilyPlanMode;
use statics::atlas::pack::{
    build_alias_map, decoded_or_placeholder, prepare_textures, visible_content_fingerprint, DecodedTexture, PixelImage,
};
use statics::atlas::packer::pack_layout_only;
use statics::atlas::publish::{build_page, PageFormat};
use statics::atlas::sizing::probe::{
    fingerprint_bytes, fingerprints_from_source_info, probe_dimensions, source_info_from_bytes,
};
use statics::atlas::sizing::{AtlasDomain, SizingPlan};
use statics::atlas::types::{
    usable_texture_dim, AtlasCache, AtlasTextureSet, CachedUvBound, Frame, LayoutItem, Page, Rect, TextureDedupeMode,
    UvBound, ALPHA_ATLAS_PREFIX, OPAQUE_ATLAS_PREFIX,
};
use statics::atlas::uv::{atlas_binding_digest, binding_delta, cached_uv_map, FrameMap};
use statics::atlas::write::{atlas_page_relative_path, atlas_page_string};
use statics::defaults::{DEFAULT_STATIC_ATLAS_MAX_SIZE, SUPPORTED_STATIC_ATLAS_SIZES};
use statics::model::{DistantStatic, StaticType, Subset, SubsetTexture, TextureNames, TextureSym, Vertex};
use statics::text_map::TextMap;

const TEST_MAX_TEXTURE_DIM: u32 = 512;
const TEST_GPU_MAX: u32 = DEFAULT_STATIC_ATLAS_MAX_SIZE;
const ATLAS_MAX: u32 = 128;
const RECIPE: u32 = 3;
const ERROR_KEY: &str = "error.dds";

fn ratio(n: u32, d: u32) -> u32 {
    (n as f32 / d as f32).to_bits()
}

fn solid(width: u32, height: u32, color: [u8; 4]) -> PixelImage {
    let mut pixels = Vec::new();
    for _ in 0..width * height {
        pixels.extend_from_slice(&color);
    }
    PixelImage { width, height, pixels }
}

fn decoded(key: &str, image: PixelImage) -> DecodedTexture {
    let mut content = Vec::new();
    content.extend_from_slice(&image.width.to_le_bytes());
    content.extend_from_slice(&image.height.to_le_bytes());
    content.extend_from_slice(&image.pixels);
    DecodedTexture { key: key.to_owned(), image, fingerprint: *blake3::hash(&content).as_bytes() }
}

/// A texture as it lies on disk: its bytes, and what they decode to.
struct Source {
    key: String,
    bytes: Vec<u8>,
    size: u32,
    color: [u8; 4],
}

struct Sources {
    entries: Vec<Source>,
}

impl Sources {
    fn new() -> Self {
        Sources { entries: Vec::new() }
    }

    fn write(&mut self, key: &str, bytes: Vec<u8>, size: u32, color: [u8; 4]) -> String {
        match self.entries.iter_mut().find(|entry| entry.key == key) {
            Some(entry) => {
                entry.bytes = bytes;
                entry.size = size;
                entry.color = color;
            },
            None => self.entries.push(Source { key: key.to_owned(), bytes, size, color }),
        }
        key.to_owned()
    }

    fn write_sized_rgba(&mut self, key: &str, size: u32, color: [u8; 4]) -> String {
        let mut bytes = size.to_le_bytes().to_vec();
        bytes.extend_from_slice(&color);
        self.write(key, bytes, size, color)
    }

    fn write_rgba(&mut self, key: &str, color: [u8; 4]) -> String {
        self.write_sized_rgba(key, 40, color)
    }

    /// Bytes that decode to nothing stand for one magenta texel.
    fn write_unreadable(&mut self, key: &str, bytes: &[u8]) -> String {
        self.write(key, bytes.to_vec(), 1, [255, 0, 255, 255])
    }

    fn sym(&self, key: &str) -> TextureSym {
        match self.entries.iter().position(|entry| entry.key == key) {
            Some(position) => TextureSym(position as u32 + 1),
            None => TextureSym(self.entries.len() as u32 + 1),
        }
    }

    fn names(&self) -> TextureNames {
        let mut keys = vec![None];
        for entry in &self.entries {
            keys.push(Some(entry.key.clone()));
        }
        keys.push(Some(ERROR_KEY.to_owned()));
        TextureNames { keys }
    }

    fn source(&self, key: &str) -> &Source {
        self.entries.iter().find(|entry| entry.key == key).unwrap()
    }

    fn fingerprints(&self, keys: &[String]) -> Vec<(u64, [u8; 32])> {
        keys.iter().map(|key| fingerprint_bytes(&self.source(key).bytes)).collect()
    }
}

fn bound(min_x: f32, max_x: f32, min_y: f32, max_y: f32) -> UvBound {
    UvBound {
        min_x: min_x.to_bits(),
        max_x: max_x.to_bits(),
        min_y: min_y.to_bits(),
        max_y: max_y.to_bits(),
    }
}

fn make_subset(sources: &Sources, texture: &str, has_alpha: bool) -> Subset {
    make_subset_with_flags(sources, texture, has_alpha, false)
}

fn make_subset_with_flags(sources: &Sources, texture: &str, has_alpha: bool, has_uv_controller: bool) -> Subset {
    let mut subset = Subset::default();
    subset.texture = SubsetTexture::Source(sources.sym(texture));
    subset.has_alpha = has_alpha;
    subset.has_uv_controller = has_uv_controller;
    subset.vertices.push(Vertex { uv_bound: bound(0.0, 1.0, 0.0, 1.0), ..Vertex::default() });
    subset
}

fn one_static(key: &str, subsets: Vec<Subset>) -> (String, DistantStatic) {
    let mut distant_static = DistantStatic::default();
    distant_static.subsets = subsets;
    (key.to_owned(), distant_static)
}

fn opaque_statics(sources: &Sources, textures: &[&str]) -> DistantStatics {
    vec![one_static("test", textures.iter().map(|texture| make_subset(sources, texture, false)).collect())]
}

fn mixed_statics(sources: &Sources, opaque: &[&str], alpha: &[&str]) -> DistantStatics {
    let mut subsets: Vec<Subset> = opaque.iter().map(|texture| make_subset(sources, texture, false)).collect();
    subsets.extend(alpha.iter().map(|texture| make_subset(sources, texture, true)));
    vec![one_static("test", subsets)]
}

fn frame_map(entries: &[(&str, usize, UvBound)]) -> FrameMap {
    let mut map = TextMap::new();
    for (key, page, uv) in entries {
        map.insert((*key).to_owned(), (*page, *uv));
    }
    map
}

fn leaf_statics(sources: &Sources) -> DistantStatics {
    mixed_statics(sources, &["shared\\leaf.dds"], &["shared\\leaf.dds"])
}

fn uv_tuple(bound: &UvBound) -> (f32, f32, f32, f32) {
    (
        f32::from_bits(bound.min_x),
        f32::from_bits(bound.max_x),
        f32::from_bits(bound.min_y),
        f32::from_bits(bound.max_y),
    )
}

fn first_bound(subset: &Subset) -> (f32, f32, f32, f32) {
    uv_tuple(&subset.vertices[0].uv_bound)
}

#[test]
fn cached_uv_bounds_apply_alpha_specific_entries() {
    let mut sources = Sources::new();
    sources.write_unreadable("shared\\leaf.dds", b"shared");
    let mut statics = leaf_statics(&sources);
    let cached = |uv: UvBound| CachedUvBound {
        path: "shared\\leaf.dds".into(),
        page: 0,
        min_x: uv.min_x,
        max_x: uv.max_x,
        min_y: uv.min_y,
        max_y: uv.max_y,
    };
    let opaque_map = cached_uv_map(&[cached(bound(0.1, 0.2, 0.3, 0.4))]);
    let alpha_map = cached_uv_map(&[cached(bound(0.6, 0.7, 0.8, 0.9))]);
    update_uv_bounds_from_maps(&mut statics, &opaque_map, &alpha_map, &sources.names()).unwrap();

    let subsets = &statics[0].1.subsets;
    assert_eq!(first_bound(&subsets[0]).0, 0.1);
    assert_eq!(first_bound(&subsets[0]).3, 0.4);
    assert_eq!(subsets[0].texture, SubsetTexture::AtlasPage(0));
    assert_eq!(first_bound(&subsets[1]).0, 0.6);
    assert_eq!(first_bound(&subsets[1]).3, 0.9);
    assert_eq!(subsets[1].texture, SubsetTexture::AtlasPage(0));
}

#[test]
fn update_uv_bounds_from_maps_uses_page_id_in_texture_path() {
    let mut sources = Sources::new();
    sources.write_unreadable("shared\\leaf.dds", b"shared");
    let mut statics = leaf_statics(&sources);
    let opaque_map = frame_map(&[("shared\\leaf.dds", 0, bound(0.1, 0.2, 0.3, 0.4))]);
    let alpha_map = frame_map(&[("shared\\leaf.dds", 1, bound(0.6, 0.7, 0.8, 0.9))]);

    update_uv_bounds_from_maps(&mut statics, &opaque_map, &alpha_map, &sources.names()).unwrap();

    let subsets = &statics[0].1.subsets;
    assert_eq!(first_bound(&subsets[0]).0, 0.1);
    assert_eq!(subsets[0].texture, SubsetTexture::AtlasPage(0));
    assert_eq!(first_bound(&subsets[1]).0, 0.6);
    assert_eq!(subsets[1].texture, SubsetTexture::AtlasPage(1));
}

#[test]
fn update_uv_bounds_from_maps_reuses_page_texture_paths() {
    let mut sources = Sources::new();
    let first = sources.write_unreadable("shared\\leaf.dds", b"first");
    let second = sources.write_unreadable("shared\\bark.dds", b"second");
    let mut statics = opaque_statics(&sources, &[&first, &second]);
    let opaque_map = frame_map(&[
        ("shared\\leaf.dds", 0, bound(0.1, 0.2, 0.3, 0.4)),
        ("shared\\bark.dds", 0, bound(0.5, 0.6, 0.7, 0.8)),
    ]);

    update_uv_bounds_from_maps(&mut statics, &opaque_map, &frame_map(&[]), &sources.names()).unwrap();

    let subsets = &statics[0].1.subsets;
    assert_eq!(subsets[0].texture, SubsetTexture::AtlasPage(0));
    assert_eq!(subsets[1].texture, SubsetTexture::AtlasPage(0));
}

#[test]
fn collect_textures_skips_uv_animated_subsets() {
    let mut sources = Sources::new();
    let animated_only = sources.write_unreadable("animated\\ghost.dds", b"animated");
    let normal_only = sources.write_unreadable("static\\stone.dds", b"normal");
    let statics = vec![one_static(
        "test",
        vec![
            make_subset_with_flags(&sources, &animated_only, false, true),
            make_subset_with_flags(&sources, &normal_only, false, false),
        ],
    )];

    let textures = AtlasTextureSet::from_distant_statics(&sources.names(), &statics);

    assert_eq!(textures.opaque, vec![normal_only]);
    assert!(textures.alpha.is_empty());
}

#[test]
fn update_uv_bounds_from_maps_leaves_uv_animated_subsets_unmodified() {
    let mut sources = Sources::new();
    let shared = sources.write_unreadable("shared\\leaf.dds", b"shared");
    let mut statics = vec![one_static(
        "test",
        vec![
            make_subset_with_flags(&sources, &shared, false, true),
            make_subset_with_flags(&sources, &shared, false, false),
        ],
    )];
    let animated_texture = statics[0].1.subsets[0].texture;
    let opaque_map = frame_map(&[("shared\\leaf.dds", 0, bound(0.1, 0.2, 0.3, 0.4))]);

    update_uv_bounds_from_maps(&mut statics, &opaque_map, &frame_map(&[]), &sources.names()).unwrap();

    let subsets = &statics[0].1.subsets;
    assert_eq!(animated_texture, subsets[0].texture);
    assert_eq!(first_bound(&subsets[0]), (0.0, 1.0, 0.0, 1.0));
    assert_eq!(first_bound(&subsets[1]), (0.1, 0.2, 0.3, 0.4));
    assert_eq!(subsets[1].texture, SubsetTexture::AtlasPage(0));
}

#[test]
fn collect_textures_skips_grass_statics() {
    let mut sources = Sources::new();
    let grass_only = sources.write_unreadable("grass\\blade.dds", b"grass");
    let normal_first = sources.write_unreadable("static\\z.dds", b"normal-z");
    let normal_second = sources.write_unreadable("static\\a.dds", b"normal-a");

    let mut grass = one_static("grass", vec![make_subset(&sources, &grass_only, false)]);
    grass.1.static_type = StaticType::StaticGrass;
    let normal = one_static(
        "normal",
        vec![
            make_subset(&sources, &normal_first, false),
            make_subset(&sources, &normal_second, false),
            make_subset(&sources, &normal_first, false),
        ],
    );

    let textures = AtlasTextureSet::from_distant_statics(&sources.names(), &vec![grass, normal]);

    assert_eq!(textures.opaque, vec![normal_second, normal_first]);
    assert!(textures.alpha.is_empty());
}

#[test]
fn update_uv_bounds_from_maps_leaves_grass_statics_unmodified() {
    let mut sources = Sources::new();
    let shared = sources.write_unreadable("shared\\leaf.dds", b"shared");
    let mut grass = one_static("grass", vec![make_subset(&sources, &shared, false)]);
    grass.1.static_type = StaticType::StaticGrass;
    let normal = one_static("normal", vec![make_subset(&sources, &shared, false)]);
    let mut statics = vec![grass, normal];
    let grass_texture = statics[0].1.subsets[0].texture;
    let opaque_map = frame_map(&[("shared\\leaf.dds", 0, bound(0.1, 0.2, 0.3, 0.4))]);

    update_uv_bounds_from_maps(&mut statics, &opaque_map, &frame_map(&[]), &sources.names()).unwrap();

    // Grass keeps its source texture and identity bound; the normal static is atlased.
    let grass_subsets = &statics[0].1.subsets;
    assert_eq!(grass_texture, grass_subsets[0].texture);
    assert_eq!(first_bound(&grass_subsets[0]), (0.0, 1.0, 0.0, 1.0));
    let normal_subsets = &statics[1].1.subsets;
    assert_eq!(first_bound(&normal_subsets[0]), (0.1, 0.2, 0.3, 0.4));
    assert_eq!(normal_subsets[0].texture, SubsetTexture::AtlasPage(0));
}

#[test]
fn missing_static_texture_error_key_is_collected_in_both_atlas_pools() {
    let sources = Sources::new();
    let mut statics = mixed_statics(&sources, &["missing_opaque.dds"], &["missing_alpha.dds"]);
    let textures = AtlasTextureSet::from_distant_statics(&sources.names(), &statics);
    assert_eq!(textures.opaque, vec![ERROR_KEY.to_owned()]);
    assert_eq!(textures.alpha, vec![ERROR_KEY.to_owned()]);

    let opaque_map = frame_map(&[(ERROR_KEY, 0, bound(0.1, 0.2, 0.3, 0.4))]);
    let alpha_map = frame_map(&[(ERROR_KEY, 1, bound(0.5, 0.6, 0.7, 0.8))]);
    update_uv_bounds_from_maps(&mut statics, &opaque_map, &alpha_map, &sources.names()).unwrap();

    let subsets = &statics[0].1.subsets;
    assert_eq!(first_bound(&subsets[0]).0, 0.1);
    assert_eq!(subsets[0].texture, SubsetTexture::AtlasPage(0));
    assert_eq!(first_bound(&subsets[1]).0, 0.5);
    assert_eq!(subsets[1].texture, SubsetTexture::AtlasPage(1));
}

/// A DDS file of four by four texels.
fn error_texture() -> Vec<u8> {
    let mut bytes = vec![0u8; 128 + 64];
    bytes[..4].copy_from_slice(b"DDS ");
    bytes[4..8].copy_from_slice(&124u32.to_le_bytes());
    bytes[12..16].copy_from_slice(&4u32.to_le_bytes());
    bytes[16..20].copy_from_slice(&4u32.to_le_bytes());
    bytes
}

#[test]
fn embedded_error_texture_fingerprint_is_collected() {
    let texture = error_texture();
    let mut info = TextMap::new();
    info.insert(ERROR_KEY.to_owned(), source_info_from_bytes(ERROR_KEY, &texture));
    let textures = AtlasTextureSet::new(vec![ERROR_KEY.to_owned()], Vec::new());

    let fingerprints = fingerprints_from_source_info(&info, &textures).opaque;

    assert_eq!(fingerprints.len(), 1);
    assert_eq!(fingerprints[0].0, texture.len() as u64);
}

#[test]
fn probe_dds_reads_embedded_error_texture_dimensions() {
    let (w, h, mips, is_dds) = probe_dimensions(ERROR_KEY, &error_texture());
    assert_eq!((w, h, is_dds), (4, 4, true));
    assert!(mips >= 1);
}

#[test]
fn missing_cached_uv_bound_returns_contextual_error() {
    let mut sources = Sources::new();
    let texture = sources.write_unreadable("shared\\leaf.dds", b"shared");
    let mut statics = opaque_statics(&sources, &[&texture]);

    let error = update_uv_bounds_from_maps(&mut statics, &frame_map(&[]), &frame_map(&[]), &sources.names())
        .unwrap_err()
        .message();

    assert!(error.contains("missing opaque atlas UV bounds"));
    assert!(error.contains("shared\\leaf.dds"));
}

#[test]
fn an_update_without_a_source_or_a_key_is_an_error() {
    let sources = Sources::new();
    let empty = frame_map(&[]);
    let mut statics = opaque_statics(&sources, &["x.dds"]);
    statics[0].1.subsets[0].texture = SubsetTexture::AtlasPage(3);
    let error = update_uv_bounds_from_maps(&mut statics, &empty, &empty, &sources.names()).unwrap_err();
    assert!(matches!(error, UvUpdateError::NoSource { domain: AtlasDomain::Opaque }));

    statics[0].1.subsets[0].texture = SubsetTexture::Source(TextureSym(99));
    statics[0].1.subsets[0].has_alpha = true;
    let error = update_uv_bounds_from_maps(&mut statics, &empty, &empty, &sources.names()).unwrap_err();
    assert!(matches!(error, UvUpdateError::Unresolved { domain: AtlasDomain::Alpha }));
}

#[test]
fn visible_content_fingerprint_ignores_pixels_outside_trimmed_source() {
    let mut first = solid(4, 4, [0, 0, 0, 0]);
    let put = |image: &mut PixelImage, x: usize, y: usize, color: [u8; 4]| {
        let start = (y * 4 + x) * 4;
        image.pixels[start..start + 4].copy_from_slice(&color);
    };
    for y in 1..3 {
        for x in 1..3 {
            put(&mut first, x, y, [40, 80, 120, 255]);
        }
    }
    let source = Rect::new(1, 1, 2, 2);
    let fingerprint = visible_content_fingerprint(&first, source);

    let mut outside_changed = PixelImage { width: 4, height: 4, pixels: first.pixels.clone() };
    put(&mut outside_changed, 0, 0, [255, 0, 0, 255]);
    assert_eq!(fingerprint, visible_content_fingerprint(&outside_changed, source));

    put(&mut first, 1, 1, [0, 255, 0, 255]);
    assert_ne!(fingerprint, visible_content_fingerprint(&first, source));
}

#[test]
fn visible_content_fingerprint_is_the_digest_of_the_framed_rows() {
    let image = PixelImage { width: 2, height: 2, pixels: (0u8..16).collect() };
    let mut framed = Vec::new();
    framed.extend_from_slice(&1u32.to_le_bytes());
    framed.extend_from_slice(&2u32.to_le_bytes());
    framed.extend_from_slice(&[4, 5, 6, 7, 12, 13, 14, 15]);
    assert_eq!(
        visible_content_fingerprint(&image, Rect::new(1, 0, 1, 2)),
        *blake3::hash(&framed).as_bytes()
    );
}

#[test]
fn large_texture_does_not_fail_atlas_packing() {
    // A 4200 by 1 source, limited to a longest side of 4096.
    let image = solid(4096, 1, [0, 0, 0, 0]);
    let (prepared, _alias) = prepare_textures(vec![decoded("large.tga", image)], TextureDedupeMode::Exact);
    assert!(pack_layout_only(&prepared.layout_items, TEST_GPU_MAX).is_ok());
}

#[test]
fn trimmed_sources_pack_to_their_visible_rectangle() {
    let mut trimmed = solid(10, 8, [0, 0, 0, 0]);
    for y in 2..6 {
        for x in 3..8 {
            let start = (y * 10 + x) * 4;
            trimmed.pixels[start..start + 4].copy_from_slice(&[40, 80, 220, 255]);
        }
    }
    let (prepared, _alias) =
        prepare_textures(vec![decoded("streaming\\trimmed.tga", trimmed)], TextureDedupeMode::Off);
    assert_eq!(prepared.prepared_source_bytes, 10 * 8 * 4);
    assert_eq!(prepared.decoded_texture_count, 1);
    let pages = pack_layout_only(&prepared.layout_items, TEST_GPU_MAX).unwrap();
    let frame = &pages[0].frames[0];
    assert!(frame.trimmed);
    assert_eq!((frame.source.x, frame.source.y, frame.source.w, frame.source.h), (3, 2, 5, 4));
    assert_eq!((frame.frame.w, frame.frame.h), (5, 4));
    assert_eq!(frame.source_size, (10, 8));
}

fn texel(image: &PixelImage, x: u32, y: u32) -> [u8; 4] {
    let start = ((y * image.width + x) * 4) as usize;
    [image.pixels[start], image.pixels[start + 1], image.pixels[start + 2], image.pixels[start + 3]]
}

#[test]
fn planned_page_composes_trimmed_sources_at_their_frame_origin() {
    let visible = [40, 80, 220, 255];
    let mut trimmed = solid(10, 8, [0, 0, 0, 0]);
    for y in 2..6 {
        for x in 3..8 {
            let start = (y * 10 + x) * 4;
            trimmed.pixels[start..start + 4].copy_from_slice(&visible);
        }
    }
    let (prepared, _alias) =
        prepare_textures(vec![decoded("streaming\\trimmed.tga", trimmed)], TextureDedupeMode::Off);
    let pages = pack_layout_only(&prepared.layout_items, TEST_GPU_MAX).unwrap();
    let page = &pages[0];
    let frame = &page.frames[0];
    assert!(can_compose(&prepared.images, page));
    let composed = compose_planned_page(&prepared.images, page);
    assert_eq!((composed.width, composed.height), (page.width, page.height));
    for y in 0..frame.source.h {
        for x in 0..frame.source.w {
            assert_eq!(texel(&composed, frame.frame.x + x, frame.frame.y + y), visible);
        }
    }
}

#[test]
fn composed_pages_continue_edges_and_leave_the_rest_blank() {
    let mut image = solid(2, 1, [1, 2, 3, 255]);
    image.pixels[4..8].copy_from_slice(&[9, 8, 7, 255]);
    let mut images = TextMap::new();
    images.insert("a".to_owned(), image);
    let frame = Frame {
        key: "a".to_owned(),
        frame: Rect::new(24, 20, 2, 1),
        rotated: false,
        trimmed: false,
        source: Rect::new(0, 0, 2, 1),
        source_size: (2, 1),
    };
    let page = Page { id: 0, width: 64, height: 64, frames: vec![frame] };
    let composed = compose_planned_page(&images, &page);
    assert_eq!(texel(&composed, 24, 20), [1, 2, 3, 255]);
    assert_eq!(texel(&composed, 25, 20), [9, 8, 7, 255]);
    // Sixteen texels around, in rows, columns and corners.
    assert_eq!(texel(&composed, 8, 20), [1, 2, 3, 255]);
    assert_eq!(texel(&composed, 41, 36), [9, 8, 7, 255]);
    assert_eq!(texel(&composed, 24, 4), [1, 2, 3, 255]);
    assert_eq!(texel(&composed, 8, 4), [1, 2, 3, 255]);
    assert_eq!(texel(&composed, 7, 20), [0, 0, 0, 0]);
    assert_eq!(texel(&composed, 42, 20), [0, 0, 0, 0]);
    assert_eq!(texel(&composed, 24, 37), [0, 0, 0, 0]);
}

#[test]
fn turned_frames_show_their_texture_turned() {
    let mut image = solid(2, 1, [1, 1, 1, 255]);
    image.pixels[4..8].copy_from_slice(&[2, 2, 2, 255]);
    let mut images = TextMap::new();
    images.insert("a".to_owned(), image);
    let frame = Frame {
        key: "a".to_owned(),
        frame: Rect::new(30, 30, 1, 2),
        rotated: true,
        trimmed: false,
        source: Rect::new(0, 0, 2, 1),
        source_size: (2, 1),
    };
    let page = Page { id: 0, width: 64, height: 64, frames: vec![frame] };
    let composed = compose_planned_page(&images, &page);
    assert_eq!(texel(&composed, 30, 30), [1, 1, 1, 255]);
    assert_eq!(texel(&composed, 30, 31), [2, 2, 2, 255]);
}

#[test]
fn pages_with_missing_or_oversized_frames_cannot_be_composed() {
    let mut images = TextMap::new();
    images.insert("a".to_owned(), solid(4, 4, [1, 2, 3, 255]));
    let page = |key: &str, x: u32, source: Rect| Page {
        id: 0,
        width: 64,
        height: 64,
        frames: vec![Frame {
            key: key.to_owned(),
            frame: Rect::new(x, 24, 4, 4),
            rotated: false,
            trimmed: false,
            source,
            source_size: (4, 4),
        }],
    };
    assert!(can_compose(&images, &page("a", 24, Rect::new(0, 0, 4, 4))));
    assert!(!can_compose(&images, &page("b", 24, Rect::new(0, 0, 4, 4))));
    assert!(!can_compose(&images, &page("a", 61, Rect::new(0, 0, 4, 4))));
    assert!(!can_compose(&images, &page("a", 24, Rect::new(1, 0, 4, 4))));
    assert!(!can_compose(&images, &page("a", 24, Rect::new(0, 0, 0, 4))));
}

#[test]
fn alias_map_sends_equal_prints_to_the_first_key() {
    let keys: Vec<String> = ["a", "b", "c"].iter().map(|key| (*key).to_owned()).collect();
    let (canonicals, map) = build_alias_map(&keys, &[(1, [1; 32]), (1, [2; 32]), (1, [1; 32])]);
    assert_eq!(canonicals, vec!["a".to_owned(), "b".to_owned()]);
    assert_eq!(map.get("c").unwrap(), "a");
    assert_eq!(map.get("b").unwrap(), "b");
    // Equal digests of different lengths stay apart.
    let (canonicals, _) = build_alias_map(&keys[..2], &[(1, [1; 32]), (2, [1; 32])]);
    assert_eq!(canonicals.len(), 2);
}

fn atlas_inventory_paths(cache: &AtlasCache) -> Vec<String> {
    let mut paths = Vec::new();
    for (prefix, count) in
        [(OPAQUE_ATLAS_PREFIX, cache.opaque.pages.len()), (ALPHA_ATLAS_PREFIX, cache.alpha.pages.len())]
    {
        for page in 0..count {
            paths.push(format!(r"statics\textures\{}", atlas_page_string(prefix, page)));
        }
    }
    paths
}

fn manage(
    sources: &Sources,
    statics: &mut DistantStatics,
    mode: TextureDedupeMode,
    atlas_max: u32,
    cache: Option<&AtlasCache>,
) -> (AtlasManager, AtlasPublishPlan) {
    let names = sources.names();
    let textures = AtlasTextureSet::from_distant_statics(&names, statics);
    let fingerprints =
        AtlasTextureSet::new(sources.fingerprints(&textures.opaque), sources.fingerprints(&textures.alpha));
    let committed = match cache {
        Some(cache) => atlas_inventory_paths(cache),
        None => Vec::new(),
    };
    let manager = AtlasManager::setup_with_cache_state(
        &ratio,
        SizingPlan::uniform(TEST_MAX_TEXTURE_DIM),
        mode,
        atlas_max,
        RECIPE,
        fingerprints,
        "textures".to_owned(),
        cache.cloned(),
        &committed,
    );
    let request = |domain: AtlasDomain, keys: Vec<String>| {
        let shared = format!("{:?}", manager.shared_config()).into_bytes();
        let family = format!("{:?}", manager.family_config(domain)).into_bytes();
        manager.family_request(domain, keys, shared, family)
    };
    let requests = AtlasTextureSet::new(
        request(AtlasDomain::Opaque, textures.opaque),
        request(AtlasDomain::Alpha, textures.alpha),
    );
    let decode = |request| {
        let wanted = manager.decode_requests(request);
        wanted
            .iter()
            .map(|entry| {
                let source = sources.source(&entry.key);
                assert_eq!(entry.longest, TEST_MAX_TEXTURE_DIM);
                decoded(&entry.key, solid(source.size, source.size, source.color))
            })
            .collect::<Vec<DecodedTexture>>()
    };
    let inputs = PlanInputs {
        decoded: AtlasTextureSet::new(decode(&requests.opaque), decode(&requests.alpha)),
        requests,
    };
    let plan = manager.plan(&ratio, inputs, &names, statics).unwrap();
    (manager, plan)
}

fn plan_exact(sources: &Sources, statics: &mut DistantStatics, cache: Option<&AtlasCache>) -> AtlasPublishPlan {
    manage(sources, statics, TextureDedupeMode::Exact, ATLAS_MAX, cache).1
}

/// Relative paths of the pages that the plan composes.
fn written_pages(plan: &AtlasPublishPlan) -> Vec<String> {
    let mut written = Vec::new();
    for job in plan.render_jobs() {
        let (publish, format) = match job.domain {
            AtlasDomain::Opaque => (&plan.opaque, PageFormat::Dxt1),
            AtlasDomain::Alpha => (&plan.alpha, PageFormat::Dxt5),
        };
        let publish = publish.as_ref().unwrap();
        let built = build_page(&publish.pages[job.position]).unwrap();
        assert!(can_compose(&publish.images, built));
        assert_eq!(job.format, format);
        assert_eq!(built.id, job.position);
        let path = atlas_page_relative_path(job.domain, job.position);
        assert!(path.ends_with(&job.name));
        written.push(path);
    }
    written
}

#[test]
fn exact_dedupe_aliases_identical_source_bytes() {
    let mut sources = Sources::new();
    sources.write_unreadable("dedupe\\a.dds", b"identical-bytes");
    sources.write_unreadable("dedupe\\b.dds", b"identical-bytes");
    let mut statics = opaque_statics(&sources, &["dedupe\\a.dds", "dedupe\\b.dds"]);

    manage(&sources, &mut statics, TextureDedupeMode::Exact, TEST_GPU_MAX, None);

    let subsets = &statics[0].1.subsets;
    assert_eq!(first_bound(&subsets[0]), first_bound(&subsets[1]));
    assert_eq!(subsets[0].texture, subsets[1].texture);
}

#[test]
fn exact_dedupe_aliases_decoded_identical_but_off_keeps_separate() {
    // Two sources with different bytes that both decode to nothing have the same placeholder.
    for (mode, same) in [(TextureDedupeMode::Exact, true), (TextureDedupeMode::Off, false)] {
        let mut sources = Sources::new();
        sources.write_unreadable("dedupe\\a.dds", b"alpha-bytes");
        sources.write_unreadable("dedupe\\b.dds", b"bravo-bytes");
        let mut statics = opaque_statics(&sources, &["dedupe\\a.dds", "dedupe\\b.dds"]);
        manage(&sources, &mut statics, mode, TEST_GPU_MAX, None);
        let subsets = &statics[0].1.subsets;
        assert_eq!(first_bound(&subsets[0]) == first_bound(&subsets[1]), same, "{mode:?}");
    }
}

#[test]
fn dedupe_cache_hit_reproduces_per_original_uvs() {
    let mut sources = Sources::new();
    sources.write_unreadable("dedupe\\a.dds", b"identical-bytes");
    sources.write_unreadable("dedupe\\b.dds", b"identical-bytes");
    let keys = ["dedupe\\a.dds", "dedupe\\b.dds"];

    let mut fresh = opaque_statics(&sources, &keys);
    let (first, plan) = manage(&sources, &mut fresh, TextureDedupeMode::Exact, TEST_GPU_MAX, None);
    assert!(first.prior.opaque.is_none() && first.prior.alpha.is_none(), "first run should miss the cache");

    let mut cached = opaque_statics(&sources, &keys);
    let (second, _) =
        manage(&sources, &mut cached, TextureDedupeMode::Exact, TEST_GPU_MAX, Some(&plan.cache));
    assert!(second.prior.opaque.is_some() && second.prior.alpha.is_some(), "second run should hit the cache");

    let f = &fresh[0].1.subsets;
    let c = &cached[0].1.subsets;
    assert_eq!(first_bound(&c[0]), first_bound(&f[0]));
    assert_eq!(first_bound(&c[1]), first_bound(&f[1]));
    assert_eq!(first_bound(&c[0]), first_bound(&c[1]));
}

#[test]
fn stable_layout_edit_builds_only_the_consuming_page_then_hits_cache() {
    let mut sources = Sources::new();
    let a = sources.write_rgba(r"stable\a.bmp", [220, 30, 20, 255]);
    let b = sources.write_rgba(r"stable\b.bmp", [20, 80, 220, 255]);

    let mut first_statics = opaque_statics(&sources, &[&a, &b]);
    let first_plan = plan_exact(&sources, &mut first_statics, None);
    let first_cache = first_plan.cache.clone();
    assert_eq!(first_plan.metrics().built_page_counts.opaque, 2);
    let a_slot = first_cache.opaque.key_slots.iter().find(|relation| relation.path == a).unwrap().slot_id;
    let a_page =
        first_cache.opaque.slots.iter().find(|slot| slot.slot_id == a_slot).unwrap().page_id as usize;
    assert_eq!(written_pages(&first_plan).len(), 2);

    sources.write_rgba(r"stable\a.bmp", [30, 220, 80, 255]);
    let mut second_statics = opaque_statics(&sources, &[&a, &b]);
    let second_plan = plan_exact(&sources, &mut second_statics, Some(&first_cache));
    assert!(second_plan.metrics().layout_hits.opaque);
    assert!(second_plan.metrics().layout_hits.alpha);
    assert_eq!(second_plan.metrics().built_page_counts.opaque, 1);
    assert_eq!(second_plan.metrics().carried_page_counts.opaque, 1);
    assert_eq!(second_plan.metrics().built_page_counts.alpha, 0);
    assert_eq!(second_plan.binding_digest(), first_plan.binding_digest());
    assert!(!second_plan.cache_hit());
    assert_eq!(second_plan.metrics().family_metrics.opaque.binding_delta.added, 0);
    assert_eq!(second_plan.metrics().family_metrics.opaque.binding_delta.removed, 0);
    assert_eq!(second_plan.metrics().family_metrics.opaque.binding_delta.changed, 0);
    assert_eq!(second_plan.metrics().family_metrics.opaque.binding_delta.unchanged, 2);
    assert_eq!(written_pages(&second_plan), vec![atlas_page_relative_path(AtlasDomain::Opaque, a_page)]);
    assert_eq!(
        second_plan.carried_relative_paths(),
        vec![atlas_page_relative_path(AtlasDomain::Opaque, 1 - a_page)]
    );

    let mut third_statics = opaque_statics(&sources, &[&a, &b]);
    let third_plan = plan_exact(&sources, &mut third_statics, Some(&second_plan.cache));
    assert!(third_plan.cache_hit());
    assert_eq!(third_plan.metrics().dirty_page_count, 0);
    assert_eq!(third_plan.metrics().decoded_texture_count, 0);
}

#[test]
fn exact_alias_addition_reuses_the_existing_slot_without_page_writes() {
    let mut sources = Sources::new();
    let a = sources.write_rgba(r"alias\a.bmp", [80, 120, 200, 255]);
    let b = sources.write_rgba(r"alias\b.bmp", [80, 120, 200, 255]);

    let mut first_statics = opaque_statics(&sources, &[&a]);
    let first_plan = plan_exact(&sources, &mut first_statics, None);
    let first_slot = first_plan.cache.opaque.key_slots[0].slot_id;

    let mut second_statics = opaque_statics(&sources, &[&a, &b]);
    let second_plan = plan_exact(&sources, &mut second_statics, Some(&first_plan.cache));
    assert_eq!(second_plan.cache.opaque.slots.len(), 1);
    assert!(second_plan.cache.opaque.key_slots.iter().all(|relation| relation.slot_id == first_slot));
    assert_eq!(second_plan.metrics().built_page_counts.opaque, 0);
    assert_eq!(second_plan.metrics().carried_page_counts.opaque, 1);
    assert_eq!(second_plan.metrics().family_metrics.opaque.retained_slots, 1);
    assert_eq!(second_plan.metrics().family_metrics.opaque.allocated_slots, 0);
    assert_eq!(second_plan.metrics().family_metrics.opaque.binding_delta.added, 1);
    assert_eq!(second_plan.metrics().family_metrics.opaque.binding_delta.changed, 0);
    assert!(!second_plan.cache_hit());

    let mut third_statics = opaque_statics(&sources, &[&a, &b]);
    let third_plan = plan_exact(&sources, &mut third_statics, Some(&second_plan.cache));
    assert!(third_plan.cache_hit());
    assert_eq!(third_plan.metrics().dirty_page_count, 0);
}

#[test]
fn removing_dedupe_provider_promotes_survivor_without_moving_or_writing() {
    let mut sources = Sources::new();
    let a = sources.write_rgba(r"provider\a.bmp", [160, 90, 40, 255]);
    let b = sources.write_rgba(r"provider\b.bmp", [160, 90, 40, 255]);

    let mut first_statics = opaque_statics(&sources, &[&a, &b]);
    let first_plan = plan_exact(&sources, &mut first_statics, None);
    assert_eq!(first_plan.cache.opaque.slots[0].provider_key, a);
    let first_slot = first_plan.cache.opaque.slots[0].clone();

    let mut second_statics = opaque_statics(&sources, &[&b]);
    let second_plan = plan_exact(&sources, &mut second_statics, Some(&first_plan.cache));
    let promoted = &second_plan.cache.opaque.slots[0];
    assert_eq!(promoted.slot_id, first_slot.slot_id);
    assert_eq!(promoted.page_id, first_slot.page_id);
    assert_eq!(promoted.reserved_rect, first_slot.reserved_rect);
    assert_eq!(promoted.destination, first_slot.destination);
    assert_eq!(promoted.provider_key, b);
    assert_eq!(second_plan.metrics().built_page_counts.opaque, 0);
    assert_eq!(second_plan.metrics().carried_page_counts.opaque, 1);
    assert_eq!(second_plan.metrics().family_metrics.opaque.provider_promoted_slots, 1);
    assert_eq!(second_plan.metrics().family_metrics.opaque.binding_delta.removed, 1);
    assert_eq!(second_plan.metrics().family_metrics.opaque.binding_delta.changed, 0);
    assert_eq!(second_plan.metrics().family_metrics.opaque.binding_delta.unchanged, 1);
    assert!(!second_plan.cache_hit());
}

#[test]
fn dimension_change_repacks_only_the_affected_family() {
    let mut sources = Sources::new();
    let a = sources.write_rgba(r"repack\a.bmp", [220, 30, 20, 255]);
    let b = sources.write_rgba(r"repack\b.bmp", [20, 80, 220, 255]);
    let alpha = sources.write_rgba(r"repack\alpha.bmp", [20, 80, 220, 128]);

    let mut first_statics = mixed_statics(&sources, &[&a, &b], &[&alpha]);
    let first_plan = plan_exact(&sources, &mut first_statics, None);
    assert_eq!(first_plan.metrics().built_page_counts.opaque, 2);
    assert_eq!(first_plan.metrics().built_page_counts.alpha, 1);

    // One opaque source at a different dimension changes the opaque family's layout input, while
    // the untouched alpha family still matches on exact fingerprints alone.
    sources.write_sized_rgba(r"repack\a.bmp", 64, [220, 30, 20, 255]);
    let mut second_statics = mixed_statics(&sources, &[&a, &b], &[&alpha]);
    let second_plan = plan_exact(&sources, &mut second_statics, Some(&first_plan.cache));
    assert!(!second_plan.metrics().layout_hits.opaque, "the resized family must miss its cached layout");
    assert!(second_plan.metrics().layout_hits.alpha, "the untouched family must keep its cached layout");
    assert_eq!(second_plan.metrics().built_page_counts.opaque, 1);
    assert_eq!(second_plan.metrics().carried_page_counts.opaque, 1);
    assert_eq!(second_plan.metrics().built_page_counts.alpha, 0);
    assert_eq!(second_plan.metrics().carried_page_counts.alpha, 1);
    assert_eq!(second_plan.metrics().family_metrics.opaque.relocated_slots, 1);
    assert_eq!(second_plan.metrics().family_metrics.opaque.binding_delta.changed, 1);
    assert_ne!(second_plan.binding_digest(), first_plan.binding_digest());
    assert!(!second_plan.cache_hit());

    // Only the repacked family's pages are rewritten; the carried alpha page stays untouched.
    let written = written_pages(&second_plan);
    assert_eq!(written.len(), 1, "written: {written:?}");
    assert!(!written.contains(&atlas_page_relative_path(AtlasDomain::Alpha, 0)));

    let mut third_statics = mixed_statics(&sources, &[&a, &b], &[&alpha]);
    let third_plan = plan_exact(&sources, &mut third_statics, Some(&second_plan.cache));
    assert!(third_plan.cache_hit());
    assert_eq!(third_plan.metrics().dirty_page_count, 0);
}

#[test]
fn alpha_only_stable_edit_carries_the_opaque_family() {
    let mut sources = Sources::new();
    let opaque = sources.write_rgba(r"stable\opaque.bmp", [220, 30, 20, 255]);
    let alpha = sources.write_rgba(r"stable\alpha.bmp", [20, 80, 220, 128]);

    let mut first_statics = mixed_statics(&sources, &[&opaque], &[&alpha]);
    let first_plan = plan_exact(&sources, &mut first_statics, None);

    sources.write_rgba(r"stable\alpha.bmp", [220, 180, 20, 128]);
    let mut second_statics = mixed_statics(&sources, &[&opaque], &[&alpha]);
    let second_plan = plan_exact(&sources, &mut second_statics, Some(&first_plan.cache));

    assert!(second_plan.metrics().layout_hits.opaque);
    assert!(second_plan.metrics().layout_hits.alpha);
    assert_eq!(second_plan.metrics().carried_page_counts.opaque, 1);
    assert_eq!(second_plan.metrics().built_page_counts.opaque, 0);
    assert_eq!(second_plan.metrics().carried_page_counts.alpha, 0);
    assert_eq!(second_plan.metrics().built_page_counts.alpha, 1);
    assert_eq!(second_plan.binding_digest(), first_plan.binding_digest());
}

/// Adding a distinct opaque key reconciles that family while alpha carries completely.
#[test]
fn opaque_membership_change_reconciles_opaque_and_carries_alpha() {
    let mut sources = Sources::new();
    let opaque = sources.write_rgba(r"member\opaque.bmp", [220, 30, 20, 255]);
    let alpha = sources.write_rgba(r"member\alpha.bmp", [20, 80, 220, 128]);

    let mut first_statics = mixed_statics(&sources, &[&opaque], &[&alpha]);
    let first_plan = plan_exact(&sources, &mut first_statics, None);
    let first_cache = &first_plan.cache;

    let opaque_b = sources.write_rgba(r"member\opaque_b.bmp", [30, 180, 40, 255]);
    let mut second_statics = mixed_statics(&sources, &[&opaque, &opaque_b], &[&alpha]);
    let (second_manager, second_plan) =
        manage(&sources, &mut second_statics, TextureDedupeMode::Exact, ATLAS_MAX, Some(first_cache));
    assert!(second_manager.prior.opaque.is_some());
    assert!(second_manager.prior.alpha.is_some());
    assert!(!second_plan.metrics().layout_hits.opaque);
    assert!(second_plan.metrics().layout_hits.alpha);
    assert!(second_plan.metrics().built_page_counts.opaque > 0);
    assert_eq!(second_plan.metrics().family_metrics.opaque.plan_mode, AtlasFamilyPlanMode::Reconciled);
    let slot_of = |cache: &AtlasCache| {
        cache.opaque.key_slots.iter().find(|entry| entry.path == opaque).unwrap().slot_id
    };
    assert_eq!(slot_of(&second_plan.cache), slot_of(first_cache));
    assert_eq!(second_plan.metrics().family_metrics.opaque.retained_slots, 1);
    assert_eq!(second_plan.binding_deltas().opaque.as_ref().unwrap().added.len(), 1);
    assert_eq!(second_plan.metrics().family_metrics.opaque.binding_delta.added, 1);
    assert_eq!(second_plan.metrics().family_metrics.opaque.binding_delta.changed, 0);
    assert_eq!(second_plan.metrics().carried_page_counts.alpha, first_cache.alpha.pages.len());
    assert_eq!(second_plan.metrics().built_page_counts.alpha, 0);
    assert!(!second_plan.cache_hit());
    assert!(!written_pages(&second_plan).iter().any(|path| path.contains("alpha")));

    let mut third_statics = mixed_statics(&sources, &[&opaque, &opaque_b], &[&alpha]);
    let third_plan = plan_exact(&sources, &mut third_statics, Some(&second_plan.cache));
    assert!(third_plan.cache_hit());
    assert_eq!(third_plan.metrics().dirty_page_count, 0);
}

/// Adding a distinct alpha key reconciles that family while opaque carries completely.
#[test]
fn alpha_membership_change_reconciles_alpha_and_carries_opaque() {
    let mut sources = Sources::new();
    let opaque = sources.write_rgba(r"member\opaque.bmp", [220, 30, 20, 255]);
    let alpha = sources.write_rgba(r"member\alpha.bmp", [20, 80, 220, 128]);

    let mut first_statics = mixed_statics(&sources, &[&opaque], &[&alpha]);
    let first_plan = plan_exact(&sources, &mut first_statics, None);
    let first_cache = &first_plan.cache;

    let alpha_b = sources.write_rgba(r"member\alpha_b.bmp", [180, 40, 200, 128]);
    let mut second_statics = mixed_statics(&sources, &[&opaque], &[&alpha, &alpha_b]);
    let (second_manager, second_plan) =
        manage(&sources, &mut second_statics, TextureDedupeMode::Exact, ATLAS_MAX, Some(first_cache));
    assert!(second_manager.prior.opaque.is_some());
    assert!(second_manager.prior.alpha.is_some());
    assert!(second_plan.metrics().layout_hits.opaque);
    assert!(!second_plan.metrics().layout_hits.alpha);
    assert_eq!(second_plan.metrics().built_page_counts.opaque, 0);
    assert_eq!(second_plan.metrics().carried_page_counts.opaque, first_cache.opaque.pages.len());
    assert!(second_plan.metrics().built_page_counts.alpha > 0);
    assert_eq!(second_plan.metrics().family_metrics.alpha.plan_mode, AtlasFamilyPlanMode::Reconciled);
    let slot_of = |cache: &AtlasCache| {
        cache.alpha.key_slots.iter().find(|entry| entry.path == alpha).unwrap().slot_id
    };
    assert_eq!(slot_of(&second_plan.cache), slot_of(first_cache));
    assert_eq!(second_plan.metrics().family_metrics.alpha.retained_slots, 1);
    assert_eq!(second_plan.binding_deltas().alpha.as_ref().unwrap().added.len(), 1);
    assert_eq!(second_plan.metrics().family_metrics.alpha.binding_delta.added, 1);
    assert!(!second_plan.cache_hit());
    assert!(!written_pages(&second_plan).contains(&atlas_page_relative_path(AtlasDomain::Opaque, 0)));

    let mut third_statics = mixed_statics(&sources, &[&opaque], &[&alpha, &alpha_b]);
    let third_plan = plan_exact(&sources, &mut third_statics, Some(&second_plan.cache));
    assert!(third_plan.cache_hit());
    assert_eq!(third_plan.metrics().dirty_page_count, 0);
}

/// A texture sized at `usable_texture_dim` packs, and one at the raw page cap does not.
#[test]
fn usable_texture_dim_is_the_largest_packable_size() {
    let pack_square = |dim: u32, gpu_max: u32| {
        pack_layout_only(
            &[LayoutItem {
                key: "tex".to_string(),
                w: dim,
                h: dim,
                source: None,
                source_size: None,
                trimmed: false,
            }],
            gpu_max,
        )
    };

    for &gpu_max in &SUPPORTED_STATIC_ATLAS_SIZES {
        let usable = usable_texture_dim(gpu_max);
        let pages = pack_square(usable, gpu_max).unwrap();
        assert_eq!((pages[0].width, pages[0].height), (gpu_max, gpu_max));
        assert!(pack_square(usable + 1, gpu_max).is_err());
        assert!(pack_square(gpu_max, gpu_max).is_err());
    }
}

#[test]
fn binding_digest_is_order_independent_and_sensitive() {
    let uv = bound(0.1, 0.9, 0.2, 0.8);
    let first = frame_map(&[("b", 2, uv), ("a", 1, uv)]);
    let second = frame_map(&[("a", 1, uv), ("b", 2, uv)]);
    let empty = frame_map(&[]);
    let digest = atlas_binding_digest(&first, &empty);
    assert_eq!(digest, atlas_binding_digest(&second, &empty));
    let different_page = frame_map(&[("a", 9, uv), ("b", 2, uv)]);
    assert_ne!(digest, atlas_binding_digest(&different_page, &empty));
    let different_bound =
        frame_map(&[("a", 1, UvBound { min_x: 0.3f32.to_bits(), ..uv }), ("b", 2, uv)]);
    assert_ne!(digest, atlas_binding_digest(&different_bound, &empty));
    assert_ne!(digest, atlas_binding_digest(&empty, &first));
}

#[test]
fn binding_delta_sorts_bindings_into_four_kinds() {
    let entry = |path: &str, page: u32| CachedUvBound {
        path: path.to_owned(),
        page,
        min_x: 1,
        max_x: 2,
        min_y: 3,
        max_y: 4,
    };
    let previous = [entry("a", 0), entry("b", 0), entry("c", 0)];
    let current = [entry("b", 0), entry("c", 1), entry("d", 0)];
    let delta = binding_delta(&previous, &current);
    assert_eq!(delta.added, vec!["d".to_owned()]);
    assert_eq!(delta.removed, vec!["a".to_owned()]);
    assert_eq!(delta.changed, vec!["c".to_owned()]);
    assert_eq!(delta.unchanged, 1);
}

#[test]
fn a_plan_of_nothing_publishes_nothing() {
    let sources = Sources::new();
    let mut statics: DistantStatics = Vec::new();
    let plan = plan_exact(&sources, &mut statics, None);
    assert!(plan.opaque.is_none() && plan.alpha.is_none());
    assert_eq!(plan.metrics().page_counts.opaque, 0);
    assert_eq!(plan.metrics().publication_bytes_estimate, 0);
    assert!(plan.carried_relative_paths().is_empty());
}

#[test]
fn unreadable_textures_become_one_magenta_texel() {
    let kept = decoded_or_placeholder(Some(solid(2, 3, [1, 2, 3, 4])));
    assert_eq!((kept.width, kept.height), (2, 3));
    assert_eq!(kept.pixels, solid(2, 3, [1, 2, 3, 4]).pixels);
    let stand_in = decoded_or_placeholder(None);
    assert_eq!((stand_in.width, stand_in.height), (1, 1));
    assert_eq!(stand_in.pixels, vec![255, 0, 255, 255]);
}
