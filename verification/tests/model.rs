use glam::{Vec2, Vec3, Vec4};
use statics::atlas::types::UvBound;
use statics::extract::{inferred_static_type, passes_min_radius, passes_static_min_radius, resolve_static_type};
use statics::model::bounds::bounding_box_of;
use statics::model::optimize::{flatten_triangles, write_indices_to_triangles};
use statics::model::palette::{build_palette, union_uv_bounds, uv_bound_union_fits, UV_BOUND_PALETTE_CAP};
use statics::model::process::{optimize_static, optimize_statics, optimize_statics_keys, WeldFacts};
use statics::model::weld::{
    build_weld_keys, normalized_bits, pack_orientation, uv_bound_bits, vertex_tiebreak, QuantizedVertex, WeldKey,
};
use statics::model::{
    components_tile_triangle_count, Bound, BoundingBox, DistantStatic, MergedComponent, StaticType, Subset,
    SubsetTexture, TextureNames, TextureSym, Vertex,
};
use statics::overrides::lines::parse_overrides_texts;
use statics::text_map::TextMap;

fn bits3(v: Vec3) -> [u32; 3] {
    v.to_array().map(f32::to_bits)
}

fn vec3(bits: [u32; 3]) -> Vec3 {
    Vec3::from_array(bits.map(f32::from_bits))
}

fn shaped(position: Vec3, normal: Vec3, uv: Vec2, color: Vec4) -> Vertex {
    Vertex {
        position: bits3(position),
        normal: bits3(normal),
        uv: uv.to_array().map(f32::to_bits),
        color: color.to_array().map(f32::to_bits),
        uv_bound: UvBound::default(),
    }
}

fn plain(position: Vec3) -> Vertex {
    shaped(position, Vec3::Z, Vec2::ZERO, Vec4::ONE)
}

fn product(a: u32, b: u32) -> u32 {
    (f32::from_bits(a) * f32::from_bits(b)).to_bits()
}

/// The smallest sphere around two spheres.
fn join(a: Bound, b: Bound) -> Bound {
    let (ca, cb) = (vec3(a.center), vec3(b.center));
    let (ra, rb) = (f32::from_bits(a.radius), f32::from_bits(b.radius));
    let distance = (cb - ca).length();
    if distance + rb <= ra {
        return a;
    }
    if distance + ra <= rb {
        return b;
    }
    let radius = (distance + ra + rb) * 0.5;
    let center = ca + (cb - ca) * ((radius - ra) / distance);
    Bound { center: bits3(center), radius: radius.to_bits() }
}

/// A sphere around all vertices.
fn enclose(vertices: &Vec<Vertex>) -> Bound {
    let points: Vec<Vec3> = vertices.iter().map(|vertex| vec3(vertex.position)).collect();
    let sum: Vec3 = points.iter().copied().sum();
    let center = sum / points.len() as f32;
    let radius = points.iter().map(|point| (*point - center).length()).fold(0.0f32, f32::max);
    Bound { center: bits3(center), radius: radius.to_bits() }
}

fn passes(radius: f32, static_type: StaticType, is_door: bool, scale: f32, min_radius: f32, door: f32) -> bool {
    passes_min_radius(
        &product,
        radius.to_bits(),
        static_type,
        is_door,
        scale.to_bits(),
        min_radius.to_bits(),
        door.to_bits(),
    )
}

#[test]
fn building_statics_use_doubled_cutoff_radius() {
    assert!(!passes(4.0, StaticType::StaticAuto, false, 1.0, 6.0, 1.0));
    assert!(passes(4.0, StaticType::StaticBuilding, false, 1.0, 6.0, 1.0));
}

#[test]
fn door_statics_use_door_multiplier_cutoff_radius() {
    assert!(!passes(4.0, StaticType::StaticAuto, true, 1.0, 6.0, 1.0));
    assert!(passes(4.0, StaticType::StaticAuto, true, 1.0, 6.0, 2.0));
    assert!(!passes(4.0, StaticType::StaticAuto, false, 1.0, 6.0, 2.0));
}

#[test]
fn grass_statics_bypass_min_radius_filter() {
    assert!(passes(0.1, StaticType::StaticGrass, false, 1.0, 150.0, 1.0));
    assert!(passes(0.0, StaticType::StaticGrass, false, 1.0, 150.0, 1.0));
    assert!(!passes(0.1, StaticType::StaticAuto, false, 1.0, 150.0, 1.0));
}

#[test]
fn explicit_distance_tiers_bypass_min_radius_filter() {
    for static_type in [StaticType::StaticNear, StaticType::StaticFar, StaticType::StaticVeryFar] {
        assert!(passes(0.1, static_type, false, 1.0, 150.0, 1.0));
    }
    assert!(!passes(0.1, StaticType::StaticTree, false, 1.0, 150.0, 1.0));
    assert!(!passes(0.1, StaticType::StaticBuilding, false, 1.0, 150.0, 1.0));
}

#[test]
fn a_radius_that_is_no_number_never_passes() {
    assert!(!passes(f32::NAN, StaticType::StaticAuto, false, 1.0, 0.0, 1.0));
    assert!(passes(0.0, StaticType::StaticAuto, false, 1.0, 0.0, 1.0));
    assert!(passes(-0.0, StaticType::StaticAuto, false, 1.0, 0.0, 1.0));
}

#[test]
fn inferred_static_type_requires_directory_prefixes() {
    assert!(matches!(inferred_static_type("grass\\foo.nif"), StaticType::StaticGrass));
    assert!(matches!(inferred_static_type("trees\\foo.nif"), StaticType::StaticTree));
    assert!(matches!(inferred_static_type("x\\foo.nif"), StaticType::StaticBuilding));
    assert!(matches!(inferred_static_type("X\\foo.nif"), StaticType::StaticBuilding));
}

#[test]
fn inferred_static_type_ignores_non_directory_prefixes() {
    assert!(matches!(inferred_static_type("grassland\\foo.nif"), StaticType::StaticAuto));
    assert!(matches!(inferred_static_type("treeshouse\\foo.nif"), StaticType::StaticAuto));
    assert!(matches!(inferred_static_type("xtest\\foo.nif"), StaticType::StaticAuto));
    assert!(matches!(inferred_static_type("xfoo.nif"), StaticType::StaticAuto));
    assert!(matches!(inferred_static_type("x"), StaticType::StaticAuto));
}

#[test]
fn explicit_building_override_controls_static_type() {
    let overrides = parse_overrides_texts(&[b"foo.nif = building"]);
    let static_type = resolve_static_type("foo.nif", false, &overrides).expect("static type");
    assert!(matches!(static_type, StaticType::StaticBuilding));
}

#[test]
fn explicit_type_override_is_last_token_wins() {
    let overrides = parse_overrides_texts(&[b"foo.nif = building far"]);
    let static_type = resolve_static_type("foo.nif", false, &overrides).expect("static type");
    assert!(matches!(static_type, StaticType::StaticFar));
}

#[test]
fn ignored_meshes_have_no_type_unless_they_are_forced() {
    let overrides = parse_overrides_texts(&[b"foo.nif = ignore"]);
    assert!(resolve_static_type("foo.nif", false, &overrides).is_none());
    assert!(resolve_static_type("foo.nif", true, &overrides).is_some());
    assert!(resolve_static_type("bar.nif", false, &overrides).is_some());
}

fn sphere(center: Vec3, radius: f32) -> Bound {
    Bound { center: bits3(center), radius: radius.to_bits() }
}

#[test]
fn static_min_radius_reads_the_building_cutoff_off_the_static() {
    let sized = |static_type| DistantStatic {
        bounding_sphere: sphere(Vec3::ZERO, 4.0),
        static_type,
        max_scale: 1.0f32.to_bits(),
        ..DistantStatic::default()
    };
    let passes = |ds: &DistantStatic| passes_static_min_radius(&product, ds, 6.0f32.to_bits(), 1.0f32.to_bits());

    assert!(!passes(&sized(StaticType::StaticAuto)));
    assert!(passes(&sized(StaticType::StaticBuilding)));
}

fn no_names() -> TextureNames {
    TextureNames { keys: Vec::new() }
}

#[test]
fn door_static_inflates_only_written_top_level_sphere_radius() {
    let make = |is_door: bool| DistantStatic {
        bounding_sphere: sphere(Vec3::ZERO, 100.0),
        is_door,
        subsets: vec![Subset {
            bounding_sphere: sphere(Vec3::ZERO, 50.0),
            vertices: vec![Vertex::default()],
            triangles: vec![[0, 0, 0]],
            ..Subset::default()
        }],
        ..DistantStatic::default()
    };
    let radius = |bound: Bound| f32::from_bits(bound.radius);

    // Only the written top-level sphere radius is multiplied.
    let door = make(true).into_distant_static(&product, &no_names(), 4.0f32.to_bits());
    assert_eq!(radius(door.bounding_sphere), 400.0);
    assert_eq!(radius(door.subsets[0].bounding_sphere), 50.0);

    let stat = make(false).into_distant_static(&product, &no_names(), 4.0f32.to_bits());
    assert_eq!(radius(stat.bounding_sphere), 100.0);
    assert_eq!(radius(stat.subsets[0].bounding_sphere), 50.0);
}

#[test]
fn footprints_are_wanted_only_of_eligible_statics() {
    let make = |eligible: bool| DistantStatic {
        subsets: vec![triangle_subset([Vec3::ZERO, Vec3::X, Vec3::Y])],
        horizon_footprint_eligible: eligible,
        ..DistantStatic::default()
    };
    let one = 1.0f32.to_bits();
    assert!(!make(false).into_distant_static(&product, &no_names(), one).subsets[0].wants_footprint);
    assert!(make(true).into_distant_static(&product, &no_names(), one).subsets[0].wants_footprint);
}

fn bound(min_x: f32) -> UvBound {
    UvBound {
        min_y: 0.0f32.to_bits(),
        max_x: (min_x + 0.25).to_bits(),
        min_x: min_x.to_bits(),
        max_y: 1.0f32.to_bits(),
    }
}

#[test]
fn packing_builds_a_first_appearance_palette_and_writes_ordinals() {
    let a = bound(0.0);
    let b = bound(0.5);
    let vertex = |uv_bound| Vertex { uv_bound, ..Vertex::default() };

    let packed = DistantStatic {
        subsets: vec![Subset {
            // b appears first, a second, then b again: ordinals must be 0, 1, 0.
            vertices: vec![vertex(b), vertex(a), vertex(b)],
            triangles: vec![[0, 1, 2]],
            uv_bounds: vec![a, b],
            ..Subset::default()
        }],
        ..DistantStatic::default()
    }
    .into_distant_static(&product, &no_names(), 1.0f32.to_bits());

    let subset = &packed.subsets[0];
    assert_eq!(subset.palette, vec![b, a]);
    assert_eq!(subset.ordinals, Some(vec![0, 1, 0]));
}

#[test]
fn grass_packing_emits_no_palette_and_keeps_position_w_at_one() {
    let packed = DistantStatic {
        static_type: StaticType::StaticGrass,
        subsets: vec![Subset {
            vertices: vec![Vertex { uv_bound: bound(0.5), ..Vertex::default() }],
            triangles: vec![[0, 0, 0]],
            uv_bounds: vec![bound(0.5)],
            ..Subset::default()
        }],
        ..DistantStatic::default()
    }
    .into_distant_static(&product, &no_names(), 1.0f32.to_bits());

    assert!(packed.subsets[0].palette.is_empty());
    // A vertex without an ordinal is written with the number one.
    assert_eq!(packed.subsets[0].ordinals, None);
}

#[test]
fn packed_paths_name_sources_and_pages() {
    let names = TextureNames { keys: vec![None, Some("stone.dds".to_owned())] };
    assert_eq!(SubsetTexture::Source(TextureSym(1)).to_packed_path(&names, false), "stone.dds");
    assert_eq!(SubsetTexture::Source(TextureSym(0)).to_packed_path(&names, false), "");
    assert_eq!(SubsetTexture::Source(TextureSym(7)).to_packed_path(&names, false), "");
    assert_eq!(SubsetTexture::AtlasPage(0).to_packed_path(&names, false), "_mge_xe_atlas.dds");
    assert_eq!(SubsetTexture::AtlasPage(2).to_packed_path(&names, true), "_mge_xe_atlas_alpha_2.dds");
    assert_eq!(SubsetTexture::Source(TextureSym(1)).source_sym(), Some(TextureSym(1)));
    assert_eq!(SubsetTexture::Source(TextureSym(0)).source_sym(), None);
    assert_eq!(SubsetTexture::AtlasPage(1).source_sym(), None);
}

fn triangle_subset(vertices: [Vec3; 3]) -> Subset {
    Subset {
        vertices: vertices.into_iter().map(plain).collect(),
        triangles: vec![[0, 1, 2]],
        ..Subset::default()
    }
}

#[test]
fn merge_subsets_keeps_opaque_and_alpha_atlas_pages_separate() {
    let mut alpha_subset = triangle_subset([Vec3::ZERO, Vec3::X, Vec3::Y]);
    alpha_subset.has_alpha = true;
    alpha_subset.texture = SubsetTexture::AtlasPage(0);

    let mut opaque_subset = triangle_subset([Vec3::Z, Vec3::new(2.0, 0.0, 0.0), Vec3::new(0.0, 2.0, 0.0)]);
    opaque_subset.texture = SubsetTexture::AtlasPage(0);

    let mut distant_static =
        DistantStatic { subsets: vec![opaque_subset, alpha_subset], ..DistantStatic::default() };
    distant_static.merge_subsets();

    assert_eq!(distant_static.subsets.len(), 2);
    assert!(distant_static.subsets.iter().any(|subset| subset.has_alpha));
    assert!(distant_static.subsets.iter().any(|subset| subset.is_opaque()));
}

/// A subset on atlas page 0 carrying `count` bit-distinct bounds, all otherwise mergeable.
fn palette_subset(first_bound: usize, count: usize) -> Subset {
    let mut subset = triangle_subset([Vec3::ZERO, Vec3::X, Vec3::Y]);
    subset.texture = SubsetTexture::AtlasPage(0);
    subset.uv_bounds = (first_bound..first_bound + count).map(|seed| bound(seed as f32 / 1024.0)).collect();
    subset
}

#[test]
fn merge_subsets_refuses_when_the_bound_union_would_exceed_the_palette_cap() {
    // Both subsets share atlas page 0 and every other identity field, so only the palette cap can
    // keep them apart.
    let mut distant_static = DistantStatic {
        subsets: vec![palette_subset(0, UV_BOUND_PALETTE_CAP), palette_subset(1000, 1)],
        ..DistantStatic::default()
    };
    distant_static.merge_subsets();
    assert_eq!(distant_static.subsets.len(), 2);
    assert_eq!(distant_static.subsets.iter().map(|s| s.triangles.len()).sum::<usize>(), 2);

    // One bound short of the cap, the same pair merges into a single subset with the union.
    let mut distant_static = DistantStatic {
        subsets: vec![palette_subset(0, UV_BOUND_PALETTE_CAP - 1), palette_subset(1000, 1)],
        ..DistantStatic::default()
    };
    distant_static.merge_subsets();
    assert_eq!(distant_static.subsets.len(), 1);
    assert_eq!(distant_static.subsets[0].triangles.len(), 2);
    assert_eq!(distant_static.subsets[0].uv_bounds.len(), UV_BOUND_PALETTE_CAP);
}

#[test]
fn merge_subsets_unions_overlapping_bounds_without_double_counting() {
    let mut distant_static = DistantStatic {
        subsets: vec![palette_subset(0, UV_BOUND_PALETTE_CAP), palette_subset(0, 4)],
        ..DistantStatic::default()
    };
    distant_static.merge_subsets();
    assert_eq!(distant_static.subsets.len(), 1);
    assert_eq!(distant_static.subsets[0].uv_bounds.len(), UV_BOUND_PALETTE_CAP);
}

#[test]
fn merge_subsets_reuses_earlier_compatible_subset_when_tail_cannot_accept() {
    let subset_0 = palette_subset(0, 120);
    let subset_1 = palette_subset(200, UV_BOUND_PALETTE_CAP);
    let subset_2 = palette_subset(0, 4);

    let mut distant_static =
        DistantStatic { subsets: vec![subset_0, subset_1, subset_2], ..DistantStatic::default() };
    distant_static.merge_subsets();

    assert_eq!(
        distant_static.subsets.len(),
        2,
        "subset 2 must reuse earlier subset 0 rather than creating a third subset"
    );
    assert_eq!(distant_static.subsets[0].triangles.len(), 2);
    assert_eq!(distant_static.subsets[0].uv_bounds.len(), 120);
    assert_eq!(distant_static.subsets[1].triangles.len(), 1);
    assert_eq!(distant_static.subsets[1].uv_bounds.len(), UV_BOUND_PALETTE_CAP);
}

#[test]
fn merged_triangles_point_at_the_appended_vertices() {
    let mut distant_static = DistantStatic {
        subsets: vec![palette_subset(0, 1), palette_subset(0, 1)],
        ..DistantStatic::default()
    };
    distant_static.merge_subsets();
    assert_eq!(distant_static.subsets[0].triangles, vec![[0, 1, 2], [3, 4, 5]]);
    assert_eq!(distant_static.subsets[0].vertices.len(), 6);
}

#[test]
fn palettes_tell_bounds_apart_by_their_bits() {
    let zero = UvBound::default();
    let negative = UvBound { min_x: (-0.0f32).to_bits(), ..zero };
    let mut bounds = vec![zero];
    union_uv_bounds(&mut bounds, &[zero, negative, negative]);
    assert_eq!(bounds, vec![zero, negative]);
    assert!(uv_bound_union_fits(&bounds, &[zero]));
    let vertex = |uv_bound| Vertex { uv_bound, ..Vertex::default() };
    let (palette, ordinals) = build_palette(&[vertex(negative), vertex(zero), vertex(negative)]);
    assert_eq!(palette, vec![negative, zero]);
    assert_eq!(ordinals, vec![0, 1, 0]);
}

#[test]
fn update_bounds_recomputes_subset_and_static_bounds() {
    let mut distant_static = DistantStatic {
        subsets: vec![
            triangle_subset([Vec3::new(-4.0, 0.0, 0.0), Vec3::new(-2.0, 0.0, 0.0), Vec3::new(-4.0, 2.0, 0.0)]),
            Subset::default(),
            triangle_subset([Vec3::new(10.0, 1.0, 0.0), Vec3::new(12.0, 1.0, 0.0), Vec3::new(10.0, 3.0, 0.0)]),
        ],
        ..DistantStatic::default()
    };

    distant_static.update_bounds(&join, &enclose);

    let min = |bounds: &BoundingBox| vec3(bounds.min);
    let max = |bounds: &BoundingBox| vec3(bounds.max);
    assert_eq!(distant_static.subsets.len(), 2);
    assert_eq!(min(&distant_static.subsets[0].bounding_box), Vec3::new(-4.0, 0.0, 0.0));
    assert_eq!(max(&distant_static.subsets[0].bounding_box), Vec3::new(-2.0, 2.0, 0.0));
    assert_eq!(min(&distant_static.subsets[1].bounding_box), Vec3::new(10.0, 1.0, 0.0));
    assert_eq!(max(&distant_static.subsets[1].bounding_box), Vec3::new(12.0, 3.0, 0.0));
    assert_eq!(min(&distant_static.bounding_box), Vec3::new(-4.0, 0.0, 0.0));
    assert_eq!(max(&distant_static.bounding_box), Vec3::new(12.0, 3.0, 0.0));
    assert!(f32::from_bits(distant_static.bounding_sphere.radius) > 0.0);
}

#[test]
fn merged_subset_bounds_use_component_spheres() {
    let mut subset = Subset {
        vertices: [
            Vec3::new(-0.25, 0.0, 0.0),
            Vec3::new(0.25, 0.0, 0.0),
            Vec3::new(0.0, 0.25, 0.0),
            Vec3::new(9.75, 0.0, 0.0),
            Vec3::new(10.25, 0.0, 0.0),
            Vec3::new(10.0, 0.25, 0.0),
        ]
        .into_iter()
        .map(plain)
        .collect(),
        triangles: vec![[0, 1, 2], [3, 4, 5]],
        ..Subset::default()
    };
    subset.push_component(0, 1, bits3(Vec3::ZERO), 4.0f32.to_bits(), StaticType::StaticAuto);
    subset.push_component(1, 1, bits3(Vec3::new(10.0, 0.0, 0.0)), 2.0f32.to_bits(), StaticType::StaticAuto);

    subset.update_bounds_with(&join, &enclose);

    assert_eq!(vec3(subset.bounding_box.min), Vec3::new(-0.25, 0.0, 0.0));
    assert_eq!(vec3(subset.bounding_box.max), Vec3::new(10.25, 0.25, 0.0));
    assert!((vec3(subset.bounding_sphere.center) - Vec3::new(4.0, 0.0, 0.0)).length() < 1e-5);
    assert!((f32::from_bits(subset.bounding_sphere.radius) - 8.0).abs() < 1e-5);
}

#[test]
fn boxes_skip_positions_that_are_no_numbers() {
    assert!(bounding_box_of(&[]).is_none());
    assert!(bounding_box_of(&[plain(Vec3::new(f32::NAN, 0.0, 0.0))]).is_none());
    let found = bounding_box_of(&[
        plain(Vec3::new(1.0, -2.0, 3.0)),
        plain(Vec3::new(f32::INFINITY, 9.0, 9.0)),
        plain(Vec3::new(-1.0, 2.0, 3.0)),
    ])
    .unwrap();
    assert_eq!(vec3(found.min), Vec3::new(-1.0, -2.0, 3.0));
    assert_eq!(vec3(found.max), Vec3::new(1.0, 2.0, 3.0));
}

fn component(first_triangle: u32, triangle_count: u32) -> MergedComponent {
    MergedComponent {
        first_triangle,
        triangle_count,
        center: [0; 3],
        radius: 1.0f32.to_bits(),
        classification: StaticType::StaticAuto,
    }
}

#[test]
fn components_tile_only_without_gaps() {
    assert!(components_tile_triangle_count(&[], 7));
    assert!(components_tile_triangle_count(&[component(0, 3), component(3, 4)], 7));
    assert!(!components_tile_triangle_count(&[component(0, 3), component(4, 3)], 7));
    assert!(!components_tile_triangle_count(&[component(0, 3), component(3, 3)], 7));
    assert!(!components_tile_triangle_count(&[component(0, 0), component(0, 7)], 7));
    let broken = MergedComponent { radius: f32::NAN.to_bits(), ..component(0, 7) };
    assert!(!components_tile_triangle_count(&[broken], 7));
    let negative = MergedComponent { radius: (-1.0f32).to_bits(), ..component(0, 7) };
    assert!(!components_tile_triangle_count(&[negative], 7));
    let grass = MergedComponent { classification: StaticType::StaticGrass, ..component(0, 7) };
    assert!(!components_tile_triangle_count(&[grass], 7));
}

#[test]
fn equal_neighbouring_components_coalesce() {
    let mut subset = Subset::default();
    let one = 1.0f32.to_bits();
    subset.push_component(0, 2, [0; 3], one, StaticType::StaticAuto);
    subset.push_component(2, 0, [0; 3], one, StaticType::StaticTree);
    subset.push_component(2, 3, [0; 3], one, StaticType::StaticAuto);
    assert_eq!(subset.components.len(), 1);
    assert_eq!(subset.components[0].triangle_count, 5);
    subset.push_component(5, 1, [0; 3], one, StaticType::StaticTree);
    assert_eq!(subset.components.len(), 2);
}

fn quantize<const N: usize>(lanes: [u32; N], cell: f32) -> Option<[u32; N]> {
    let mut out = [0u32; N];
    for (slot, lane) in out.iter_mut().zip(lanes) {
        let quantized = (f32::from_bits(lane) / cell).round();
        if !quantized.is_finite() || quantized < i32::MIN as f32 || quantized > i32::MAX as f32 {
            return None;
        }
        *slot = quantized as i32 as u32;
    }
    Some(out)
}

fn orientation_keys(subset: &Subset) -> Vec<u32> {
    let mut sums = vec![Vec3::ZERO; subset.vertices.len()];
    for triangle in &subset.triangles {
        let corner = |c: usize| vec3(subset.vertices[triangle[c] as usize].position);
        let face = (corner(1) - corner(0)).cross(corner(2) - corner(0));
        if face.length_squared() < 1e-12 {
            continue;
        }
        for index in triangle {
            sums[*index as usize] += face;
        }
    }
    sums.into_iter()
        .map(|sum| {
            if sum.length_squared() < 1e-12 {
                return 0;
            }
            let n = sum.normalize();
            if !n.is_finite() {
                return 0;
            }
            let level = |c: f32| ((c + 1.0) * 0.5 * 7.0).round().clamp(0.0, 7.0) as u32;
            pack_orientation(level(n.x), level(n.y), level(n.z))
        })
        .collect()
}

fn weld_facts(subset: &Subset) -> WeldFacts {
    WeldFacts {
        lanes: subset
            .vertices
            .iter()
            .map(|vertex| QuantizedVertex {
                position: quantize(vertex.position, 0.01),
                normal: quantize(vertex.normal, 0.05),
                uv: quantize(vertex.uv, 0.005),
                color: quantize(vertex.color, 0.004),
            })
            .collect(),
        orientations: if subset.has_alpha { orientation_keys(subset) } else { Vec::new() },
    }
}

fn weld_keys(subset: &Subset) -> Vec<WeldKey> {
    let facts = weld_facts(subset);
    build_weld_keys(&subset.vertices, &facts.lanes, subset.has_alpha, &facts.orientations).0
}

fn overdraw(indices: Vec<u32>, vertices: &Vec<Vertex>) -> Vec<u32> {
    let positions: Vec<f32> = vertices.iter().flat_map(|vertex| vertex.position.map(f32::from_bits)).collect();
    let adapter = meshopt::VertexDataAdapter::new(bytemuck::cast_slice(&positions), 12, 0).unwrap();
    let mut ordered = indices;
    meshopt::optimize_overdraw_in_place(&mut ordered, &adapter, 1.05);
    ordered
}

fn optimize(subset: &mut Subset) {
    let keys = weld_keys(subset);
    subset.optimize_with(&overdraw, &keys);
}

/// A grid of `cols` x `rows` vertices and `(cols-1)*(rows-1)*2` triangles.
fn grid_subset(cols: u16, rows: u16) -> Subset {
    let mut vertices = Vec::new();
    for r in 0..rows {
        for c in 0..cols {
            vertices.push(shaped(
                Vec3::new(c as f32, r as f32, 0.0),
                Vec3::Z,
                Vec2::new(c as f32 / cols as f32, r as f32 / rows as f32),
                Vec4::ONE,
            ));
        }
    }
    let mut triangles = Vec::new();
    for r in 0..(rows - 1) {
        for c in 0..(cols - 1) {
            let tl = r * cols + c;
            let tr = tl + 1;
            let bl = tl + cols;
            let br = bl + 1;
            triangles.push([tl, tr, bl]);
            triangles.push([tr, br, bl]);
        }
    }
    Subset { vertices, triangles, ..Subset::default() }
}

fn all_triangles_non_degenerate(subset: &Subset) -> bool {
    subset.triangles.iter().all(|triangle| {
        let corner = |c: usize| vec3(subset.vertices[triangle[c] as usize].position);
        0.5 * (corner(1) - corner(0)).cross(corner(2) - corner(0)).length() > 1e-6
    })
}

fn all_indices_in_range(subset: &Subset) -> bool {
    subset.triangles.iter().flatten().all(|&index| usize::from(index) < subset.vertices.len())
}

fn triangle_position_multiset(subset: &Subset) -> Vec<[[u32; 3]; 3]> {
    let mut positions: Vec<[[u32; 3]; 3]> = subset
        .triangles
        .iter()
        .map(|triangle| triangle.map(|index| subset.vertices[index as usize].position))
        .collect();
    positions.sort_unstable();
    positions
}

fn duplicate_origin_subset_with(mutate_duplicate: impl Fn(&mut Vertex)) -> Subset {
    let black = Vec4::new(0.0, 0.0, 0.0, 1.0);
    let mut duplicate = shaped(Vec3::ZERO, Vec3::Z, Vec2::ZERO, black);
    mutate_duplicate(&mut duplicate);
    Subset {
        vertices: vec![
            shaped(Vec3::ZERO, Vec3::Z, Vec2::ZERO, black),
            shaped(Vec3::X, Vec3::Z, Vec2::X, black),
            shaped(Vec3::Y, Vec3::Z, Vec2::Y, black),
            duplicate,
        ],
        triangles: vec![[0, 1, 2], [3, 1, 2]],
        ..Subset::default()
    }
}

/// A two-sided foliage card with identical attributes and opposite winding.
fn flipped_foliage_card(has_alpha: bool) -> Subset {
    let corners = [
        Vec3::new(0.0, 0.0, 0.0),
        Vec3::new(1.0, 0.0, 0.0),
        Vec3::new(1.0, 1.0, 0.0),
        Vec3::new(0.0, 1.0, 0.0),
    ];
    let make = |i: usize| shaped(corners[i], Vec3::Z, corners[i].truncate(), Vec4::ONE);
    Subset {
        vertices: (0..4).map(make).chain((0..4).map(make)).collect(),
        triangles: vec![[0, 1, 2], [0, 2, 3], [4, 6, 5], [4, 7, 6]],
        has_alpha,
        ..Subset::default()
    }
}

fn same_vertices(a: &[Vertex], b: &[Vertex]) -> bool {
    a.len() == b.len()
        && a.iter().zip(b).all(|(x, y)| {
            x.position == y.position
                && x.normal == y.normal
                && x.uv == y.uv
                && x.color == y.color
                && x.uv_bound == y.uv_bound
        })
}

#[test]
fn optimize_reused_context_matches_fresh_context() {
    let positions = [
        Vec3::new(0.0, 0.0, 0.0),
        Vec3::new(1.0, 0.0, 0.0),
        Vec3::new(0.0, 1.0, 0.0),
        Vec3::new(0.005, 0.005, 0.0),
        Vec3::new(1.0, 1.0, 0.0),
    ];
    let small = Subset {
        vertices: positions.into_iter().map(plain).collect(),
        triangles: vec![[0, 1, 2], [3, 1, 4]],
        ..Subset::default()
    };
    let mut fresh_small = small.clone();
    optimize(&mut fresh_small);

    // Nothing that is optimized in between has an effect.
    let mut large = grid_subset(16, 16);
    assert!(large.triangles.len() > small.triangles.len());
    optimize(&mut large);

    let mut scratch_small = small.clone();
    optimize(&mut scratch_small);
    assert!(same_vertices(&scratch_small.vertices, &fresh_small.vertices));
    assert_eq!(scratch_small.triangles, fresh_small.triangles);
}

#[test]
fn merge_lod_from_borrowed_source_matches_cloning_and_leaves_source_intact() {
    let mut opaque = grid_subset(12, 12);
    opaque.has_uv_controller = true;
    opaque.emissive = 0.25f32.to_bits();
    opaque.uv_bounds = vec![bound(0.5)];

    let mut alpha = grid_subset(4, 4);
    alpha.has_alpha = true;

    let mut partitioned = grid_subset(5, 5);
    let half = (partitioned.triangles.len() / 2) as u32;
    partitioned.components = vec![
        MergedComponent {
            first_triangle: 0,
            triangle_count: half,
            center: bits3(Vec3::new(1.0, 2.0, 3.0)),
            radius: 4.0f32.to_bits(),
            classification: StaticType::StaticAuto,
        },
        MergedComponent {
            first_triangle: half,
            triangle_count: partitioned.triangles.len() as u32 - half,
            center: bits3(Vec3::new(4.0, 5.0, 6.0)),
            radius: 7.0f32.to_bits(),
            classification: StaticType::StaticBuilding,
        },
    ];

    // The opaque source loses its second half of triangles, the others are only reordered.
    let kept: Vec<[u16; 3]> = opaque.triangles[..opaque.triangles.len() / 2].to_vec();
    let cases = [(&opaque, Some(kept)), (&alpha, None), (&partitioned, None)];
    for (source, simplified) in cases {
        let mut expected = source.clone();
        if let Some(triangles) = &simplified {
            expected.triangles = triangles.clone();
        }
        let keys = weld_keys(&expected);
        expected.optimize_with(&overdraw, &keys);

        let indices = simplified.map(|triangles| flatten_triangles(&triangles));
        let built = Subset::build_merge_lod_from(&overdraw, source, &keys, indices);

        assert_eq!(built.triangles, expected.triangles);
        assert!(same_vertices(&built.vertices, &expected.vertices));
        assert_eq!(built.has_alpha, expected.has_alpha);
        assert_eq!(built.has_uv_controller, expected.has_uv_controller);
        assert_eq!(built.emissive, expected.emissive);
        assert_eq!(built.texture, expected.texture);
        assert_eq!(built.uv_bounds, expected.uv_bounds);
        assert_eq!(built.components.len(), expected.components.len());
    }

    assert_eq!(opaque.triangles.len(), 11 * 11 * 2);
    assert_eq!(alpha.triangles.len(), 3 * 3 * 2);
    assert_eq!(partitioned.triangles.len(), 4 * 4 * 2);
}

#[test]
fn components_keep_their_triangles_when_optimized() {
    let mut subset = grid_subset(5, 5);
    let half = subset.triangles.len() / 2;
    subset.components = vec![component(0, half as u32), component(half as u32, half as u32)];
    let part = |subset: &Subset, from: usize, to: usize| {
        triangle_position_multiset(&Subset {
            vertices: subset.vertices.clone(),
            triangles: subset.triangles[from..to].to_vec(),
            ..Subset::default()
        })
    };
    let before = (part(&subset, 0, half), part(&subset, half, 2 * half));
    optimize(&mut subset);
    assert_eq!((part(&subset, 0, half), part(&subset, half, 2 * half)), before);
}

#[test]
fn an_empty_subset_stays_as_it_is() {
    let mut subset = Subset { vertices: vec![plain(Vec3::X)], ..Subset::default() };
    optimize(&mut subset);
    assert_eq!(subset.vertices.len(), 1);
    let built = Subset::build_merge_lod_from(&overdraw, &grid_subset(3, 3), &weld_keys(&grid_subset(3, 3)), Some(vec![]));
    assert!(built.triangles.is_empty());
    assert_eq!(built.vertices.len(), 9);
}

#[test]
fn alpha_flipped_foliage_card_is_preserved_by_optimize() {
    let mut subset = flipped_foliage_card(true);
    let original_tri_count = subset.triangles.len();
    optimize(&mut subset);

    assert_eq!(subset.vertices.len(), 8, "alpha foliage-card front and back vertices must stay distinct");
    assert_eq!(subset.triangles.len(), original_tri_count);
    assert!(all_triangles_non_degenerate(&subset));
}

#[test]
fn alpha_same_orientation_duplicates_still_weld() {
    let mut subset = Subset {
        vertices: vec![plain(Vec3::ZERO), plain(Vec3::X), plain(Vec3::Y), plain(Vec3::ZERO)],
        triangles: vec![[0, 1, 2], [3, 1, 2]],
        has_alpha: true,
        ..Subset::default()
    };
    optimize(&mut subset);
    assert!(subset.vertices.len() < 4, "same-orientation alpha duplicates should still weld");
    assert!(all_triangles_non_degenerate(&subset));
}

#[test]
fn opaque_flipped_foliage_card_still_welds() {
    let mut subset = flipped_foliage_card(false);
    optimize(&mut subset);
    assert_eq!(subset.vertices.len(), 4);
}

#[test]
fn exact_duplicate_vertices_collapse_to_one_unique_vertex() {
    let mut subset = duplicate_origin_subset_with(|_| {});
    optimize(&mut subset);
    assert_eq!(subset.vertices.len(), 3);
    assert!(all_indices_in_range(&subset));
}

#[test]
fn distinct_uvs_outside_weld_cell_do_not_weld() {
    let mut subset = duplicate_origin_subset_with(|duplicate| {
        duplicate.uv = [0.006f32.to_bits(), 0.0f32.to_bits()];
    });
    optimize(&mut subset);
    assert_eq!(subset.vertices.len(), 4);
    assert!(all_indices_in_range(&subset));
}

#[test]
fn distinct_normals_outside_weld_cell_do_not_weld() {
    let mut subset = duplicate_origin_subset_with(|duplicate| {
        duplicate.normal = bits3(Vec3::new(0.06, 0.0, 1.0));
    });
    optimize(&mut subset);
    assert_eq!(subset.vertices.len(), 4);
    assert!(all_indices_in_range(&subset));
}

#[test]
fn distinct_colors_outside_weld_cell_do_not_weld() {
    let mut subset = duplicate_origin_subset_with(|duplicate| {
        duplicate.color = Vec4::new(0.006, 0.0, 0.0, 1.0).to_array().map(f32::to_bits);
    });
    optimize(&mut subset);
    assert_eq!(subset.vertices.len(), 4);
    assert!(all_indices_in_range(&subset));
}

#[test]
fn alpha_vertices_with_ambiguous_orientation_do_not_weld() {
    let mut subset = Subset {
        vertices: vec![plain(Vec3::ZERO), plain(Vec3::X), plain(Vec3::Y), plain(Vec3::ZERO)],
        triangles: vec![[0, 1, 2], [0, 2, 1], [3, 1, 2], [3, 2, 1]],
        has_alpha: true,
        ..Subset::default()
    };
    optimize(&mut subset);
    assert_eq!(subset.vertices.len(), 4);
    assert!(all_indices_in_range(&subset));
}

#[test]
fn nan_position_vertex_does_not_weld_with_origin() {
    let mut subset = duplicate_origin_subset_with(|duplicate| {
        duplicate.position = bits3(Vec3::new(f32::NAN, 0.0, 0.0));
    });
    optimize(&mut subset);
    assert_eq!(subset.vertices.len(), 4);
    assert!(all_indices_in_range(&subset));
}

#[test]
fn non_finite_attributes_make_vertex_non_weldable() {
    let mut subset = duplicate_origin_subset_with(|duplicate| {
        duplicate.uv = [f32::NAN.to_bits(), 0.0f32.to_bits()];
    });
    optimize(&mut subset);
    assert_eq!(subset.vertices.len(), 4);
    assert!(all_indices_in_range(&subset));
}

#[test]
fn unreferenced_vertices_are_dropped_by_optimize() {
    let mut subset = duplicate_origin_subset_with(|_| {});
    subset.vertices.push(plain(Vec3::new(10.0, 10.0, 10.0)));
    optimize(&mut subset);
    assert_eq!(subset.vertices.len(), 3);
    assert!(all_indices_in_range(&subset));
}

#[test]
fn optimize_preserves_triangle_position_multiset_and_index_range() {
    let mut subset = grid_subset(4, 4);
    let before = triangle_position_multiset(&subset);
    optimize(&mut subset);
    assert_eq!(triangle_position_multiset(&subset), before);
    assert!(all_indices_in_range(&subset));
}

#[test]
fn coincident_position_distinct_uv_stress_subset_optimizes() {
    let vertex_count = 2048u16;
    let vertices: Vec<Vertex> = (0..vertex_count)
        .map(|i| shaped(Vec3::ZERO, Vec3::Z, Vec2::new(i as f32 * 0.01, 0.0), Vec4::ONE))
        .collect();
    let triangles: Vec<[u16; 3]> = (0..vertex_count - 2).map(|i| [i, i + 1, i + 2]).collect();
    let mut subset = Subset { vertices, triangles, ..Subset::default() };
    optimize(&mut subset);
    assert_eq!(subset.vertices.len(), vertex_count as usize);
    assert!(all_indices_in_range(&subset));
}

#[test]
fn weld_keys_count_what_cannot_weld() {
    let lanes = QuantizedVertex {
        position: Some([0; 3]),
        normal: Some([0; 3]),
        uv: Some([0; 2]),
        color: Some([0; 4]),
    };
    let broken = QuantizedVertex { uv: None, ..lanes };
    let vertices = [Vertex::default(), Vertex::default(), Vertex::default()];
    let (keys, stats) = build_weld_keys(&vertices, &[lanes, broken, lanes], true, &[5, 5, 0]);
    assert_eq!(stats.non_finite_vertex_count, 1);
    assert_eq!(stats.ambiguous_alpha_orientation_count, 1);
    assert_eq!(stats.non_weldable_vertex_count, 2);
    assert_ne!(keys[0], keys[1]);
    assert_ne!(keys[0], keys[2]);
    let (keys, stats) = build_weld_keys(&vertices, &[lanes, lanes, lanes], false, &[]);
    assert_eq!(stats.non_weldable_vertex_count, 0);
    assert_eq!(keys[0], keys[2]);
}

#[test]
fn weld_parts_have_exact_values() {
    assert_eq!(pack_orientation(0, 0, 0), 1);
    assert_eq!(pack_orientation(7, 7, 7), 512);
    assert_eq!(pack_orientation(1, 2, 3), 1 + 64 + 16 + 3);
    assert_eq!(vertex_tiebreak(0), 1);
    assert_eq!(vertex_tiebreak(41), 42);
    assert_eq!(normalized_bits((-0.0f32).to_bits()), Some(0));
    assert_eq!(normalized_bits(1.5f32.to_bits()), Some(1.5f32.to_bits()));
    assert_eq!(normalized_bits(f32::INFINITY.to_bits()), None);
    assert_eq!(uv_bound_bits(bound(0.5)), Some([0, 0.75f32.to_bits(), 0.5f32.to_bits(), 1.0f32.to_bits()]));
    assert_eq!(uv_bound_bits(UvBound { max_y: f32::NAN.to_bits(), ..bound(0.5) }), None);
}

#[test]
fn indices_and_triangles_hold_the_same_corners() {
    let triangles = vec![[0u16, 1, 2], [2, 1, 65535]];
    assert_eq!(flatten_triangles(&triangles), vec![0, 1, 2, 2, 1, 65535]);
    assert_eq!(write_indices_to_triangles(&[0, 1, 2, 2, 1, 65535]), triangles);
}

fn as_it_is(subset: &Subset) -> Vec<u32> {
    flatten_triangles(&subset.triangles)
}

fn duplicate_triangle_static() -> DistantStatic {
    let positions = [Vec3::ZERO, Vec3::X, Vec3::Y];
    DistantStatic {
        subsets: vec![Subset {
            vertices: positions.into_iter().chain(positions).map(plain).collect(),
            triangles: vec![[0, 1, 2], [3, 4, 5]],
            has_alpha: true,
            ..Subset::default()
        }],
        ..DistantStatic::default()
    }
}

#[test]
fn keyed_optimize_matches_full_output_and_leaves_other_entries_untouched() {
    let statics = || {
        vec![
            ("selected.nif".to_owned(), duplicate_triangle_static()),
            ("skipped.nif".to_owned(), duplicate_triangle_static()),
        ]
    };
    let mut full = statics();
    let mut selective = statics();
    optimize_statics(&overdraw, &weld_facts, &as_it_is, &join, &enclose, &mut full);
    let mut keys = TextMap::new();
    keys.insert("selected.nif".to_owned(), ());
    optimize_statics_keys(&overdraw, &weld_facts, &as_it_is, &join, &enclose, &mut selective, &keys);

    let (full_selected, selective_selected) = (&full[0].1, &selective[0].1);
    assert_eq!(selective_selected.bounding_sphere.center, full_selected.bounding_sphere.center);
    assert_eq!(selective_selected.bounding_sphere.radius, full_selected.bounding_sphere.radius);
    assert_eq!(selective_selected.bounding_box.min, full_selected.bounding_box.min);
    assert_eq!(selective_selected.bounding_box.max, full_selected.bounding_box.max);
    assert_eq!(selective_selected.subsets.len(), full_selected.subsets.len());
    for (selective_subset, full_subset) in selective_selected.subsets.iter().zip(&full_selected.subsets) {
        assert_eq!(selective_subset.triangles, full_subset.triangles);
        assert!(same_vertices(&selective_subset.vertices, &full_subset.vertices));
    }

    assert_eq!(selective[1].0, "skipped.nif");
    assert_eq!(selective[1].1.bounding_sphere.center, [0; 3]);
    assert_eq!(selective[1].1.bounding_sphere.radius, 0);
    assert_eq!(selective[1].1.subsets[0].vertices.len(), 6);
    assert!(full[1].1.subsets[0].vertices.len() < 6);
}

#[test]
fn a_static_is_merged_simplified_and_bounded() {
    let opaque = |offset: f32| triangle_subset([
        Vec3::new(offset, 0.0, 0.0),
        Vec3::new(offset + 1.0, 0.0, 0.0),
        Vec3::new(offset, 1.0, 0.0),
    ]);
    let mut alpha = opaque(40.0);
    alpha.has_alpha = true;
    let mut ds = DistantStatic {
        subsets: vec![opaque(0.0), Subset::default(), alpha, opaque(8.0)],
        max_scale: 3,
        ..DistantStatic::default()
    };
    // Simplification leaves the first triangle only, and does not see the subset with alpha.
    let first_only = |subset: &Subset| {
        assert!(!subset.has_alpha);
        flatten_triangles(&subset.triangles[..1])
    };
    optimize_static(&overdraw, &weld_facts, &first_only, &join, &enclose, &mut ds);
    assert_eq!(ds.subsets.len(), 2);
    assert!(ds.subsets[0].has_alpha);
    assert_eq!(ds.subsets[0].triangles.len(), 1);
    assert_eq!(ds.subsets[1].triangles.len(), 1);
    assert_eq!(ds.subsets[1].vertices.len(), 3);
    assert_eq!(ds.max_scale, 3);
    assert_eq!(f32::from_bits(ds.bounding_box.max[0]), 41.0);
    assert!(f32::from_bits(ds.subsets[1].bounding_box.max[0]) <= 9.0);
}

#[test]
fn a_static_without_geometry_loses_its_subsets() {
    let mut ds = DistantStatic { subsets: vec![Subset::default()], ..DistantStatic::default() };
    optimize_static(&overdraw, &weld_facts, &as_it_is, &join, &enclose, &mut ds);
    assert!(ds.subsets.is_empty());
    assert_eq!((ds.bounding_sphere.center, ds.bounding_sphere.radius), ([0; 3], 0));
}

#[test]
fn bounds_list_their_bits_in_file_order() {
    let bound = UvBound { min_y: 1, max_x: 2, min_x: 3, max_y: 4 };
    assert_eq!(bound.bits(), [1, 2, 3, 4]);
}
