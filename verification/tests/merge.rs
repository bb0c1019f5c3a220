use glam::{Affine3A, Quat, Vec2, Vec3, Vec4};
use statics::atlas::types::UvBound;
use statics::defaults::DEFAULT_MERGE_GROUP_RADIUS;
use statics::merge::absorb::{merge_subsets, ComponentOrigin, SubsetPlacement};
use statics::merge::batches::{build_merge_batches, GroupWork, MERGE_GEOMETRY_BATCH_GROUPS};
use statics::merge::geometry::MemberGeometry;
use statics::merge::groups::{merge_candidates, DistantReference, Member, ReferenceFacts, StableRefKey};
use statics::merge::plan::{
    apply_merge_usage, collect_merge_groups, plan_exterior_merge_groups, CellFilter, GroupTree, MergeGroup, MergePlan,
};
use statics::merge::survey::{
    index_entries, select_subsets, survey_members, LodEntry, MemberReading, MergeSimplificationMetrics,
    MergeValueDistribution, SubsetReading,
};
use statics::model::append::{Placement, SubterrainCullTally};
use statics::model::optimize::flatten_triangles;
use statics::model::palette::UV_BOUND_PALETTE_CAP;
use statics::model::simplify::{SimplificationTarget, StaticMeshSimplifierConfig};
use statics::model::weld::{build_weld_keys, QuantizedVertex};
use statics::model::{Bound, BoundingBox, DistantStatic, StaticType, Subset, SubsetTexture, Vertex};
use statics::record_key::StaticRecordKey;
use statics::text_map::TextMap;

fn bits3(v: Vec3) -> [u32; 3] {
    v.to_array().map(f32::to_bits)
}

fn vec3(bits: [u32; 3]) -> Vec3 {
    Vec3::from_array(bits.map(f32::from_bits))
}

fn f(bits: u32) -> f32 {
    f32::from_bits(bits)
}

fn join(a: Bound, b: Bound) -> Bound {
    let (ca, cb) = (vec3(a.center), vec3(b.center));
    let (ra, rb) = (f(a.radius), f(b.radius));
    let distance = (cb - ca).length();
    if distance + rb <= ra {
        return a;
    }
    if distance + ra <= rb {
        return b;
    }
    let radius = (distance + ra + rb) * 0.5;
    Bound { center: bits3(ca + (cb - ca) * ((radius - ra) / distance)), radius: radius.to_bits() }
}

fn enclose(vertices: &Vec<Vertex>) -> Bound {
    let points: Vec<Vec3> = vertices.iter().map(|vertex| vec3(vertex.position)).collect();
    let sum: Vec3 = points.iter().copied().sum();
    let center = sum / points.len() as f32;
    let radius = points.iter().map(|point| (*point - center).length()).fold(0.0f32, f32::max);
    Bound { center: bits3(center), radius: radius.to_bits() }
}

fn update_bounds(ds: &mut DistantStatic) {
    ds.update_bounds(&join, &enclose);
}

/// Limits of merge simplification.
#[derive(Clone, Copy)]
struct Config {
    target_error: f32,
    merge_error_multiplier: f32,
}

fn default_config() -> Config {
    Config { target_error: 0.01, merge_error_multiplier: 4.0 }
}

fn overdraw(indices: Vec<u32>, vertices: &Vec<Vertex>) -> Vec<u32> {
    let positions: Vec<f32> = vertices.iter().flat_map(|vertex| vertex.position.map(f32::from_bits)).collect();
    let adapter = meshopt::VertexDataAdapter::new(bytemuck::cast_slice(&positions), 12, 0).unwrap();
    let mut ordered = indices;
    meshopt::optimize_overdraw_in_place(&mut ordered, &adapter, 1.05);
    ordered
}

fn simplify(subset: &Subset, target_error: f32) -> Vec<u32> {
    let positions: Vec<f32> =
        subset.vertices.iter().flat_map(|vertex| vertex.position.map(f32::from_bits)).collect();
    let adapter = meshopt::VertexDataAdapter::new(bytemuck::cast_slice(&positions), 12, 0).unwrap();
    let indices = flatten_triangles(&subset.triangles);
    meshopt::simplify(&indices, &adapter, 0, target_error, meshopt::SimplifyOptions::LockBorder, None)
}

fn quantize<const N: usize>(lanes: [u32; N], cell: f32) -> Option<[u32; N]> {
    Some(lanes.map(|lane| (f(lane) / cell).round() as i32 as u32))
}

fn subset_extent(subset: &Subset) -> f32 {
    (vec3(subset.bounding_box.max) - vec3(subset.bounding_box.min)).max_element()
}

fn error_bucket(error: f32) -> i32 {
    if error == 0.0 {
        i32::MIN
    } else {
        (error.log2() / 0.5).floor() as i32
    }
}

fn bucket_error(bucket: i32) -> f32 {
    if bucket == i32::MIN {
        0.0
    } else {
        (bucket as f32 * 0.5).exp2()
    }
}

fn product(a: u32, b: u32) -> u32 {
    (f(a) * f(b)).to_bits()
}

fn quotient(a: u32, b: u32) -> u32 {
    (f(a) / f(b)).to_bits()
}

fn target_of(subset: &Subset, config: Config, error: f32) -> SimplificationTarget {
    let limits = StaticMeshSimplifierConfig {
        target_error: config.target_error.to_bits(),
        merge_error_multiplier: config.merge_error_multiplier.to_bits(),
        ..StaticMeshSimplifierConfig::default()
    };
    subset.absolute_simplification_target_with_extent(
        &product,
        &quotient,
        limits,
        error.to_bits(),
        subset_extent(subset).to_bits(),
    )
}

struct World {
    statics: TextMap<DistantStatic>,
    references: Vec<Member>,
}

fn world(statics: Vec<(&str, DistantStatic)>, references: Vec<(u32, DistantReference)>) -> World {
    let mut map = TextMap::new();
    for (key, ds) in statics {
        map.insert(key.to_owned(), ds);
    }
    let members = references
        .into_iter()
        .map(|(index, reference)| Member { key: StableRefKey { source: 1, index }, reference })
        .collect();
    World { statics: map, references: members }
}

fn transform_of(reference: &DistantReference) -> Affine3A {
    Affine3A::from_scale_rotation_translation(
        Vec3::splat(f(reference.scale)),
        Quat::IDENTITY,
        vec3(reference.translation),
    )
}

fn world_box(reference: &DistantReference, ds: &DistantStatic) -> (Vec3, Vec3) {
    let at = |v: [u32; 3]| vec3(v) * f(reference.scale) + vec3(reference.translation);
    (at(ds.bounding_box.min), at(ds.bounding_box.max))
}

/// Halves boxes along x until they are within the radius.
fn tree_of(boxes: &[(Vec3, Vec3)], members: Vec<usize>, radius: f32) -> GroupTree {
    let mut low = Vec3::MAX;
    let mut high = Vec3::MIN;
    for &member in &members {
        low = low.min(boxes[member].0);
        high = high.max(boxes[member].1);
    }
    if members.len() <= 1 {
        return GroupTree::Leaf { members };
    }
    let near = (high.truncate() - low.truncate()).length() * 0.5 <= radius;
    let mut sorted = members;
    sorted.sort_by(|a, b| boxes[*a].0.x.total_cmp(&boxes[*b].0.x));
    let right = sorted.split_off(sorted.len() / 2);
    GroupTree::Split {
        near,
        left: Box::new(tree_of(boxes, sorted, radius)),
        right: Box::new(tree_of(boxes, right, radius)),
    }
}

fn plan_of(world: &World, radius: f32) -> MergePlan {
    let facts: Vec<ReferenceFacts> = world
        .references
        .iter()
        .map(|member| {
            let place = vec3(member.reference.translation);
            let large = match world.statics.get(&member.reference.id) {
                Some(ds) => f(ds.bounding_sphere.radius) * f(member.reference.scale) >= 32.0,
                None => false,
            };
            ReferenceFacts { cell: ((place.x / 8192.0).floor() as i32, (place.y / 8192.0).floor() as i32), large }
        })
        .collect();
    let bags = merge_candidates(&world.references, &facts, &world.statics);
    let trees: Vec<GroupTree> = bags
        .iter()
        .map(|bag| {
            let boxes: Vec<(Vec3, Vec3)> = bag
                .references
                .iter()
                .map(|&index| {
                    let reference = &world.references[index].reference;
                    world_box(reference, world.statics.get(&reference.id).unwrap())
                })
                .collect();
            tree_of(&boxes, (0..boxes.len()).collect(), radius)
        })
        .collect();
    let plan = plan_exterior_merge_groups(&world.references, &bags, &trees);
    let mut merged: Vec<(u32, u32)> =
        plan.groups.iter().flat_map(|group| &group.members).map(|member| (member.key.source, member.key.index)).collect();
    let count = merged.len();
    merged.sort_unstable();
    merged.dedup();
    assert_eq!(merged.len(), count, "a reference is merged twice");
    plan
}

fn center_of(group: &MergeGroup) -> Vec3 {
    let sum: Vec3 = group.members.iter().map(|member| vec3(member.reference.translation)).sum();
    sum / group.members.len() as f32
}

fn apply(plan: &MergePlan, world: &mut World) {
    let centers: Vec<[u32; 3]> = plan.groups.iter().map(|group| bits3(center_of(group))).collect();
    apply_merge_usage(plan, &centers, 1, &mut world.references);
}

fn group_extent(group: &MergeGroup, world: &World) -> f32 {
    let mut low = Vec3::MAX;
    let mut high = Vec3::MIN;
    for member in &group.members {
        let (min, max) = world_box(&member.reference, world.statics.get(&member.reference.id).unwrap());
        low = low.min(min);
        high = high.max(max);
    }
    (high - low).max_element()
}

/// A height below which geometry is buried, inside one square of the world.
#[derive(Clone, Copy)]
struct Ground {
    cell: (i32, i32),
    height: f32,
    margin: f32,
}

impl Ground {
    fn buries(&self, place: Vec3) -> bool {
        let cell = ((place.x / 8192.0).floor() as i32, (place.y / 8192.0).floor() as i32);
        cell == self.cell && self.height - place.z > self.margin
    }
}

fn build(
    plan: &MergePlan,
    filter: &CellFilter,
    world: &mut World,
    config: Config,
    ground: Option<Ground>,
) -> MergeSimplificationMetrics {
    let work: Vec<&MergeGroup> = plan.work_groups(filter).into_iter().map(|index| &plan.groups[index]).collect();
    let extents: Vec<f32> = work.iter().map(|group| group_extent(group, world)).collect();
    let mut readings = Vec::new();
    for (group, extent) in work.iter().zip(&extents) {
        let group_error = config.target_error * extent;
        for member in &group.members {
            let scale = f(member.reference.scale).max(1e-6);
            let bucket = error_bucket(group_error / scale);
            let ds = world.statics.get(&member.reference.id).unwrap();
            let subsets = ds
                .subsets
                .iter()
                .map(|subset| SubsetReading {
                    extent: subset_extent(subset).to_bits(),
                    ratio: (extent / (subset_extent(subset) * scale)).to_bits(),
                    target: target_of(subset, config, bucket_error(bucket)),
                })
                .collect();
            readings.push(MemberReading { static_key: member.reference.id.clone(), bucket, subsets });
        }
    }
    let extent_bits: Vec<u32> = extents.iter().map(|extent| extent.to_bits()).collect();
    let (mut metrics, wanted) = survey_members(&extent_bits, &readings, &world.statics);
    let entries: Vec<LodEntry> = wanted
        .into_iter()
        .map(|key| {
            let ds = world.statics.get(&key.static_key).unwrap();
            let subsets = ds.subsets.iter().map(|subset| lod_of(subset, config, bucket_error(key.bucket))).collect();
            LodEntry { static_key: key.static_key, bucket: key.bucket, subsets }
        })
        .collect();
    let centers: Vec<Vec3> = work
        .iter()
        .flat_map(|group| vec![center_of(group); group.members.len()])
        .collect();
    let members: Vec<&Member> = work.iter().flat_map(|group| group.members.iter()).collect();
    let index = index_entries(&entries);
    let place = |m: usize, at: Option<usize>| {
        let reference = &members[m].reference;
        let source = world.statics.get(&reference.id).unwrap();
        let subsets = select_subsets(&readings[m], &world.statics, &entries, &index);
        if let Some(at) = at {
            assert_eq!(entries[at].static_key, reference.id);
        }
        place_member(reference, source, subsets, centers[m], ground)
    };
    let groups: Vec<GroupWork> = work
        .iter()
        .map(|group| GroupWork { id: group.synthetic_id(), members: group.members.len() })
        .collect();
    let keep = |batch: Vec<(String, DistantStatic)>| batch;
    let built = build_merge_batches(
        &place,
        &join,
        &enclose,
        &keep,
        &groups,
        &readings,
        &world.statics,
        &entries,
        &mut metrics,
    );
    assert_eq!(
        metrics.merged_triangle_count + metrics.subterrain_culled_triangle_count,
        metrics.member_triangle_count_after_second_pass
    );
    for (id, merged) in built.into_iter().flatten() {
        world.statics.insert(id, merged);
    }
    metrics
}

fn lod_of(subset: &Subset, config: Config, error: f32) -> Subset {
    let target = target_of(subset, config, error);
    let simplified = if target.should_simplify {
        Some(simplify(subset, f(target.effective)))
    } else {
        None
    };
    let lanes: Vec<QuantizedVertex> = subset
        .vertices
        .iter()
        .map(|vertex| QuantizedVertex {
            position: quantize(vertex.position, 0.01),
            normal: quantize(vertex.normal, 0.05),
            uv: quantize(vertex.uv, 0.005),
            color: quantize(vertex.color, 0.004),
        })
        .collect();
    let (keys, _) = build_weld_keys(&subset.vertices, &lanes, false, &[]);
    Subset::build_merge_lod_from(&overdraw, subset, &keys, simplified)
}

fn place_member(
    reference: &DistantReference,
    source: &DistantStatic,
    subsets: &[Subset],
    center: Vec3,
    ground: Option<Ground>,
) -> MemberGeometry {
    let transform = transform_of(reference);
    let placements = subsets
        .iter()
        .map(|subset| SubsetPlacement {
            places: subset
                .vertices
                .iter()
                .map(|vertex| Placement {
                    position: bits3(transform.transform_point3(vec3(vertex.position)) - center),
                    normal: bits3(transform.transform_vector3(vec3(vertex.normal)).normalize_or_zero()),
                })
                .collect(),
            buried: ground.map(|ground| {
                subset
                    .vertices
                    .iter()
                    .map(|vertex| ground.buries(transform.transform_point3(vec3(vertex.position))))
                    .collect()
            }),
        })
        .collect();
    MemberGeometry {
        subsets: subsets.to_vec(),
        placements,
        origin: ComponentOrigin {
            center: bits3(transform.transform_point3(vec3(source.bounding_sphere.center)) - center),
            radius: (f(source.bounding_sphere.radius) * f(reference.scale)).to_bits(),
            classification: source.static_type,
        },
    }
}

fn merge_exterior_references(world: &mut World, config: Config, radius: f32) -> MergeSimplificationMetrics {
    let plan = plan_of(world, radius);
    apply(&plan, world);
    build(&plan, &CellFilter::All, world, config, None)
}

fn default_radius() -> f32 {
    f(DEFAULT_MERGE_GROUP_RADIUS)
}

fn make_static() -> DistantStatic {
    DistantStatic {
        bounding_sphere: Bound { center: [0; 3], radius: 64.0f32.to_bits() },
        bounding_box: BoundingBox { min: bits3(Vec3::splat(-16.0)), max: bits3(Vec3::splat(16.0)) },
        ..DistantStatic::default()
    }
}

fn make_merge_source() -> DistantStatic {
    DistantStatic { subsets: make_grid_static(32.0, 0.0, 1.0).subsets, ..make_static() }
}

fn make_static_with_type(static_type: StaticType) -> DistantStatic {
    DistantStatic { static_type, ..make_merge_source() }
}

fn make_grid_static(extent_xy: f32, extent_z: f32, uv_scale: f32) -> DistantStatic {
    let side: u16 = 8;
    let mut vertices = Vec::new();
    for row in 0..side {
        for col in 0..side {
            let u = col as f32 / (side - 1) as f32;
            let v = row as f32 / (side - 1) as f32;
            vertices.push(Vertex {
                position: bits3(Vec3::new((u - 0.5) * extent_xy, (v - 0.5) * extent_xy, v * extent_z)),
                normal: bits3(Vec3::new(0.0, -extent_z, extent_xy).normalize_or_zero()),
                uv: (Vec2::new(u, v) * uv_scale).to_array().map(f32::to_bits),
                color: Vec4::new(u, v, 1.0 - u, 1.0).to_array().map(f32::to_bits),
                ..Vertex::default()
            });
        }
    }
    let mut triangles = Vec::new();
    for row in 0..(side - 1) {
        for col in 0..(side - 1) {
            let top_left = row * side + col;
            let top_right = top_left + 1;
            let bottom_left = top_left + side;
            let bottom_right = bottom_left + 1;
            triangles.push([top_left, top_right, bottom_left]);
            triangles.push([top_right, bottom_right, bottom_left]);
        }
    }
    let mut ds = DistantStatic {
        subsets: vec![Subset { vertices, triangles, texture: SubsetTexture::AtlasPage(0), ..Subset::default() }],
        ..DistantStatic::default()
    };
    update_bounds(&mut ds);
    ds
}

fn make_alpha_grid_static(extent_xy: f32, extent_z: f32, uv_scale: f32) -> DistantStatic {
    let mut ds = make_grid_static(extent_xy, extent_z, uv_scale);
    for subset in &mut ds.subsets {
        subset.has_alpha = true;
    }
    ds
}

fn reference(id: &str, translation: Vec3) -> DistantReference {
    DistantReference {
        id: id.to_owned(),
        deleted: false,
        persistent: false,
        translation: bits3(translation),
        rotation: bits3(Vec3::ZERO),
        scale: 1.0f32.to_bits(),
        vis_index: 0,
    }
}

fn find_key(world: &World, key: StableRefKey) -> Option<&DistantReference> {
    world.references.iter().find(|member| member.key == key).map(|member| &member.reference)
}

fn merged_id(world: &World) -> String {
    world
        .references
        .iter()
        .find(|member| member.reference.id.starts_with("CELL (0, 0) GROUP"))
        .expect("merged reference")
        .reference
        .id
        .clone()
}

#[test]
fn dynamic_references_are_not_batched() {
    let mut dynamic = reference("dyn.nif", Vec3::new(64.0, 0.0, 0.0));
    dynamic.vis_index = 4;
    let mut world = world(
        vec![("a.nif", make_static()), ("b.nif", make_static()), ("dyn.nif", make_static())],
        vec![
            (1, reference("a.nif", Vec3::ZERO)),
            (2, reference("b.nif", Vec3::new(32.0, 0.0, 0.0))),
            (3, dynamic),
        ],
    );
    merge_exterior_references(&mut world, default_config(), default_radius());
    assert!(world
        .references
        .iter()
        .any(|member| member.reference.id == "dyn.nif" && member.reference.vis_index == 4));
    assert!(world
        .references
        .iter()
        .any(|member| member.reference.id.starts_with("CELL (0, 0) GROUP") && member.reference.vis_index == 0));
}

#[test]
fn merged_statics_remain_auto_even_when_sources_are_buildings() {
    let mut world = world(
        vec![
            ("building_a.nif", make_static_with_type(StaticType::StaticBuilding)),
            ("building_b.nif", make_static_with_type(StaticType::StaticBuilding)),
        ],
        vec![
            (1, reference("building_a.nif", Vec3::ZERO)),
            (2, reference("building_b.nif", Vec3::new(32.0, 0.0, 0.0))),
        ],
    );
    merge_exterior_references(&mut world, default_config(), default_radius());
    let merged_static = world.statics.get(&merged_id(&world)).expect("merged static");
    assert!(matches!(merged_static.static_type, StaticType::StaticAuto));
    assert!(merged_static.horizon_footprint_eligible);
    assert!(merged_static.subsets[0]
        .components
        .iter()
        .all(|component| component.classification == StaticType::StaticBuilding));
}

#[test]
fn merged_static_bounds_use_transformed_component_sphere_centers() {
    let mut source = make_grid_static(8.0, 0.0, 1.0);
    source.bounding_sphere = Bound { center: bits3(Vec3::new(5.0, 2.0, 0.0)), radius: 64.0f32.to_bits() };
    let mut world = world(
        vec![("offset.nif", source)],
        vec![
            (1, reference("offset.nif", Vec3::ZERO)),
            (2, reference("offset.nif", Vec3::new(64.0, 0.0, 0.0))),
        ],
    );
    let metrics = merge_exterior_references(&mut world, default_config(), default_radius());
    assert_eq!(metrics.group_count, 1);
    let merged_static = world.statics.get(&merged_id(&world)).expect("merged static");
    assert!((vec3(merged_static.bounding_sphere.center) - Vec3::new(5.0, 2.0, 0.0)).length() < 1e-5);
    assert!((f(merged_static.bounding_sphere.radius) - 96.0).abs() < 1e-5);
}

#[test]
fn merged_groups_are_applied_in_stable_cell_group_order() {
    let mut world = world(
        vec![
            ("west_a.nif", make_static()),
            ("west_b.nif", make_static()),
            ("east_a.nif", make_static()),
            ("east_b.nif", make_static()),
        ],
        vec![
            (1, reference("east_a.nif", Vec3::new(8192.0, 0.0, 0.0))),
            (2, reference("east_b.nif", Vec3::new(8224.0, 0.0, 0.0))),
            (3, reference("west_a.nif", Vec3::ZERO)),
            (4, reference("west_b.nif", Vec3::new(32.0, 0.0, 0.0))),
        ],
    );
    merge_exterior_references(&mut world, default_config(), default_radius());
    assert_eq!(find_key(&world, StableRefKey::synthetic(1)).unwrap().id, "CELL (0, 0) GROUP (0)");
    assert_eq!(find_key(&world, StableRefKey::synthetic(2)).unwrap().id, "CELL (1, 0) GROUP (0)");
}

#[test]
fn merge_value_distribution_reports_expected_percentiles() {
    let values: Vec<u32> = (1..=100).map(|value| (value as f32).to_bits()).collect();
    let distribution = MergeValueDistribution::from_values(&values);
    assert_eq!(f(distribution.min), 1.0);
    assert_eq!(f(distribution.p50), 50.0);
    assert_eq!(f(distribution.p95), 95.0);
    assert_eq!(f(distribution.max), 100.0);
}

#[test]
fn merge_value_distribution_skips_what_is_not_finite() {
    let values = [f32::NAN, 3.0, f32::INFINITY, -1.0, f32::NEG_INFINITY].map(f32::to_bits);
    let distribution = MergeValueDistribution::from_values(&values);
    assert_eq!((f(distribution.min), f(distribution.max)), (-1.0, 3.0));
    assert_eq!(MergeValueDistribution::from_values(&[]), MergeValueDistribution::default());
}

#[test]
fn heterogeneous_group_targets_are_capped_per_subset() {
    let mut world = world(
        vec![
            ("large.nif", make_grid_static(4096.0, 0.0, 1.0)),
            ("small.nif", make_grid_static(128.0, 0.0, 1.0)),
        ],
        vec![
            (1, reference("large.nif", Vec3::ZERO)),
            (2, reference("small.nif", Vec3::new(64.0, 0.0, 0.0))),
        ],
    );
    let config = Config { target_error: 0.05, merge_error_multiplier: 1.0 };
    let metrics = merge_exterior_references(&mut world, config, default_radius());
    assert_eq!(metrics.group_count, 1);
    assert_eq!(metrics.member_subset_count, 2);
    assert!(f(metrics.group_to_member_extent_ratio.max) >= 32.0);
    assert!(f(metrics.requested_relative_target.max) > 1.0);
    assert_eq!(f(metrics.effective_relative_target.max), config.target_error);
    assert_eq!(metrics.second_pass_subset_count, 0);
    assert_eq!(metrics.member_triangle_count_before_second_pass, metrics.member_triangle_count_after_second_pass);
}

#[test]
fn compatible_sources_with_different_uv_scales_use_the_same_relative_cap() {
    let mut world = world(
        vec![
            ("uv_small.nif", make_grid_static(128.0, 0.0, 0.25)),
            ("uv_large.nif", make_grid_static(128.0, 0.0, 16.0)),
        ],
        vec![
            (1, reference("uv_small.nif", Vec3::ZERO)),
            (2, reference("uv_large.nif", Vec3::new(4096.0, 0.0, 0.0))),
        ],
    );
    let config = Config { target_error: 0.05, merge_error_multiplier: 2.0 };
    let metrics = merge_exterior_references(&mut world, config, default_radius());
    assert_eq!(metrics.member_subset_count, 2);
    assert_eq!(metrics.capped_subset_count, 2);
    assert_eq!(metrics.second_pass_subset_count, 2);
    assert!(f(metrics.effective_relative_target.max) <= config.target_error * config.merge_error_multiplier);
}

#[test]
fn alpha_members_do_not_request_merge_lods() {
    let mut world = world(
        vec![
            ("alpha_a.nif", make_alpha_grid_static(128.0, 0.0, 1.0)),
            ("alpha_b.nif", make_alpha_grid_static(128.0, 0.0, 1.0)),
        ],
        vec![
            (1, reference("alpha_a.nif", Vec3::ZERO)),
            (2, reference("alpha_b.nif", Vec3::new(4096.0, 0.0, 0.0))),
        ],
    );
    let config = Config { target_error: 0.05, merge_error_multiplier: 100.0 };
    let metrics = merge_exterior_references(&mut world, config, default_radius());
    assert_eq!(metrics.member_subset_count, 2);
    assert_eq!(metrics.lod_cache_request_count, 0);
    assert_eq!(metrics.lod_cache_entry_count, 0);
    assert_eq!(metrics.second_pass_subset_count, 0);
    assert_eq!(metrics.requested_relative_target, MergeValueDistribution::default());
    assert_eq!(metrics.effective_relative_target, MergeValueDistribution::default());
    assert_eq!(metrics.member_triangle_count_before_second_pass, metrics.member_triangle_count_after_second_pass);
}

#[test]
fn same_mesh_members_reuse_lod_cache_entries() {
    let mut world = world(
        vec![("shared.nif", make_grid_static(128.0, 0.0, 1.0))],
        vec![
            (1, reference("shared.nif", Vec3::ZERO)),
            (2, reference("shared.nif", Vec3::new(4096.0, 0.0, 0.0))),
        ],
    );
    let config = Config { target_error: 0.05, merge_error_multiplier: 2.0 };
    let metrics = merge_exterior_references(&mut world, config, default_radius());
    assert_eq!(metrics.group_count, 1);
    assert_eq!(metrics.member_count, 2);
    assert_eq!(metrics.lod_cache_request_count, 2);
    assert_eq!(metrics.lod_cache_entry_count, 1);
    assert_eq!(metrics.lod_cache_reuse_count, 1);
    assert!(metrics.second_pass_subset_count >= 1);
    assert_eq!(metrics.emitted_merged_static_count, 1);
    assert!(metrics.merged_triangle_count > 0);
    assert!(metrics.member_triangle_count_after_second_pass < metrics.member_triangle_count_before_second_pass);
    assert!(world.statics.contains_key(&merged_id(&world)));
}

#[test]
fn tall_group_members_do_not_exceed_the_relative_cap() {
    let mut world = world(
        vec![
            ("tower.nif", make_grid_static(128.0, 8192.0, 1.0)),
            ("small.nif", make_grid_static(128.0, 0.0, 1.0)),
        ],
        vec![
            (1, reference("tower.nif", Vec3::ZERO)),
            (2, reference("small.nif", Vec3::new(128.0, 0.0, 0.0))),
        ],
    );
    let config = Config { target_error: 0.05, merge_error_multiplier: 1.5 };
    let metrics = merge_exterior_references(&mut world, config, default_radius());
    assert!(f(metrics.group_extent.max) >= 8192.0);
    assert!(f(metrics.requested_relative_target.max) > 1.0);
    assert!(f(metrics.effective_relative_target.max) <= config.target_error * config.merge_error_multiplier);
}

#[test]
fn radius_sweep_changes_group_count_without_changing_the_relative_cap() {
    let source = || {
        world(
            vec![("grid.nif", make_grid_static(64.0, 0.0, 1.0))],
            vec![
                (1, reference("grid.nif", Vec3::new(0.0, 0.0, 0.0))),
                (2, reference("grid.nif", Vec3::new(128.0, 0.0, 0.0))),
                (3, reference("grid.nif", Vec3::new(4096.0, 0.0, 0.0))),
                (4, reference("grid.nif", Vec3::new(4224.0, 0.0, 0.0))),
            ],
        )
    };
    let config = Config { target_error: 0.05, merge_error_multiplier: 1.0 };
    let local = merge_exterior_references(&mut source(), config, 256.0);
    let cell = merge_exterior_references(&mut source(), config, default_radius());
    assert!(local.group_count > cell.group_count);
    assert_eq!(f(local.effective_relative_target.max), config.target_error);
    assert_eq!(f(cell.effective_relative_target.max), config.target_error);
}

fn west_and_east() -> World {
    world(
        vec![
            ("west_a.nif", make_merge_source()),
            ("west_b.nif", make_merge_source()),
            ("east_a.nif", make_merge_source()),
            ("east_b.nif", make_merge_source()),
        ],
        vec![
            (1, reference("west_a.nif", Vec3::ZERO)),
            (2, reference("west_b.nif", Vec3::new(32.0, 0.0, 0.0))),
            (3, reference("east_a.nif", Vec3::new(8192.0, 0.0, 0.0))),
            (4, reference("east_b.nif", Vec3::new(8224.0, 0.0, 0.0))),
        ],
    )
}

#[test]
fn build_merge_geometry_honors_cell_filter_while_apply_stays_global() {
    let west_id = "CELL (0, 0) GROUP (0)";
    let east_id = "CELL (1, 0) GROUP (0)";

    // Full path builds both cells' merged statics.
    let mut full = west_and_east();
    merge_exterior_references(&mut full, default_config(), default_radius());
    assert!(full.statics.contains_key(west_id));
    assert!(full.statics.contains_key(east_id));

    // Partial path plans and applies globally, but builds geometry only for the west cell.
    let mut partial = west_and_east();
    let plan = plan_of(&partial, default_radius());
    apply(&plan, &mut partial);
    build(&plan, &CellFilter::Dirty(vec![(0, 0)]), &mut partial, default_config(), None);
    assert!(partial.statics.contains_key(west_id));
    assert!(!partial.statics.contains_key(east_id));
    let summarize = |ds: &DistantStatic| (ds.subsets.len(), total_triangles(ds), total_vertices(ds));
    assert_eq!(summarize(partial.statics.get(west_id).unwrap()), summarize(full.statics.get(west_id).unwrap()));

    // Usage mutation is global: both synthetic references are present regardless of the filter.
    let usage_ids = |world: &World| {
        let mut ids: Vec<String> = world.references.iter().map(|member| member.reference.id.clone()).collect();
        ids.sort();
        ids
    };
    assert_eq!(usage_ids(&partial), usage_ids(&full));
}

#[test]
fn same_cell_emits_multiple_groups_in_stable_group_idx_order() {
    // Two tight pairs far apart in the same exterior cell so a small radius yields two groups.
    let mut world = world(
        vec![
            ("a.nif", make_merge_source()),
            ("b.nif", make_merge_source()),
            ("c.nif", make_merge_source()),
            ("d.nif", make_merge_source()),
        ],
        vec![
            (4, reference("d.nif", Vec3::new(4128.0, 0.0, 0.0))),
            (1, reference("a.nif", Vec3::ZERO)),
            (3, reference("c.nif", Vec3::new(4096.0, 0.0, 0.0))),
            (2, reference("b.nif", Vec3::new(32.0, 0.0, 0.0))),
        ],
    );
    merge_exterior_references(&mut world, default_config(), 256.0);
    assert_eq!(world.references.len(), 2);
    assert_eq!(find_key(&world, StableRefKey::synthetic(1)).unwrap().id, "CELL (0, 0) GROUP (0)");
    assert_eq!(find_key(&world, StableRefKey::synthetic(2)).unwrap().id, "CELL (0, 0) GROUP (1)");
    assert!(world.statics.contains_key("CELL (0, 0) GROUP (0)"));
    assert!(world.statics.contains_key("CELL (0, 0) GROUP (1)"));
}

#[test]
fn non_grouped_eligible_references_remain_in_usage() {
    let mut world = world(
        vec![("pair_a.nif", make_static()), ("pair_b.nif", make_static()), ("alone.nif", make_static())],
        vec![
            (1, reference("pair_a.nif", Vec3::ZERO)),
            (2, reference("pair_b.nif", Vec3::new(32.0, 0.0, 0.0))),
            // Sole eligible reference in cell (1, 0): never forms a multi-member group.
            (3, reference("alone.nif", Vec3::new(8192.0, 0.0, 0.0))),
        ],
    );
    merge_exterior_references(&mut world, default_config(), default_radius());
    let test = |index: u32| StableRefKey { source: 1, index };
    assert_eq!(find_key(&world, test(3)).unwrap().id, "alone.nif");
    assert!(find_key(&world, test(1)).is_none());
    assert!(find_key(&world, test(2)).is_none());
    assert_eq!(find_key(&world, StableRefKey::synthetic(1)).unwrap().id, "CELL (0, 0) GROUP (0)");
}

#[test]
fn small_and_grass_references_are_no_candidates() {
    let grass = DistantStatic { static_type: StaticType::StaticGrass, ..make_static() };
    let small = DistantStatic {
        bounding_sphere: Bound { center: [0; 3], radius: 31.0f32.to_bits() },
        ..make_static()
    };
    let world = world(
        vec![("grass.nif", grass), ("small.nif", small), ("a.nif", make_static())],
        vec![
            (1, reference("grass.nif", Vec3::ZERO)),
            (2, reference("small.nif", Vec3::ZERO)),
            (3, reference("a.nif", Vec3::ZERO)),
            (4, reference("unknown.nif", Vec3::ZERO)),
        ],
    );
    assert_eq!(plan_of(&world, default_radius()).group_count(), 0);
}

#[test]
fn a_plan_names_its_records_and_members() {
    let world = west_and_east();
    let plan = plan_of(&world, default_radius());
    assert_eq!(plan.group_count(), 2);
    assert_eq!(plan.member_ids(), vec!["west_a.nif", "west_b.nif", "east_a.nif", "east_b.nif"]);
    let keys: Vec<String> = plan.merged_record_keys().iter().map(StaticRecordKey::render).collect();
    assert_eq!(keys, vec!["CELL (0, 0) GROUP (0)", "CELL (1, 0) GROUP (0)"]);
    assert_eq!(plan.work_groups(&CellFilter::Dirty(vec![(1, 0)])), vec![1]);
    assert_eq!(plan.groups[1].cell(), (1, 0));
}

#[test]
fn grouping_stops_at_near_nodes_and_drops_nothing() {
    let leaf = |members: &[usize]| Box::new(GroupTree::Leaf { members: members.to_vec() });
    let tree = GroupTree::Split {
        near: false,
        left: Box::new(GroupTree::Split { near: true, left: leaf(&[3]), right: leaf(&[1, 2]) }),
        right: Box::new(GroupTree::Split { near: false, left: leaf(&[0]), right: leaf(&[]) }),
    };
    let mut groups = Vec::new();
    collect_merge_groups(&tree, &mut groups);
    assert_eq!(groups, vec![vec![3, 1, 2], vec![0]]);
}

/// Two grid statics straddling `z == 0`, well inside cell `(0, 0)`.
fn straddling_world() -> World {
    world(
        vec![
            ("wall_a.nif", make_grid_static(64.0, 256.0, 1.0)),
            ("wall_b.nif", make_grid_static(64.0, 256.0, 1.0)),
        ],
        vec![
            (1, reference("wall_a.nif", Vec3::new(1000.0, 1000.0, -128.0))),
            (2, reference("wall_b.nif", Vec3::new(1100.0, 1000.0, -128.0))),
        ],
    )
}

fn build_straddling_merge(ground: Option<Ground>) -> (DistantStatic, MergeSimplificationMetrics, Vec3) {
    let mut world = straddling_world();
    let plan = plan_of(&world, default_radius());
    apply(&plan, &mut world);
    let metrics = build(&plan, &CellFilter::All, &mut world, default_config(), ground);
    let center = vec3(find_key(&world, StableRefKey::synthetic(1)).unwrap().translation);
    let merged = world.statics.remove("CELL (0, 0) GROUP (0)").expect("merged static was built");
    (merged, metrics, center)
}

fn total_triangles(ds: &DistantStatic) -> usize {
    ds.subsets.iter().map(|subset| subset.triangles.len()).sum()
}

fn total_vertices(ds: &DistantStatic) -> usize {
    ds.subsets.iter().map(|subset| subset.vertices.len()).sum()
}

#[test]
fn subterrain_cull_removes_only_fully_buried_triangles() {
    let (uncut, _, _) = build_straddling_merge(None);
    let (culled, metrics, center) =
        build_straddling_merge(Some(Ground { cell: (0, 0), height: 0.0, margin: 0.0 }));
    assert!(total_triangles(&culled) < total_triangles(&uncut));
    assert_eq!(metrics.subterrain_culled_triangle_count, total_triangles(&uncut) - total_triangles(&culled));
    assert_eq!(metrics.subterrain_culled_vertex_count, total_vertices(&uncut) - total_vertices(&culled));
    for subset in &culled.subsets {
        assert!(subset.components_tile_triangles());
        for triangle in &subset.triangles {
            assert!(triangle
                .iter()
                .any(|&index| vec3(subset.vertices[index as usize].position).z + center.z >= 0.0));
        }
    }
}

#[test]
fn subterrain_cull_keeps_geometry_no_land_cell_covers() {
    let (uncut, _, _) = build_straddling_merge(None);
    let (culled, metrics, _) = build_straddling_merge(Some(Ground { cell: (1, 0), height: 0.0, margin: 1e9 }));
    assert_eq!(metrics.subterrain_culled_triangle_count, 0);
    assert_eq!(metrics.subterrain_culled_vertex_count, 0);
    assert_eq!(total_triangles(&culled), total_triangles(&uncut));
    assert_eq!(total_vertices(&culled), total_vertices(&uncut));
}

#[test]
fn subterrain_cull_margin_protects_geometry_near_the_ground() {
    // The statics span z in [-128, 128], so a margin past their full depth can bury nothing.
    let (uncut, _, _) = build_straddling_merge(None);
    let (culled, metrics, _) = build_straddling_merge(Some(Ground { cell: (0, 0), height: 0.0, margin: 256.0 }));
    assert_eq!(metrics.subterrain_culled_triangle_count, 0);
    assert_eq!(total_triangles(&culled), total_triangles(&uncut));
}

#[test]
fn merge_subsets_tests_and_appends_the_full_bound_union() {
    let bound = |seed: usize| UvBound {
        min_y: 0.0f32.to_bits(),
        max_x: 1.0f32.to_bits(),
        min_x: (seed as f32 / 1024.0).to_bits(),
        max_y: 1.0f32.to_bits(),
    };
    let subset_with_bounds = |bounds: Vec<UvBound>| Subset {
        vertices: vec![Vertex::default(); 3],
        triangles: vec![[0, 1, 2]],
        texture: SubsetTexture::AtlasPage(0),
        uv_bounds: bounds,
        ..Subset::default()
    };

    let source = subset_with_bounds((0..4).map(bound).collect());
    // Three short of the cap, sharing none of the incoming bounds: a single-bound insert would
    // fit, the true four-bound union does not.
    let destination = subset_with_bounds((100..100 + UV_BOUND_PALETTE_CAP - 3).map(bound).collect());

    let mut merged = vec![destination];
    let mut tally = SubterrainCullTally::default();
    merge_subsets(
        &mut merged,
        &[source],
        &[SubsetPlacement { places: vec![Placement { position: [0; 3], normal: [0; 3] }; 3], buried: None }],
        true,
        &ComponentOrigin {
            center: [0; 3],
            radius: 1.0f32.to_bits(),
            classification: StaticType::StaticTree,
        },
        &mut tally,
    );

    assert_eq!(merged.len(), 2, "the full union must force a new subset");
    assert_eq!(merged[1].uv_bounds.len(), 4, "the append must union every incoming bound");
    assert_eq!(merged[1].triangles.len(), 1);
    assert_eq!(merged[1].components.len(), 1);
    assert_eq!(tally, SubterrainCullTally { triangles: 0, vertices: 0 });
}

fn targets(target_error: f32, multiplier: f32, error: f32, extent: f32) -> SimplificationTarget {
    Subset::absolute_simplification_target_for_extent(
        &product,
        &quotient,
        StaticMeshSimplifierConfig {
            target_error: target_error.to_bits(),
            merge_error_multiplier: multiplier.to_bits(),
            ..StaticMeshSimplifierConfig::default()
        },
        error.to_bits(),
        extent.to_bits(),
    )
}

#[test]
fn targets_stay_between_the_configured_error_and_its_multiple() {
    let large = targets(0.05, 2.0, 100.0, 10.0);
    assert_eq!((f(large.requested), f(large.effective)), (10.0, 0.1));
    assert!(large.capped && large.should_simplify);
    let small = targets(0.05, 2.0, 0.1, 10.0);
    assert_eq!(f(small.effective), 0.05);
    assert!(!small.capped && !small.should_simplify);
    let between = targets(0.05, 2.0, 0.75, 10.0);
    assert_eq!(f(between.effective), 0.075);
    assert!(!between.capped && between.should_simplify);
    for extent in [0.0, -1.0, f32::INFINITY, f32::NAN] {
        assert_eq!(targets(0.05, 2.0, 1.0, extent).effective, 0);
    }
}

#[test]
fn subsets_with_alpha_have_no_target() {
    let alpha = Subset { has_alpha: true, ..make_grid_static(64.0, 0.0, 1.0).subsets[0].clone() };
    let target = target_of(&alpha, Config { target_error: 0.01, merge_error_multiplier: 100.0 }, 10_000.0);
    assert_eq!((target.requested, target.effective), (0, 0));
    assert!(!target.capped && !target.should_simplify);
    assert!(!alpha.allows_simplification());
}

#[test]
fn member_relative_cap_skips_repeated_same_target_simplification() {
    let target = target_of(
        &make_grid_static(64.0, 0.0, 1.0).subsets[0],
        Config { target_error: 0.05, merge_error_multiplier: 1.0 },
        10_000.0,
    );
    assert!(target.capped);
    assert!(!target.should_simplify);
    assert_eq!(f(target.effective), 0.05);
}

#[test]
fn zero_absolute_error_never_runs_a_merge_simplification_pass() {
    let target = target_of(
        &make_grid_static(64.0, 0.0, 1.0).subsets[0],
        Config { target_error: 0.0, merge_error_multiplier: 8.0 },
        0.0,
    );
    assert_eq!(f(target.requested), 0.0);
    assert_eq!(f(target.effective), 0.0);
    assert!(!target.should_simplify);
}

#[test]
fn groups_are_handed_on_in_batches() {
    let mut statics = TextMap::new();
    let mut plain = DistantStatic::default();
    plain.subsets.push(Subset {
        vertices: vec![Vertex::default(); 3],
        triangles: vec![[0, 1, 2]],
        ..Subset::default()
    });
    statics.insert("plain.nif".to_owned(), plain);
    statics.insert("empty.nif".to_owned(), DistantStatic::default());
    let key = |m: usize| if m == 0 { "empty.nif" } else { "plain.nif" };
    let count = MERGE_GEOMETRY_BATCH_GROUPS + 44;
    let readings: Vec<MemberReading> = (0..count)
        .map(|m| MemberReading { static_key: key(m).to_owned(), bucket: 0, subsets: Vec::new() })
        .collect();
    let groups: Vec<GroupWork> = (0..count).map(|g| GroupWork { id: format!("group {g}"), members: 1 }).collect();
    let place = |m: usize, _at: Option<usize>| {
        let subsets = statics.get(key(m)).unwrap().subsets.clone();
        let places = |subset: &Subset| SubsetPlacement {
            places: subset.vertices.iter().map(|_| Placement { position: [0; 3], normal: [0; 3] }).collect(),
            buried: None,
        };
        MemberGeometry {
            placements: subsets.iter().map(places).collect(),
            subsets,
            origin: ComponentOrigin { center: [0; 3], radius: 0, classification: StaticType::StaticAuto },
        }
    };
    let names =
        |batch: Vec<(String, DistantStatic)>| batch.into_iter().map(|(id, _)| id).collect::<Vec<String>>();
    let mut metrics = MergeSimplificationMetrics::default();
    let batches =
        build_merge_batches(&place, &join, &enclose, &names, &groups, &readings, &statics, &[], &mut metrics);
    assert_eq!(batches.iter().map(Vec::len).collect::<Vec<_>>(), vec![MERGE_GEOMETRY_BATCH_GROUPS - 1, 44]);
    assert_eq!(batches[0][0], "group 1");
    assert_eq!(batches[1][0], "group 256");
    assert_eq!(batches[1][43], "group 299");
    assert_eq!(metrics.emitted_merged_static_count, count - 1);
    assert_eq!(metrics.merged_triangle_count, count - 1);
    assert_eq!(metrics.member_triangle_count_after_second_pass, count - 1);

    let none: Vec<Vec<String>> =
        build_merge_batches(&place, &join, &enclose, &names, &[], &[], &statics, &[], &mut metrics);
    assert!(none.is_empty());
}

#[test]
fn simplified_geometry_is_found_by_static_and_level() {
    let entry = |static_key: &str, bucket: i32, triangles: usize| LodEntry {
        static_key: static_key.to_owned(),
        bucket,
        subsets: vec![Subset { triangles: vec![[0, 0, 0]; triangles], ..Subset::default() }],
    };
    let entries =
        vec![entry("a.nif", i32::MIN, 1), entry("a.nif", -1, 2), entry("b.nif", -1, 3), entry("a.nif", -1, 4)];
    let mut statics = TextMap::new();
    let mut own = DistantStatic::default();
    own.subsets.push(Subset { triangles: vec![[0, 0, 0]; 9], ..Subset::default() });
    statics.insert("a.nif".to_owned(), own);
    let index = index_entries(&entries);
    let count = |static_key: &str, bucket: i32| {
        let member = MemberReading { static_key: static_key.to_owned(), bucket, subsets: Vec::new() };
        select_subsets(&member, &statics, &entries, &index)[0].triangles.len()
    };
    assert_eq!(count("a.nif", i32::MIN), 1);
    assert_eq!(count("a.nif", -1), 2);
    assert_eq!(count("b.nif", -1), 3);
    assert_eq!(count("a.nif", i32::MAX), 9);
}
