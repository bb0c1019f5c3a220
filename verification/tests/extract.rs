use glam::Vec3;
use statics::extract::sanitize_triangles;
use statics::extract::gather::gather_statics;
use statics::extract::subsets::{extract_static, subset_texture_path, MeshUse, ShapeFacts};
use statics::model::append::Placement;
use statics::model::{Bound, DistantStatic, StaticType, SubsetTexture, TextureSym, Vertex};
use statics::nif::{
    is_editor_marker, is_valid_texture_format, Geometry, Material, ObjectKind, Presence, Scene, SceneObject, Shape,
    ShapeData,
};
use statics::overrides::lines::parse_overrides_texts;

fn bits3(v: Vec3) -> [u32; 3] {
    v.to_array().map(f32::to_bits)
}

fn vec3(bits: [u32; 3]) -> Vec3 {
    Vec3::from_array(bits.map(f32::from_bits))
}

fn vertex(position: Vec3) -> Vertex {
    Vertex { position: bits3(position), ..Vertex::default() }
}

/// Which triangles have no area.
fn flat(triangles: &[[u16; 3]], positions: &[Vec3]) -> Vec<bool> {
    triangles
        .iter()
        .map(|triangle| {
            let corner = |c: usize| positions.get(triangle[c] as usize).copied().unwrap_or(Vec3::ZERO);
            (corner(1) - corner(0)).cross(corner(2) - corner(0)).length_squared() < 1e-12
        })
        .collect()
}

#[test]
fn sanitize_triangles_keeps_valid_and_counts_invalid_reasons() {
    let positions = [
        Vec3::new(0.0, 0.0, 0.0),
        Vec3::new(1.0, 0.0, 0.0),
        Vec3::new(0.0, 1.0, 0.0),
        Vec3::new(f32::NAN, 0.0, 0.0),
    ];
    let vertices: Vec<Vertex> = positions.into_iter().map(vertex).collect();
    let triangles = [[0, 1, 2], [0, 1, 9], [0, 1, 3], [0, 0, 1]];
    let result = sanitize_triangles(&triangles, &flat(&triangles, &positions), &vertices);

    assert_eq!(result.triangles, vec![[0, 1, 2]]);
    assert_eq!(result.dropped_out_of_bounds, 1);
    assert_eq!(result.dropped_non_finite_position, 1);
    assert_eq!(result.dropped_degenerate, 1);
    assert_eq!(result.dropped_total(), 3);
}

#[test]
fn sanitize_triangles_skips_subset_when_all_triangles_are_invalid() {
    let positions = [Vec3::new(0.0, 0.0, 0.0), Vec3::new(1.0, 0.0, 0.0), Vec3::new(0.0, 1.0, 0.0)];
    let vertices: Vec<Vertex> = positions.into_iter().map(vertex).collect();
    let triangles = [[0, 1, 9], [0, 0, 1]];
    let result = sanitize_triangles(&triangles, &flat(&triangles, &positions), &vertices);

    assert!(result.triangles.is_empty());
    assert_eq!(result.dropped_out_of_bounds, 1);
    assert_eq!(result.dropped_degenerate, 1);
}

fn presence(properties: Vec<usize>) -> Option<Presence> {
    Some(Presence { culled: false, name: String::new(), properties })
}

fn object(kind: ObjectKind) -> SceneObject {
    SceneObject { kind, presence: None }
}

fn named(kind: ObjectKind, name: &str) -> SceneObject {
    SceneObject {
        kind,
        presence: Some(Presence { culled: false, name: name.to_owned(), properties: Vec::new() }),
    }
}

fn triangle_data() -> ShapeData {
    let one = 1.0f32.to_bits();
    ShapeData {
        positions: vec![bits3(Vec3::ZERO), bits3(Vec3::X), bits3(Vec3::Y)],
        normals: vec![bits3(Vec3::Z); 3],
        uvs: vec![[0, 0], [one, 0], [0, one]],
        colors: Vec::new(),
        triangles: vec![[0, 1, 2]],
    }
}

fn triangle_shape(has_controller: bool, has_scroll_tag: bool) -> Shape {
    Shape {
        skinned: false,
        data: Some(0),
        has_uv_controller: has_controller,
        strings: if has_scroll_tag { vec!["mge.distant.scroll".to_owned()] } else { Vec::new() },
    }
}

/// One textured triangle: the shape is the only root, and the texture property comes after it.
fn triangle_scene(has_controller: bool, has_scroll_tag: bool) -> Scene {
    Scene {
        objects: vec![
            SceneObject {
                kind: ObjectKind::Shape(triangle_shape(has_controller, has_scroll_tag)),
                presence: presence(vec![1]),
            },
            object(ObjectKind::Texturing { base: Some("uv_anim\\ghost.dds".to_owned()) }),
        ],
        datas: vec![triangle_data()],
        roots: vec![0],
        has_markers: false,
    }
}

fn facts_of(scene: &Scene, shapes: &[Geometry]) -> Vec<ShapeFacts> {
    shapes
        .iter()
        .map(|geometry| {
            let data = match &scene.objects[geometry.shape].kind {
                ObjectKind::Shape(shape) => &scene.datas[shape.data.unwrap()],
                _ => panic!("only shapes are visible"),
            };
            let positions: Vec<Vec3> = data.positions.iter().map(|position| vec3(*position)).collect();
            ShapeFacts {
                places: data
                    .positions
                    .iter()
                    .enumerate()
                    .map(|(i, position)| Placement {
                        position: *position,
                        normal: data.normals.get(i).copied().unwrap_or([0; 3]),
                    })
                    .collect(),
                flat: flat(&data.triangles, &positions),
            }
        })
        .collect()
}

fn mesh_use(min_radius: f32) -> MeshUse {
    MeshUse {
        max_scale: 1.0f32.to_bits(),
        min_radius: min_radius.to_bits(),
        is_door: false,
        door_size_multiplier: 1.0f32.to_bits(),
        force_generate: false,
    }
}

fn product(a: u32, b: u32) -> u32 {
    (f32::from_bits(a) * f32::from_bits(b)).to_bits()
}

/// The larger of two spheres.
fn join(a: Bound, b: Bound) -> Bound {
    if f32::from_bits(a.radius) >= f32::from_bits(b.radius) {
        a
    } else {
        b
    }
}

/// The sphere around the first vertex that reaches all others.
fn enclose(vertices: &Vec<Vertex>) -> Bound {
    let center = vec3(vertices[0].position);
    let radius = vertices.iter().map(|v| (vec3(v.position) - center).length()).fold(0.0f32, f32::max);
    Bound { center: bits3(center), radius: radius.to_bits() }
}

const ERROR_SYM: TextureSym = TextureSym(9);

/// Only one texture is known; all others resolve to the error texture.
fn resolve(path: &String) -> TextureSym {
    if path == "uv_anim\\ghost.dds" {
        TextureSym(4)
    } else {
        ERROR_SYM
    }
}

fn resolve_nothing(_path: &String) -> TextureSym {
    ERROR_SYM
}

fn extract_from(scene: &Scene, overrides: &[&[u8]], min_radius: f32) -> Option<DistantStatic> {
    let shapes = scene.visible_geometries();
    extract_static(
        &resolve,
        &product,
        &join,
        &enclose,
        "mesh.nif",
        &parse_overrides_texts(overrides),
        scene,
        &facts_of(scene, &shapes),
        0.75f32.to_bits(),
        &mesh_use(min_radius),
    )
}

#[test]
fn from_nif_marks_uv_animated_subsets_only_when_controller_and_tag_exist() {
    let animated = extract_from(&triangle_scene(true, true), &[], 0.0).expect("animated static");
    let missing_tag = extract_from(&triangle_scene(true, false), &[], 0.0).expect("missing-tag static");
    let missing_controller =
        extract_from(&triangle_scene(false, true), &[], 0.0).expect("missing-controller static");

    assert_eq!(animated.subsets.len(), 1);
    assert!(animated.subsets[0].has_uv_controller);
    assert_eq!(missing_tag.subsets.len(), 1);
    assert!(!missing_tag.subsets[0].has_uv_controller);
    assert_eq!(missing_controller.subsets.len(), 1);
    assert!(!missing_controller.subsets[0].has_uv_controller);
}

#[test]
fn from_nif_remaps_missing_static_texture_to_error_texture() {
    let scene = triangle_scene(false, false);
    let shapes = scene.visible_geometries();
    let static_mesh = extract_static(
        &resolve_nothing,
        &product,
        &join,
        &enclose,
        "missing_texture.nif",
        &parse_overrides_texts(&[]),
        &scene,
        &facts_of(&scene, &shapes),
        0.75f32.to_bits(),
        &mesh_use(0.0),
    )
    .expect("static mesh");
    assert_eq!(static_mesh.subsets[0].texture.source_sym(), Some(ERROR_SYM));
}

#[test]
fn extracted_subsets_carry_identity_bounds_and_default_colors() {
    let made = extract_from(&triangle_scene(false, false), &[], 0.0).unwrap();
    let subset = &made.subsets[0];
    let one = 1.0f32.to_bits();
    assert_eq!(subset.texture, SubsetTexture::Source(TextureSym(4)));
    assert_eq!(subset.uv_bounds.len(), 1);
    assert_eq!((subset.uv_bounds[0].min_x, subset.uv_bounds[0].max_x), (0, one));
    assert_eq!(subset.vertices[2].uv, [0, one]);
    assert_eq!(subset.vertices[0].color, [one; 4]);
    assert_eq!(vec3(subset.vertices[0].normal), Vec3::Z);
    assert_eq!(subset.emissive, 0);
    assert!(!subset.has_alpha);
    assert_eq!(made.static_type, StaticType::StaticAuto);
}

#[test]
fn extracted_statics_are_bounded_by_their_geometry() {
    let scene = triangle_scene(false, false);
    let made = extract_from(&scene, &[], 0.0).unwrap();
    let positions: Vec<Vec3> = made.subsets[0].vertices.iter().map(|v| vec3(v.position)).collect();
    let least = positions.iter().copied().reduce(Vec3::min).unwrap();
    let most = positions.iter().copied().reduce(Vec3::max).unwrap();
    assert_ne!(least, most);
    assert_eq!(vec3(made.bounding_box.min), least);
    assert_eq!(vec3(made.bounding_box.max), most);
    let own = &made.subsets[0];
    assert_eq!((own.bounding_box.min, own.bounding_box.max), (made.bounding_box.min, made.bounding_box.max));
    let around = enclose(&own.vertices);
    for sphere in [made.bounding_sphere, own.bounding_sphere] {
        assert_eq!((sphere.center, sphere.radius), (around.center, around.radius));
    }
    assert!(f32::from_bits(made.bounding_sphere.radius) > 0.0);
}

#[test]
fn materials_color_vertices_and_light_subsets() {
    let mut scene = triangle_scene(false, false);
    let half = 0.5f32.to_bits();
    let quarter = 0.25f32.to_bits();
    scene.objects.push(object(ObjectKind::Material(Material {
        diffuse: [quarter, half, quarter],
        alpha: half,
        emissive: quarter,
    })));
    scene.objects.push(object(ObjectKind::Alpha { blends: false, tests: true }));
    scene.objects[0].presence = presence(vec![1, 2, 3]);
    let made = extract_from(&scene, &[], 0.0).unwrap();
    assert_eq!(made.subsets[0].vertices[1].color, [quarter, half, quarter, half]);
    assert_eq!(made.subsets[0].emissive, quarter);
    assert!(made.subsets[0].has_alpha);
}

#[test]
fn meshes_are_left_out_when_ignored_small_or_empty() {
    let scene = triangle_scene(false, false);
    assert!(extract_from(&scene, &[b"mesh.nif = ignore"], 0.0).is_none());
    assert!(extract_from(&scene, &[], 1.0).is_none());
    assert!(extract_from(&scene, &[b"mesh.nif = far"], 1.0).is_some());
    let mut empty = triangle_scene(false, false);
    empty.datas[0].triangles.clear();
    assert!(extract_from(&empty, &[], 0.0).is_none());
    let mut incomplete = triangle_scene(false, false);
    incomplete.datas[0].uvs.truncate(2);
    assert!(extract_from(&incomplete, &[], 0.0).is_none());
}

#[test]
fn texture_paths_lose_one_leading_directory() {
    assert_eq!(subset_texture_path("textures\\a.dds"), "a.dds");
    assert_eq!(subset_texture_path("\\textures\\a.dds"), "a.dds");
    assert_eq!(subset_texture_path("a.dds"), "a.dds");
    assert_eq!(subset_texture_path("textures"), "");
    assert_eq!(subset_texture_path("textures\\\\a.dds"), "\\a.dds");
}

#[test]
fn markers_and_formats_are_told_by_their_names() {
    assert!(is_editor_marker("EditorMarker01"));
    assert!(is_editor_marker("Tri EditorMarker"));
    assert!(!is_editor_marker("marker"));
    assert!(is_valid_texture_format("A.DDS"));
    assert!(is_valid_texture_format("b.tga"));
    assert!(is_valid_texture_format("c.bmp"));
    assert!(!is_valid_texture_format("d.png"));
}

fn shape_object() -> SceneObject {
    SceneObject { kind: ObjectKind::Shape(triangle_shape(false, false)), presence: presence(Vec::new()) }
}

fn scene_of(objects: Vec<SceneObject>, has_markers: bool) -> Scene {
    Scene { objects, datas: vec![triangle_data()], roots: vec![0], has_markers }
}

fn textured_group(children: Vec<usize>, texture: usize) -> SceneObject {
    SceneObject { kind: ObjectKind::Group { children }, presence: presence(vec![texture]) }
}

fn texture_object() -> SceneObject {
    object(ObjectKind::Texturing { base: Some("a.dds".to_owned()) })
}

fn seen(scene: &Scene) -> Vec<usize> {
    scene.visible_geometries().iter().map(|geometry| geometry.shape).collect()
}

#[test]
fn traversal_is_in_scene_order_and_inherits_properties() {
    let scene =
        scene_of(vec![textured_group(vec![3, 2], 1), texture_object(), shape_object(), shape_object()], false);
    assert_eq!(seen(&scene), vec![3, 2]);
    let geometry = &scene.visible_geometries()[0];
    assert_eq!(geometry.properties.texturing, Some(1));
    // The transform of a root does not count.
    assert_eq!(geometry.path, vec![3]);
    assert_eq!(scene.base_texture_path(geometry.properties).unwrap(), "a.dds");
}

#[test]
fn hidden_culled_and_marked_objects_are_left_out() {
    let mut culled = shape_object();
    culled.presence = Some(Presence { culled: true, name: String::new(), properties: Vec::new() });
    let hidden = object(ObjectKind::Hidden);
    let marker = named(ObjectKind::Shape(triangle_shape(false, false)), "EditorMarker");
    let objects = || {
        vec![
            textured_group(vec![2, 3, 4, 5], 1),
            texture_object(),
            SceneObject { kind: ObjectKind::Hidden, presence: None },
            shape_object(),
            named(ObjectKind::Shape(triangle_shape(false, false)), "EditorMarker"),
            shape_object(),
        ]
    };
    assert_eq!(seen(&scene_of(objects(), true)), vec![3, 5]);
    assert_eq!(seen(&scene_of(objects(), false)), vec![3, 4, 5]);
    let scene = scene_of(vec![textured_group(vec![2, 3, 4], 1), texture_object(), culled, hidden, marker], true);
    assert_eq!(seen(&scene), Vec::<usize>::new());
}

#[test]
fn switches_and_distances_pick_one_child() {
    let level = |near: f32, far: f32| [near.to_bits(), far.to_bits()];
    let switch = ObjectKind::Switch { children: vec![3, 4], active: 1 };
    let lod = ObjectKind::Lod {
        children: vec![3, 4],
        levels: vec![level(0.0, 8192.0), level(8192.0, 100000.0)],
    };
    let none = ObjectKind::Lod { children: vec![3, 4], levels: vec![level(0.0, 10.0)] };
    for (kind, expected) in [(switch, vec![4]), (lod, vec![4]), (none, vec![])] {
        let scene = scene_of(
            vec![
                textured_group(vec![2], 1),
                texture_object(),
                SceneObject { kind, presence: presence(Vec::new()) },
                shape_object(),
                shape_object(),
            ],
            false,
        );
        assert_eq!(seen(&scene), expected);
    }
}

#[test]
fn cycles_end_and_broken_links_lead_nowhere() {
    let scene = scene_of(vec![textured_group(vec![0, 9, 2], 1), texture_object(), shape_object()], false);
    assert!(seen(&scene).iter().all(|shape| *shape == 2));
    let none = Scene { objects: Vec::new(), datas: Vec::new(), roots: vec![5], has_markers: false };
    assert!(none.visible_geometries().is_empty());
}

#[test]
fn statics_are_gathered_by_key() {
    let sized = |max_scale: u32| Some(DistantStatic { max_scale, ..DistantStatic::default() });
    let gathered = gather_statics(vec![
        ("x\\tower.nif".to_owned(), sized(1)),
        ("f\\none.nif".to_owned(), None),
        ("a\\rock.nif".to_owned(), sized(2)),
    ]);
    let listed: Vec<(&str, u32)> = gathered.iter().map(|(key, ds)| (key.as_str(), ds.max_scale)).collect();
    assert_eq!(listed, vec![("a\\rock.nif", 2), ("x\\tower.nif", 1)]);
    assert!(gather_statics(Vec::new()).is_empty());
}
