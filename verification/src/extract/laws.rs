//! Laws of extraction: which meshes, shapes and triangles are kept, and what becomes of them.

use crate::byte_text::{lower_char, lower_text, starts_uncased};
use crate::extract::subsets::{
    becomes_static, becomes_subset, covers, data_of, is_subset_of, kept_shapes, seen_texture,
    shape_vertices, texture_below, whole_texture, MeshUse, ShapeFacts,
};
use crate::extract::{
    fate, fate_count, kept_triangles, large_enough, multiplied, placed_finite, resolved_type, Fate,
};
use crate::float_bits::{is_number, line_position, INFINITE_MAGNITUDE};
use crate::model::merge::corners;
use crate::model::{StaticType, Subset, TextureSym, Vertex};
use crate::nif::{material_of, visible, ObjectKind, Scene, Seen};
use crate::overrides::keys::{mesh_key, turned, without_prefix};
use crate::overrides::StaticOverride;
use crate::picks::{lemma_pick_next, picks};
use vstd::prelude::*;

verus! {

// ---------------------------------------------------------------------------------------------
// Classes
// ---------------------------------------------------------------------------------------------

/// A mesh is left out exactly where its override says so and nothing forces it in; an explicit class
/// is its class, whatever its directory; else grass, trees and the buildings below `x` are told by
/// their directory, and every other mesh has none.
pub proof fn lemma_class_of_mesh(
    path: Seq<char>,
    force: bool,
    meshes: Map<Seq<char>, StaticOverride>,
    r: Option<StaticType>,
)
    requires
        r == resolved_type(path, force, meshes),
    ensures
        r is None <==> !force && meshes.dom().contains(path) && meshes[path].ignore,
        r is Some && meshes.dom().contains(path) && !(meshes[path].static_type is StaticAuto)
            ==> r->0 == meshes[path].static_type,
        r is Some && !(meshes.dom().contains(path) && !(
        meshes[path].static_type is StaticAuto)) ==> {
            &&& r->0 is StaticGrass <==> starts_uncased(path, "grass\\"@)
            &&& r->0 is StaticTree <==> starts_uncased(path, "trees\\"@)
            &&& r->0 is StaticBuilding <==> starts_uncased(path, "x\\"@)
            &&& r->0 is StaticAuto <==> !starts_uncased(path, "grass\\"@) && !starts_uncased(
                path,
                "trees\\"@,
            ) && !starts_uncased(path, "x\\"@)
        },
{
    reveal_strlit("grass\\");
    reveal_strlit("trees\\");
    reveal_strlit("x\\");
    lemma_starts(path, "grass\\"@);
    lemma_starts(path, "trees\\"@);
    lemma_starts(path, "x\\"@);
}

proof fn lemma_starts(path: Seq<char>, prefix: Seq<char>)
    requires
        prefix.len() > 0,
    ensures
        starts_uncased(path, prefix) ==> lower_char(path[0]) == lower_char(prefix[0]),
{
    let n = prefix.len() as int;
    if starts_uncased(path, prefix) {
        let a = lower_text(path.take(n));
        let b = lower_text(prefix);
        assert(a[0] == lower_char(path[0]) && b[0] == lower_char(prefix[0]));
    }
}

/// What must be at least the limit for a static to be large enough.
pub open spec fn reaches(value: u32, limit: u32) -> bool {
    is_number(value) && is_number(limit) && line_position(limit) <= line_position(value)
}

/// Statics of an explicit distance, and grass, are large enough at any size. The radius of every
/// other one counts at its scale, twice for a building and by the door factor for a door.
pub proof fn lemma_size_that_counts<P: Fn(u32, u32) -> u32>(
    product: P,
    radius: u32,
    static_type: StaticType,
    is_door: bool,
    scale: u32,
    min_radius: u32,
    door_size_multiplier: u32,
)
    requires
        forall|x: u32| #[trigger] multiplied(product, x, 0x3f80_0000) == x,
    ensures
        ({
            let enough = large_enough(
                product,
                radius,
                static_type,
                is_door,
                scale,
                min_radius,
                door_size_multiplier,
            );
            let twice = multiplied(product, radius, 0x4000_0000);
            match static_type {
                StaticType::StaticGrass
                | StaticType::StaticNear
                | StaticType::StaticFar
                | StaticType::StaticVeryFar => enough,
                StaticType::StaticBuilding => if is_door {
                    enough == reaches(
                        multiplied(product, multiplied(product, twice, door_size_multiplier), scale),
                        min_radius,
                    )
                } else {
                    enough == reaches(multiplied(product, twice, scale), min_radius)
                },
                _ => if is_door {
                    enough == reaches(
                        multiplied(product, multiplied(product, radius, door_size_multiplier), scale),
                        min_radius,
                    )
                } else {
                    enough == reaches(multiplied(product, radius, scale), min_radius)
                },
            }
        }),
{
}

// ---------------------------------------------------------------------------------------------
// Triangles
// ---------------------------------------------------------------------------------------------

/// The corner names a vertex.
pub open spec fn names_vertex(vertices: Seq<Vertex>, triangle: [u16; 3], c: int) -> bool {
    triangle@[c] < vertices.len()
}

/// The corner names a vertex at a finite place.
pub open spec fn at_finite_place(vertices: Seq<Vertex>, triangle: [u16; 3], c: int) -> bool {
    &&& names_vertex(vertices, triangle, c)
    &&& forall|lane: int|
        0 <= lane < 3 ==> (#[trigger] vertices[triangle@[c] as int].position@[lane]) % 0x8000_0000
            < INFINITE_MAGNITUDE
}

/// All corners name vertices.
pub open spec fn all_named(vertices: Seq<Vertex>, triangle: [u16; 3]) -> bool {
    forall|c: int| 0 <= c < 3 ==> #[trigger] names_vertex(vertices, triangle, c)
}

/// All corners name vertices at finite places.
pub open spec fn all_finite(vertices: Seq<Vertex>, triangle: [u16; 3]) -> bool {
    forall|c: int| 0 <= c < 3 ==> #[trigger] at_finite_place(vertices, triangle, c)
}

/// Positions by fate: kept, out of bounds, without a place, and flat.
pub struct Fates {
    pub kept: Seq<int>,
    pub out_of_bounds: Seq<int>,
    pub non_finite: Seq<int>,
    pub flat: Seq<int>,
}

/// Triangles are kept, in order, exactly where all corners name vertices at finite places and there
/// is an area; of the others, those with a corner that names no vertex count as out of bounds, of
/// the rest those with a corner at no finite place as such, and the rest as flat.
pub proof fn lemma_triangles_kept(
    triangles: Seq<[u16; 3]>,
    flat: Seq<bool>,
    vertices: Seq<Vertex>,
) -> (r: Fates)
    requires
        flat.len() == triangles.len(),
    ensures
        picks(
            r.kept,
            triangles.len() as int,
            |t: int| all_finite(vertices, triangles[t]) && !flat[t],
        ),
        picks(r.out_of_bounds, triangles.len() as int, |t: int| !all_named(vertices, triangles[t])),
        picks(
            r.non_finite,
            triangles.len() as int,
            |t: int| all_named(vertices, triangles[t]) && !all_finite(vertices, triangles[t]),
        ),
        picks(
            r.flat,
            triangles.len() as int,
            |t: int| all_finite(vertices, triangles[t]) && flat[t],
        ),
        kept_triangles(triangles, flat, vertices) == r.kept.map_values(|t: int| triangles[t]),
        fate_count(triangles, flat, vertices, Fate::OutOfBounds) == r.out_of_bounds.len(),
        fate_count(triangles, flat, vertices, Fate::NonFinite) == r.non_finite.len(),
        fate_count(triangles, flat, vertices, Fate::Degenerate) == r.flat.len(),
{
    lemma_triangles_sorted(triangles, flat, vertices, triangles.len() as int)
}

proof fn lemma_triangles_sorted(
    triangles: Seq<[u16; 3]>,
    flat: Seq<bool>,
    vertices: Seq<Vertex>,
    end: int,
) -> (r: Fates)
    requires
        flat.len() == triangles.len(),
        0 <= end <= triangles.len(),
    ensures
        picks(r.kept, end, |t: int| all_finite(vertices, triangles[t]) && !flat[t]),
        picks(r.out_of_bounds, end, |t: int| !all_named(vertices, triangles[t])),
        picks(
            r.non_finite,
            end,
            |t: int| all_named(vertices, triangles[t]) && !all_finite(vertices, triangles[t]),
        ),
        picks(r.flat, end, |t: int| all_finite(vertices, triangles[t]) && flat[t]),
        kept_triangles(triangles.take(end), flat.take(end), vertices) == r.kept.map_values(
            |t: int| triangles[t],
        ),
        fate_count(triangles.take(end), flat.take(end), vertices, Fate::OutOfBounds)
            == r.out_of_bounds.len(),
        fate_count(triangles.take(end), flat.take(end), vertices, Fate::NonFinite)
            == r.non_finite.len(),
        fate_count(triangles.take(end), flat.take(end), vertices, Fate::Degenerate) == r.flat.len(),
        end == triangles.len() ==> triangles.take(end) == triangles && flat.take(end) == flat,
    decreases end,
{
    let is_kept = |t: int| all_finite(vertices, triangles[t]) && !flat[t];
    let is_out = |t: int| !all_named(vertices, triangles[t]);
    let is_lost = |t: int|
        all_named(vertices, triangles[t]) && !all_finite(vertices, triangles[t]);
    let is_flat = |t: int| all_finite(vertices, triangles[t]) && flat[t];
    if end == triangles.len() {
        assert(triangles.take(end) =~= triangles);
        assert(flat.take(end) =~= flat);
    }
    if end == 0 {
        let r = Fates {
            kept: Seq::empty(),
            out_of_bounds: Seq::empty(),
            non_finite: Seq::empty(),
            flat: Seq::empty(),
        };
        assert(kept_triangles(triangles.take(end), flat.take(end), vertices) =~= r.kept.map_values(
            |t: int| triangles[t],
        ));
        r
    } else {
        let before = lemma_triangles_sorted(triangles, flat, vertices, end - 1);
        let t = end - 1;
        lemma_pick_next(before.kept, t, is_kept);
        lemma_pick_next(before.out_of_bounds, t, is_out);
        lemma_pick_next(before.non_finite, t, is_lost);
        lemma_pick_next(before.flat, t, is_flat);
        let some = triangles.take(end);
        let marks = flat.take(end);
        assert(some.drop_last() =~= triangles.take(t));
        assert(marks.drop_last() =~= flat.take(t));
        assert(some.last() == triangles[t] && marks.last() == flat[t]);
        lemma_fate(triangles[t], flat[t], vertices);
        let r = Fates {
            kept: if is_kept(t) {
                before.kept.push(t)
            } else {
                before.kept
            },
            out_of_bounds: if is_out(t) {
                before.out_of_bounds.push(t)
            } else {
                before.out_of_bounds
            },
            non_finite: if is_lost(t) {
                before.non_finite.push(t)
            } else {
                before.non_finite
            },
            flat: if is_flat(t) {
                before.flat.push(t)
            } else {
                before.flat
            },
        };
        assert(kept_triangles(some, marks, vertices) =~= r.kept.map_values(
            |k: int| triangles[k],
        ));
        r
    }
}

proof fn lemma_fate(triangle: [u16; 3], flat: bool, vertices: Seq<Vertex>)
    ensures
        fate(triangle, flat, vertices) is Kept <==> all_finite(vertices, triangle) && !flat,
        fate(triangle, flat, vertices) is OutOfBounds <==> !all_named(vertices, triangle),
        fate(triangle, flat, vertices) is NonFinite <==> all_named(vertices, triangle)
            && !all_finite(vertices, triangle),
        fate(triangle, flat, vertices) is Degenerate <==> all_finite(vertices, triangle) && flat,
{
    assert(all_named(vertices, triangle) <==> names_vertex(vertices, triangle, 0) && names_vertex(
        vertices,
        triangle,
        1,
    ) && names_vertex(vertices, triangle, 2));
    lemma_finite_corner(vertices, triangle, 0);
    lemma_finite_corner(vertices, triangle, 1);
    lemma_finite_corner(vertices, triangle, 2);
    assert(all_finite(vertices, triangle) <==> at_finite_place(vertices, triangle, 0)
        && at_finite_place(vertices, triangle, 1) && at_finite_place(vertices, triangle, 2));
}

proof fn lemma_finite_corner(vertices: Seq<Vertex>, triangle: [u16; 3], c: int)
    requires
        0 <= c < 3,
    ensures
        at_finite_place(vertices, triangle, c) <==> names_vertex(vertices, triangle, c)
            && placed_finite(vertices[triangle@[c] as int]),
{
    let position = vertices[triangle@[c] as int].position;
    assert((forall|lane: int|
        0 <= lane < 3 ==> (#[trigger] position@[lane]) % 0x8000_0000 < INFINITE_MAGNITUDE) <==> (
    position@[0] % 0x8000_0000 < INFINITE_MAGNITUDE && position@[1] % 0x8000_0000
        < INFINITE_MAGNITUDE && position@[2] % 0x8000_0000 < INFINITE_MAGNITUDE));
}

// ---------------------------------------------------------------------------------------------
// Shapes
// ---------------------------------------------------------------------------------------------

/// A vertex of an extracted subset lies where it was placed, with the texture coordinates of its
/// shape and the bound of the whole texture. It has the shape's own normal and color where the shape
/// has one for each vertex, else it faces up and has the color of the material, or white.
pub proof fn lemma_extracted_vertices<R: Fn(&String) -> TextureSym>(
    resolve: R,
    scene: Scene,
    seen: Seen,
    facts: ShapeFacts,
    subset: Subset,
    i: int,
)
    requires
        is_subset_of(resolve, scene, seen, facts, subset),
        covers(scene, seen, facts),
        0 <= i < data_of(scene, seen).positions@.len(),
    ensures
        ({
            let data = data_of(scene, seen);
            let vertex = subset.vertices@[i];
            let one = 0x3f80_0000u32;
            &&& subset.vertices@.len() == facts.places@.len()
            &&& vertex.position == facts.places@[i].position
            &&& vertex.uv == data.uvs@[i]
            &&& vertex.uv_bound.min_x == 0 && vertex.uv_bound.min_y == 0
            &&& vertex.uv_bound.max_x == one && vertex.uv_bound.max_y == one
            &&& subset.uv_bounds@.len() == 1 && subset.uv_bounds@[0] == vertex.uv_bound
            &&& data.normals@.len() == data.positions@.len() ==> vertex.normal
                == facts.places@[i].normal
            &&& data.normals@.len() != data.positions@.len() ==> vertex.normal@ == seq![
                0u32,
                0u32,
                one,
            ]
            &&& data.colors@.len() == data.positions@.len() ==> vertex.color == data.colors@[i]
            &&& data.colors@.len() != data.positions@.len() ==> match seen.properties.material {
                Some(key) if key < scene.objects@.len()
                    && scene.objects@[key as int].kind is Material => {
                    let material = scene.objects@[key as int].kind->Material_0;
                    &&& forall|lane: int|
                        0 <= lane < 3 ==> #[trigger] vertex.color@[lane]
                            == material.diffuse@[lane]
                    &&& vertex.color@[3] == material.alpha
                },
                _ => vertex.color@ == seq![one, one, one, one],
            }
        }),
{
    let data = data_of(scene, seen);
    let material = material_of(scene.objects@, seen.properties);
    let all = shape_vertices(data, facts.places@, material);
    let vertex = subset.vertices@[i];
    assert(vertex == all[i]);
    assert(subset.uv_bounds@[0] == whole_texture());
    let one = 0x3f80_0000u32;
    if data.normals@.len() != data.positions@.len() {
        assert(vertex.normal@ =~= seq![0u32, 0u32, one]);
    }
    if data.colors@.len() != data.positions@.len() {
        match seen.properties.material {
            Some(key) if key < scene.objects@.len()
                && scene.objects@[key as int].kind is Material => {
                assert forall|lane: int| 0 <= lane < 3 implies #[trigger] vertex.color@[lane]
                    == scene.objects@[key as int].kind->Material_0.diffuse@[lane] by {
                    assert(lane == 0 || lane == 1 || lane == 2);
                }
            },
            _ => {
                assert(vertex.color@ =~= seq![one, one, one, one]);
            },
        }
    }
}

/// An extracted subset blends where its alpha property does or tests, shines as its material does,
/// scrolls where the shape has a controller and the consent of its author, and has one symbol for
/// its texture; its triangles are those that can be drawn.
pub proof fn lemma_extracted_drawing<R: Fn(&String) -> TextureSym>(
    resolve: R,
    scene: Scene,
    seen: Seen,
    facts: ShapeFacts,
    subset: Subset,
) -> (kept: Seq<int>)
    requires
        is_subset_of(resolve, scene, seen, facts, subset),
        covers(scene, seen, facts),
    ensures
        subset.has_alpha <==> (seen.properties.alpha matches Some(key) && key
            < scene.objects@.len() && (scene.objects@[key as int].kind matches ObjectKind::Alpha {
            blends,
            tests,
        } && (blends || tests))),
        match seen.properties.material {
            Some(key) if key < scene.objects@.len()
                && scene.objects@[key as int].kind is Material => subset.emissive
                == scene.objects@[key as int].kind->Material_0.emissive,
            _ => subset.emissive == 0,
        },
        ({
            let shape = scene.objects@[seen.shape as int].kind->Shape_0;
            subset.has_uv_controller <==> shape.has_uv_controller && exists|i: int|
                0 <= i < shape.strings@.len() && lower_text((#[trigger] shape.strings@[i])@)
                    == lower_text("mge.distant.scroll"@)
        }),
        subset.texture is Source,
        subset.components@.len() == 0,
        ({
            let data = data_of(scene, seen);
            &&& picks(
                kept,
                data.triangles@.len() as int,
                |t: int|
                    all_finite(subset.vertices@, data.triangles@[t]) && !facts.flat@[t],
            )
            &&& subset.triangles@.len() == kept.len()
            &&& forall|i: int, c: int|
                0 <= i < kept.len() && 0 <= c < 3 ==> #[trigger] subset.triangles@[i]@[c]
                    == data.triangles@[kept[i]]@[c]
        }),
{
    let data = data_of(scene, seen);
    let material = material_of(scene.objects@, seen.properties);
    let vertices = shape_vertices(data, facts.places@, material);
    let r = lemma_triangles_kept(data.triangles@, facts.flat@, vertices);
    let left = kept_triangles(data.triangles@, facts.flat@, vertices);
    assert(corners(subset.triangles@).len() == corners(left).len());
    assert forall|i: int, c: int|
        0 <= i < r.kept.len() && 0 <= c < 3 implies #[trigger] subset.triangles@[i]@[c]
        == data.triangles@[r.kept[i]]@[c] by {
        assert(corners(subset.triangles@)[i] == corners(left)[i]);
        assert(left[i] == data.triangles@[r.kept[i]]);
        assert(c == 0 || c == 1 || c == 2);
    }
    r.kept
}

/// A shape becomes a subset exactly where its texture has a name, it has coordinates for all its
/// vertices and a triangle of it can be drawn.
pub proof fn lemma_shape_becomes_subset(scene: Scene, seen: Seen, facts: ShapeFacts)
    requires
        covers(scene, seen, facts),
    ensures
        ({
            let data = data_of(scene, seen);
            let vertices = shape_vertices(
                data,
                facts.places@,
                material_of(scene.objects@, seen.properties),
            );
            becomes_subset(scene, seen, facts) <==> {
                &&& seen_texture(scene, seen).len() > 0
                &&& data.positions@.len() <= data.uvs@.len()
                &&& exists|t: int|
                    0 <= t < data.triangles@.len() && all_finite(
                        vertices,
                        #[trigger] data.triangles@[t],
                    ) && !facts.flat@[t]
            }
        }),
{
    let data = data_of(scene, seen);
    let vertices = shape_vertices(
        data,
        facts.places@,
        material_of(scene.objects@, seen.properties),
    );
    let r = lemma_triangles_kept(data.triangles@, facts.flat@, vertices);
    let condition = |t: int| all_finite(vertices, data.triangles@[t]) && !facts.flat@[t];
    if r.kept.len() > 0 {
        let t = r.kept[0];
        assert(r.kept.contains(t));
        assert(condition(t));
        assert(all_finite(vertices, data.triangles@[t]) && !facts.flat@[t]);
    }
    if exists|t: int|
        0 <= t < data.triangles@.len() && all_finite(vertices, #[trigger] data.triangles@[t])
            && !facts.flat@[t] {
        let t = choose|t: int|
            0 <= t < data.triangles@.len() && all_finite(vertices, #[trigger] data.triangles@[t])
                && !facts.flat@[t];
        assert(condition(t));
        assert(r.kept.contains(t));
    }
}

/// The subsets of a mesh are those of its visible shapes that become subsets, each once, in order.
pub proof fn lemma_shapes_kept(scene: Scene, seen: Seq<Seen>, facts: Seq<ShapeFacts>)
    requires
        facts.len() == seen.len(),
    ensures
        picks(
            kept_shapes(scene, seen, facts),
            seen.len() as int,
            |k: int| becomes_subset(scene, seen[k], facts[k]),
        ),
{
    lemma_shapes_kept_before(scene, seen, facts, seen.len() as int);
    assert(seen.take(seen.len() as int) =~= seen);
    assert(facts.take(seen.len() as int) =~= facts);
}

proof fn lemma_shapes_kept_before(scene: Scene, seen: Seq<Seen>, facts: Seq<ShapeFacts>, end: int)
    requires
        facts.len() == seen.len(),
        0 <= end <= seen.len(),
    ensures
        picks(
            kept_shapes(scene, seen.take(end), facts.take(end)),
            end,
            |k: int| becomes_subset(scene, seen[k], facts[k]),
        ),
    decreases end,
{
    if end > 0 {
        let condition = |k: int| becomes_subset(scene, seen[k], facts[k]);
        lemma_shapes_kept_before(scene, seen, facts, end - 1);
        assert(seen.take(end).drop_last() =~= seen.take(end - 1));
        assert(facts.take(end).drop_last() =~= facts.take(end - 1));
        lemma_pick_next(
            kept_shapes(scene, seen.take(end - 1), facts.take(end - 1)),
            end - 1,
            condition,
        );
    }
}

/// A mesh becomes a static exactly where it has a class, is large enough, and a visible shape of it
/// becomes a subset.
pub proof fn lemma_mesh_becomes_static<P: Fn(u32, u32) -> u32>(
    product: P,
    static_type: Option<StaticType>,
    scene: Scene,
    facts: Seq<ShapeFacts>,
    radius: u32,
    mesh: MeshUse,
)
    requires
        facts.len() == visible(scene).len(),
    ensures
        becomes_static(product, static_type, scene, facts, radius, mesh) <==> static_type is Some
            && large_enough(
            product,
            radius,
            static_type->0,
            mesh.is_door,
            mesh.max_scale,
            mesh.min_radius,
            mesh.door_size_multiplier,
        ) && exists|k: int|
            0 <= k < facts.len() && #[trigger] becomes_subset(scene, visible(scene)[k], facts[k]),
{
    let seen = visible(scene);
    let kept = kept_shapes(scene, seen, facts);
    let condition = |k: int| becomes_subset(scene, seen[k], facts[k]);
    lemma_shapes_kept(scene, seen, facts);
    if kept.len() > 0 {
        assert(kept.contains(kept[0]));
        assert(condition(kept[0]));
        assert(becomes_subset(scene, seen[kept[0]], facts[kept[0]]));
    }
    if exists|k: int| 0 <= k < facts.len() && #[trigger] becomes_subset(scene, seen[k], facts[k]) {
        let k = choose|k: int|
            0 <= k < facts.len() && #[trigger] becomes_subset(scene, seen[k], facts[k]);
        assert(condition(k));
        assert(kept.contains(k));
    }
}

// ---------------------------------------------------------------------------------------------
// Paths
// ---------------------------------------------------------------------------------------------

proof fn lemma_prefix_taken(prefix: Seq<char>, rest: Seq<char>)
    ensures
        without_prefix(prefix + rest, prefix) == rest,
{
    assert(prefix =~= (prefix + rest).subrange(0, prefix.len() as int));
    assert(prefix.is_prefix_of(prefix + rest));
    assert((prefix + rest).skip(prefix.len() as int) =~= rest);
}

/// A path in small letters with backslashes stays as it is.
pub proof fn lemma_turned_settles(path: Seq<char>)
    ensures
        turned(turned(path)) == turned(path),
        turned(path).len() == path.len(),
        forall|i: int|
            0 <= i < path.len() ==> #[trigger] turned(path)[i] != '/' && !('A' <= turned(path)[i]
                <= 'Z'),
{
    assert(turned(turned(path)) =~= turned(path));
}

/// Below the texture directory a path has the same name whether or not it says the directory, and
/// with or without a separator in front.
pub proof fn lemma_texture_directory(path: Seq<char>)
    requires
        turned(path) == path,
        !("\\"@).is_prefix_of(path),
        !("textures"@).is_prefix_of(path),
    ensures
        texture_below(path) == path,
        texture_below("\\"@ + path) == path,
        texture_below("textures\\"@ + path) == path,
        texture_below("\\textures\\"@ + path) == path,
{
    reveal_strlit("\\");
    reveal_strlit("textures");
    reveal_strlit("textures\\");
    reveal_strlit("\\textures\\");
    let slash = "\\"@;
    let directory = "textures"@;
    lemma_turned_prefix(slash, path);
    lemma_turned_prefix("textures\\"@, path);
    lemma_turned_prefix("\\textures\\"@, path);
    lemma_prefix_taken(slash, path);
    let tail = slash + path;
    lemma_prefix_taken(directory, tail);
    assert("textures\\"@ + path =~= directory + tail);
    assert("\\textures\\"@ + path =~= slash + (directory + tail));
    lemma_prefix_taken(slash, directory + tail);
    assert(!slash.is_prefix_of(directory + tail)) by {
        assert((directory + tail)[0] == 't');
        if slash.is_prefix_of(directory + tail) {
            assert((directory + tail).subrange(0, 1)[0] == slash[0]);
        }
    }
}

proof fn lemma_turned_prefix(prefix: Seq<char>, path: Seq<char>)
    requires
        turned(path) == path,
        forall|i: int|
            0 <= i < prefix.len() ==> #[trigger] prefix[i] != '/' && lower_char(prefix[i])
                == prefix[i],
    ensures
        turned(prefix + path) == prefix + path,
{
    assert forall|i: int| 0 <= i < (prefix + path).len() implies turned(prefix + path)[i] == (prefix
        + path)[i] by {
        if i >= prefix.len() {
            assert(turned(path)[i - prefix.len()] == path[i - prefix.len()]);
        }
    }
    assert(turned(prefix + path) =~= prefix + path);
}

/// Below the mesh directory a path has the same key whether or not it says the directories above.
pub proof fn lemma_mesh_directory(path: Seq<char>)
    requires
        turned(path) == path,
        !("data files\\"@).is_prefix_of(path),
        !("meshes\\"@).is_prefix_of(path),
    ensures
        mesh_key(path) == path,
        mesh_key("meshes\\"@ + path) == path,
        mesh_key("data files\\meshes\\"@ + path) == path,
        mesh_key("data files\\"@ + path) == path,
{
    reveal_strlit("data files\\");
    reveal_strlit("meshes\\");
    reveal_strlit("data files\\meshes\\");
    let above = "data files\\"@;
    let directory = "meshes\\"@;
    lemma_turned_prefix(above, path);
    lemma_turned_prefix(directory, path);
    lemma_turned_prefix("data files\\meshes\\"@, path);
    lemma_prefix_taken(above, path);
    lemma_prefix_taken(directory, path);
    lemma_prefix_taken(above, directory + path);
    assert("data files\\meshes\\"@ + path =~= above + (directory + path));
    assert(!above.is_prefix_of(directory + path)) by {
        if above.is_prefix_of(directory + path) {
            assert((directory + path).subrange(0, above.len() as int)[0] == above[0]);
        }
    }
}

/// Paths that differ only in case and separators have the same key.
pub proof fn lemma_keys_ignore_case(a: Seq<char>, b: Seq<char>)
    requires
        turned(a) == turned(b),
    ensures
        mesh_key(a) == mesh_key(b),
        texture_below(a) == texture_below(b),
{
}

} // verus!
