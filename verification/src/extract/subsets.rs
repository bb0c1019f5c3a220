//! Subsets of a distant static from the visible shapes of its scene.

use crate::atlas::types::UvBound;
use crate::extract::{
    fate, is_product, kept_triangles, large_enough, passes_min_radius, resolve_static_type, resolved_type,
    sanitize_triangles, ONE,
};
use crate::model::append::Placement;
use crate::model::bounds::{all_bounds_updated, bounded_by_subsets, bounds_updated, joins};
use crate::model::merge::{corners, views, with_geometry, SubsetView};
use crate::model::{
    Bound, BoundingBox, DistantStatic, StaticType, Subset, SubsetTexture, TextureSym, Vertex,
};
use crate::nif::{
    all_seen, base_texture, lemma_visible_drawable, material_of, scrolls, seen_drawable, uses_alpha,
    visible, Geometry, Material, ObjectKind, Scene, Seen, Shape, ShapeData,
};
use crate::overrides::keys::{strip_prefix, text_of, turned, turned_chars, without_prefix};
use crate::overrides::StaticOverrides;
use vstd::prelude::*;

verus! {

/// The path of a texture below the texture directory.
pub open spec fn texture_below(path: Seq<char>) -> Seq<char> {
    without_prefix(without_prefix(without_prefix(turned(path), "\\"@), "textures"@), "\\"@)
}

/// The path of a texture below the texture directory.
pub fn subset_texture_path(path: &str) -> (r: String)
    ensures
        r@ == texture_below(path@),
{
    text_of(
        &strip_prefix(strip_prefix(strip_prefix(turned_chars(path), "\\"), "textures"), "\\"),
    )
}

/// The bound of a whole texture.
pub open spec fn whole_texture() -> UvBound {
    UvBound { min_y: 0, max_x: ONE, min_x: 0, max_y: ONE }
}

/// The color of a vertex that has none of its own.
pub open spec fn material_color(material: Option<Material>) -> [u32; 4] {
    match material {
        Some(m) => [m.diffuse@[0], m.diffuse@[1], m.diffuse@[2], m.alpha],
        None => [ONE, ONE, ONE, ONE],
    }
}

/// A vertex of a shape: where it was placed, with the shape's own normals and colors where it has
/// one for each vertex.
pub open spec fn shape_vertex(
    data: ShapeData,
    places: Seq<Placement>,
    material: Option<Material>,
    i: int,
) -> Vertex {
    Vertex {
        position: places[i].position,
        normal: if data.normals@.len() == data.positions@.len() {
            places[i].normal
        } else {
            [0, 0, ONE]
        },
        uv: data.uvs@[i],
        color: if data.colors@.len() == data.positions@.len() {
            data.colors@[i]
        } else {
            material_color(material)
        },
        uv_bound: whole_texture(),
    }
}

/// The vertices of a shape.
pub open spec fn shape_vertices(
    data: ShapeData,
    places: Seq<Placement>,
    material: Option<Material>,
) -> Seq<Vertex> {
    Seq::new(data.positions@.len(), |i: int| shape_vertex(data, places, material, i))
}

/// What arithmetic finds out about a visible shape.
pub struct ShapeFacts {
    /// Where each vertex comes to lie, with its normal.
    pub places: Vec<Placement>,
    /// Which triangles have no area.
    pub flat: Vec<bool>,
}

/// The data of a visible shape.
pub open spec fn data_of(scene: Scene, seen: Seen) -> ShapeData {
    scene.datas@[scene.objects@[seen.shape as int].kind->Shape_0.data->0 as int]
}

/// The facts cover the shape.
pub open spec fn covers(scene: Scene, seen: Seen, facts: ShapeFacts) -> bool {
    &&& facts.places@.len() == data_of(scene, seen).positions@.len()
    &&& facts.flat@.len() == data_of(scene, seen).triangles@.len()
}

/// The facts cover the shapes, one each.
pub open spec fn covers_all(scene: Scene, seen: Seq<Seen>, facts: Seq<ShapeFacts>) -> bool {
    &&& facts.len() == seen.len()
    &&& forall|i: int| 0 <= i < seen.len() ==> covers(scene, seen[i], #[trigger] facts[i])
}

/// The path of a visible shape's texture below the texture directory.
pub open spec fn seen_texture(scene: Scene, seen: Seen) -> Seq<char> {
    texture_below(base_texture(scene.objects@, seen.properties)->0)
}

/// The triangles of a visible shape that are kept.
pub open spec fn seen_triangles(scene: Scene, seen: Seen, facts: ShapeFacts) -> Seq<[u16; 3]> {
    let data = data_of(scene, seen);
    kept_triangles(
        data.triangles@,
        facts.flat@,
        shape_vertices(data, facts.places@, material_of(scene.objects@, seen.properties)),
    )
}

/// The shape becomes a subset: it names a texture, has coordinates for all its vertices, and keeps
/// a triangle.
pub open spec fn becomes_subset(scene: Scene, seen: Seen, facts: ShapeFacts) -> bool {
    &&& seen_texture(scene, seen).len() > 0
    &&& data_of(scene, seen).uvs@.len() >= data_of(scene, seen).positions@.len()
    &&& seen_triangles(scene, seen, facts).len() > 0
}

/// The symbol is an answer for the path.
pub open spec fn resolves<R: Fn(&String) -> TextureSym>(
    resolve: R,
    path: Seq<char>,
    sym: TextureSym,
) -> bool {
    exists|p: String| p@ == path && #[trigger] call_ensures(resolve, (&p,), sym)
}

/// The subset is that of the shape, whatever its bounds.
pub open spec fn is_subset_of<R: Fn(&String) -> TextureSym>(
    resolve: R,
    scene: Scene,
    seen: Seen,
    facts: ShapeFacts,
    subset: Subset,
) -> bool {
    let material = material_of(scene.objects@, seen.properties);
    &&& subset.vertices@ == shape_vertices(data_of(scene, seen), facts.places@, material)
    &&& corners(subset.triangles@) == corners(seen_triangles(scene, seen, facts))
    &&& subset.components@.len() == 0
    &&& subset.uv_bounds@ == seq![whole_texture()]
    &&& subset.has_alpha == uses_alpha(scene.objects@, seen.properties)
    &&& subset.has_uv_controller == scrolls(scene.objects@[seen.shape as int].kind->Shape_0)
    &&& subset.emissive == match material {
        Some(m) => m.emissive,
        None => 0,
    }
    &&& subset.texture matches SubsetTexture::Source(sym) && resolves(
        resolve,
        seen_texture(scene, seen),
        sym,
    )
}

/// The bounds of the subset are still to be computed.
pub open spec fn is_unbounded(subset: Subset) -> bool {
    &&& subset.bounding_sphere == (Bound { center: [0, 0, 0], radius: 0 })
    &&& subset.bounding_box == (BoundingBox { min: [0, 0, 0], max: [0, 0, 0] })
}

/// Positions of the shapes that become subsets, in order.
pub open spec fn kept_shapes(scene: Scene, seen: Seq<Seen>, facts: Seq<ShapeFacts>) -> Seq<int>
    decreases seen.len(),
{
    if seen.len() == 0 {
        Seq::empty()
    } else {
        let before = kept_shapes(scene, seen.drop_last(), facts.drop_last());
        if becomes_subset(scene, seen.last(), facts.last()) {
            before.push(seen.len() - 1)
        } else {
            before
        }
    }
}

/// The subsets are those of the shapes that become subsets, in order.
pub open spec fn are_subsets<R: Fn(&String) -> TextureSym>(
    resolve: R,
    scene: Scene,
    seen: Seq<Seen>,
    facts: Seq<ShapeFacts>,
    subsets: Seq<Subset>,
) -> bool {
    let kept = kept_shapes(scene, seen, facts);
    &&& subsets.len() == kept.len()
    &&& forall|i: int|
        0 <= i < kept.len() ==> is_subset_of(
            resolve,
            scene,
            seen[kept[i]],
            facts[kept[i]],
            #[trigger] subsets[i],
        )
}

proof fn lemma_kept_in_range(scene: Scene, seen: Seq<Seen>, facts: Seq<ShapeFacts>)
    ensures
        forall|i: int|
            0 <= i < kept_shapes(scene, seen, facts).len() ==> 0 <= #[trigger] kept_shapes(
                scene,
                seen,
                facts,
            )[i] < seen.len(),
    decreases seen.len(),
{
    if seen.len() > 0 {
        let before = kept_shapes(scene, seen.drop_last(), facts.drop_last());
        let all = kept_shapes(scene, seen, facts);
        lemma_kept_in_range(scene, seen.drop_last(), facts.drop_last());
        assert forall|i: int| 0 <= i < all.len() implies 0 <= #[trigger] all[i] < seen.len() by {
            if i < before.len() {
                assert(all[i] == before[i]);
            }
        }
    }
}

proof fn lemma_kept_become_subsets(scene: Scene, seen: Seq<Seen>, facts: Seq<ShapeFacts>, i: int)
    requires
        facts.len() == seen.len(),
        0 <= i < kept_shapes(scene, seen, facts).len(),
    ensures
        0 <= kept_shapes(scene, seen, facts)[i] < seen.len(),
        becomes_subset(
            scene,
            seen[kept_shapes(scene, seen, facts)[i]],
            facts[kept_shapes(scene, seen, facts)[i]],
        ),
    decreases seen.len(),
{
    if seen.len() > 0 {
        let before = kept_shapes(scene, seen.drop_last(), facts.drop_last());
        if i < before.len() {
            lemma_kept_become_subsets(scene, seen.drop_last(), facts.drop_last(), i);
        }
    }
}

/// A triangle is kept only where there are vertices.
proof fn lemma_kept_has_vertices(triangles: Seq<[u16; 3]>, flat: Seq<bool>, vertices: Seq<Vertex>)
    requires
        kept_triangles(triangles, flat, vertices).len() > 0,
    ensures
        vertices.len() > 0,
    decreases triangles.len(),
{
    if triangles.len() > 0 && !(fate(triangles.last(), flat.last(), vertices) is Kept) {
        lemma_kept_has_vertices(triangles.drop_last(), flat.drop_last(), vertices);
    }
}

/// Subsets that all have geometry are all kept.
proof fn lemma_all_with_geometry(subsets: Seq<SubsetView>, end: int)
    requires
        0 <= end <= subsets.len(),
        forall|i: int|
            0 <= i < subsets.len() ==> (#[trigger] subsets[i]).vertices.len() > 0
                && subsets[i].triangles.len() > 0,
    ensures
        with_geometry(subsets, end) == subsets.take(end),
    decreases end,
{
    if end > 0 {
        lemma_all_with_geometry(subsets, end - 1);
        assert(subsets.take(end) =~= subsets.take(end - 1).push(subsets[end - 1]));
    } else {
        assert(subsets.take(0) =~= Seq::empty());
    }
}

/// Extracted subsets all have geometry.
proof fn lemma_extracted_have_geometry<R: Fn(&String) -> TextureSym>(
    resolve: R,
    scene: Scene,
    seen: Seq<Seen>,
    facts: Seq<ShapeFacts>,
    subsets: Seq<Subset>,
)
    requires
        facts.len() == seen.len(),
        are_subsets(resolve, scene, seen, facts, subsets),
    ensures
        with_geometry(views(subsets), subsets.len() as int) == views(subsets),
{
    let kept = kept_shapes(scene, seen, facts);
    assert forall|i: int| 0 <= i < subsets.len() implies (#[trigger] views(
        subsets,
    )[i]).vertices.len() > 0 && views(subsets)[i].triangles.len() > 0 by {
        lemma_kept_become_subsets(scene, seen, facts, i);
        let shape = seen[kept[i]];
        let fact = facts[kept[i]];
        let data = data_of(scene, shape);
        assert(is_subset_of(resolve, scene, shape, fact, subsets[i]));
        lemma_kept_has_vertices(
            data.triangles@,
            fact.flat@,
            shape_vertices(data, fact.places@, material_of(scene.objects@, shape.properties)),
        );
    }
    lemma_all_with_geometry(views(subsets), subsets.len() as int);
    assert(views(subsets).take(subsets.len() as int) =~= views(subsets));
}

fn color_of(material: &Option<Material>) -> (r: [u32; 4])
    ensures
        r == material_color(*material),
{
    match material {
        Some(m) => [m.diffuse[0], m.diffuse[1], m.diffuse[2], m.alpha],
        None => [ONE, ONE, ONE, ONE],
    }
}

fn place_vertices(data: &ShapeData, places: &Vec<Placement>, material: &Option<Material>) -> (r: Vec<
    Vertex,
>)
    requires
        places@.len() == data.positions@.len(),
        data.uvs@.len() >= data.positions@.len(),
    ensures
        r@ == shape_vertices(*data, places@, *material),
{
    let count: usize = data.positions.len();
    let has_normals: bool = data.normals.len() == count;
    let has_colors: bool = data.colors.len() == count;
    let fallback = color_of(material);
    let ghost all = shape_vertices(*data, places@, *material);
    let mut vertices: Vec<Vertex> = Vec::new();
    let mut i: usize = 0;
    while i < count
        invariant
            i <= count,
            count == data.positions@.len(),
            places@.len() == count,
            data.uvs@.len() >= count,
            has_normals == (data.normals@.len() == count),
            has_colors == (data.colors@.len() == count),
            fallback == material_color(*material),
            all == shape_vertices(*data, places@, *material),
            vertices@ == all.take(i as int),
        decreases count - i,
    {
        let vertex = Vertex {
            position: places[i].position,
            normal: if has_normals {
                places[i].normal
            } else {
                [0, 0, ONE]
            },
            uv: data.uvs[i],
            color: if has_colors {
                data.colors[i]
            } else {
                fallback
            },
            uv_bound: UvBound { min_y: 0, max_x: ONE, min_x: 0, max_y: ONE },
        };
        assert(vertex == all[i as int]);
        vertices.push(vertex);
        assert(all.take(i + 1) =~= all.take(i as int).push(vertex));
        i = i + 1;
    }
    assert(all.take(i as int) =~= all);
    vertices
}

/// The subset of a visible shape, where it becomes one.
pub fn extract_subset<R: Fn(&String) -> TextureSym>(
    resolve: &R,
    scene: &Scene,
    geometry: &Geometry,
    facts: &ShapeFacts,
) -> (r: Option<Subset>)
    requires
        forall|path: String| call_requires(*resolve, (&path,)),
        seen_drawable(*scene, geometry@),
        covers(*scene, geometry@, *facts),
    ensures
        match r {
            Some(subset) => becomes_subset(*scene, geometry@, *facts) && is_subset_of(
                *resolve,
                *scene,
                geometry@,
                *facts,
                subset,
            ) && is_unbounded(subset),
            None => !becomes_subset(*scene, geometry@, *facts),
        },
{
    let ghost seen = geometry@;
    let shape = match &scene.objects[geometry.shape].kind {
        ObjectKind::Shape(shape) => shape,
        _ => {
            return None;
        },
    };
    let data = match shape.data {
        Some(at) => &scene.datas[at],
        None => {
            return None;
        },
    };
    let path = match scene.base_texture_path(geometry.properties) {
        Some(path) => subset_texture_path(path.as_str()),
        None => {
            return None;
        },
    };
    if path.as_str().unicode_len() == 0 || data.uvs.len() < data.positions.len() {
        return None;
    }
    let material = scene.material_property(geometry.properties);
    let vertices = place_vertices(data, &facts.places, &material);
    let sanitized = sanitize_triangles(
        data.triangles.as_slice(),
        facts.flat.as_slice(),
        vertices.as_slice(),
    );
    if sanitized.triangles.len() == 0 {
        return None;
    }
    let sym = resolve(&path);
    assert(resolves(*resolve, seen_texture(*scene, seen), sym));
    let mut subset = Subset::default();
    subset.vertices = vertices;
    subset.triangles = sanitized.triangles;
    subset.uv_bounds.push(UvBound { min_y: 0, max_x: ONE, min_x: 0, max_y: ONE });
    assert(subset.uv_bounds@ =~= seq![whole_texture()]);
    subset.texture = SubsetTexture::Source(sym);
    subset.has_alpha = scene.has_alpha(geometry.properties);
    subset.has_uv_controller = shape.has_uv_controller();
    subset.emissive = match material {
        Some(m) => m.emissive,
        None => 0,
    };
    Some(subset)
}

/// The subsets of the visible shapes that become subsets, in order.
pub fn extract_subsets<R: Fn(&String) -> TextureSym>(
    resolve: &R,
    scene: &Scene,
    shapes: &Vec<Geometry>,
    facts: &Vec<ShapeFacts>,
) -> (r: Vec<Subset>)
    requires
        forall|path: String| call_requires(*resolve, (&path,)),
        forall|i: int|
            0 <= i < shapes@.len() ==> seen_drawable(*scene, #[trigger] all_seen(shapes@)[i]),
        covers_all(*scene, all_seen(shapes@), facts@),
    ensures
        are_subsets(*resolve, *scene, all_seen(shapes@), facts@, r@),
        forall|i: int| 0 <= i < r@.len() ==> is_unbounded(#[trigger] r@[i]),
{
    let ghost seen = all_seen(shapes@);
    let mut subsets: Vec<Subset> = Vec::new();
    let mut i: usize = 0;
    while i < shapes.len()
        invariant
            i <= shapes@.len(),
            seen == all_seen(shapes@),
            forall|path: String| call_requires(*resolve, (&path,)),
            forall|k: int| 0 <= k < shapes@.len() ==> seen_drawable(*scene, #[trigger] seen[k]),
            covers_all(*scene, seen, facts@),
            are_subsets(
                *resolve,
                *scene,
                seen.take(i as int),
                facts@.take(i as int),
                subsets@,
            ),
            forall|k: int| 0 <= k < subsets@.len() ==> is_unbounded(#[trigger] subsets@[k]),
        decreases shapes@.len() - i,
    {
        let ghost before = subsets@;
        let ghost kept = kept_shapes(*scene, seen.take(i as int), facts@.take(i as int));
        proof {
            assert(seen[i as int] == shapes@[i as int]@);
            assert(covers(*scene, seen[i as int], facts@[i as int]));
            assert(seen.take(i + 1).drop_last() =~= seen.take(i as int));
            assert(facts@.take(i + 1).drop_last() =~= facts@.take(i as int));
            assert(seen.take(i + 1).last() == seen[i as int]);
            assert(facts@.take(i + 1).last() == facts@[i as int]);
            lemma_kept_in_range(*scene, seen.take(i as int), facts@.take(i as int));
        }
        let made = extract_subset(resolve, scene, &shapes[i], &facts[i]);
        if let Some(subset) = made {
            subsets.push(subset);
        }
        proof {
            let now = kept_shapes(*scene, seen.take(i + 1), facts@.take(i + 1));
            assert forall|k: int| 0 <= k < now.len() implies is_subset_of(
                *resolve,
                *scene,
                seen.take(i + 1)[now[k]],
                facts@.take(i + 1)[now[k]],
                #[trigger] subsets@[k],
            ) by {
                if k < kept.len() {
                    assert(now[k] == kept[k]);
                    assert(subsets@[k] == before[k]);
                    assert(seen.take(i + 1)[now[k]] == seen.take(i as int)[kept[k]]);
                    assert(facts@.take(i + 1)[now[k]] == facts@.take(i as int)[kept[k]]);
                } else {
                    assert(now[k] == i);
                }
            }
        }
        i = i + 1;
    }
    assert(seen.take(i as int) =~= seen);
    assert(facts@.take(i as int) =~= facts@);
    subsets
}

/// What decides whether a mesh becomes a distant static.
pub struct MeshUse {
    /// Bits of the largest scale at which the mesh is used.
    pub max_scale: u32,
    /// Bits of the smallest radius that counts.
    pub min_radius: u32,
    pub is_door: bool,
    /// Bits of the factor by which doors count as larger.
    pub door_size_multiplier: u32,
    /// The mesh takes part whatever the overrides say.
    pub force_generate: bool,
}

/// The mesh becomes a distant static of this class.
pub open spec fn becomes_static<P: Fn(u32, u32) -> u32>(
    product: P,
    static_type: Option<StaticType>,
    scene: Scene,
    facts: Seq<ShapeFacts>,
    radius: u32,
    mesh: MeshUse,
) -> bool {
    &&& static_type is Some
    &&& visible(scene).len() > 0
    &&& large_enough(
        product,
        radius,
        static_type->0,
        mesh.is_door,
        mesh.max_scale,
        mesh.min_radius,
        mesh.door_size_multiplier,
    )
    &&& kept_shapes(scene, visible(scene), facts).len() > 0
}

/// Builds the distant static of a mesh. `facts` are those of the visible shapes, and `radius` is
/// that of the sphere around them. The bounds of the result are those of its geometry.
pub fn extract_static<
    R: Fn(&String) -> TextureSym,
    P: Fn(u32, u32) -> u32,
    J: Fn(Bound, Bound) -> Bound,
    E: Fn(&Vec<Vertex>) -> Bound,
>(
    resolve: &R,
    product: &P,
    join: &J,
    enclose: &E,
    rel_path: &str,
    overrides: &StaticOverrides,
    scene: &Scene,
    facts: &Vec<ShapeFacts>,
    radius: u32,
    mesh: &MeshUse,
) -> (r: Option<DistantStatic>)
    requires
        overrides.wf(),
        forall|path: String| call_requires(*resolve, (&path,)),
        is_product(*product),
        joins(*join),
        forall|v: Vec<Vertex>| #[trigger] call_requires(*enclose, (&v,)),
        covers_all(*scene, visible(*scene), facts@),
    ensures
        ({
            let static_type = resolved_type(rel_path@, mesh.force_generate, overrides@.meshes);
            match r {
                Some(made) => {
                    &&& becomes_static(*product, static_type, *scene, facts@, radius, *mesh)
                    &&& made.static_type == static_type->0
                    &&& made.max_scale == mesh.max_scale
                    &&& made.is_door == mesh.is_door
                    &&& !made.horizon_footprint_eligible
                    &&& are_subsets(*resolve, *scene, visible(*scene), facts@, made.subsets@)
                    &&& all_bounds_updated(
                        *join,
                        *enclose,
                        views(made.subsets@),
                        made.subsets@,
                    )
                    &&& bounded_by_subsets(*join, made)
                },
                None => !becomes_static(*product, static_type, *scene, facts@, radius, *mesh),
            }
        }),
{
    let static_type = match resolve_static_type(rel_path, mesh.force_generate, overrides) {
        Some(static_type) => static_type,
        None => {
            return None;
        },
    };
    let shapes = scene.visible_geometries();
    if shapes.len() == 0 {
        return None;
    }
    let large: bool = passes_min_radius(
        product,
        radius,
        static_type,
        mesh.is_door,
        mesh.max_scale,
        mesh.min_radius,
        mesh.door_size_multiplier,
    );
    if !large {
        return None;
    }
    proof {
        lemma_visible_drawable(*scene);
    }
    let subsets = extract_subsets(resolve, scene, &shapes, facts);
    if subsets.len() == 0 {
        return None;
    }
    let mut made = DistantStatic::default();
    made.static_type = static_type;
    made.max_scale = mesh.max_scale;
    made.is_door = mesh.is_door;
    made.subsets = subsets;
    let ghost raw = made.subsets@;
    made.update_bounds(join, enclose);
    proof {
        let seen = visible(*scene);
        lemma_extracted_have_geometry(*resolve, *scene, seen, facts@, raw);
        let kept = kept_shapes(*scene, seen, facts@);
        let after = made.subsets@;
        assert forall|i: int| 0 <= i < kept.len() implies is_subset_of(
            *resolve,
            *scene,
            seen[kept[i]],
            facts@[kept[i]],
            #[trigger] after[i],
        ) by {
            assert(bounds_updated(*join, *enclose, views(raw)[i], after[i]));
            assert(is_subset_of(*resolve, *scene, seen[kept[i]], facts@[kept[i]], raw[i]));
            assert(views(raw)[i] == raw[i]@);
        }
        assert forall|i: int| 0 <= i < after.len() implies bounds_updated(
            *join,
            *enclose,
            views(after)[i],
            #[trigger] after[i],
        ) by {
            assert(bounds_updated(*join, *enclose, views(raw)[i], after[i]));
            assert(views(after)[i] == after[i]@);
        }
    }
    Some(made)
}

} // verus!
