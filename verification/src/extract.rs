//! Builds distant statics from the visible shapes of a mesh.

use crate::byte_text::{starts_uncased, starts_with_uncased};
use crate::float_bits::{below, finite, lanes_finite, number_eq, number_lt, same_number};
use crate::model::{DistantStatic, StaticType, Vertex};
use crate::overrides::{StaticOverride, StaticOverrides};
use vstd::prelude::*;

pub mod gather;
pub mod laws;
pub mod subsets;

verus! {

/// The class that the directory of a mesh suggests.
pub open spec fn inferred(path: Seq<char>) -> StaticType {
    if starts_uncased(path, "grass\\"@) {
        StaticType::StaticGrass
    } else if starts_uncased(path, "trees\\"@) {
        StaticType::StaticTree
    } else if starts_uncased(path, "x\\"@) {
        StaticType::StaticBuilding
    } else {
        StaticType::StaticAuto
    }
}

/// The class that the directory of a mesh suggests.
pub fn inferred_static_type(rel_path: &str) -> (r: StaticType)
    ensures
        r == inferred(rel_path@),
{
    if starts_with_uncased(rel_path, "grass\\") {
        StaticType::StaticGrass
    } else if starts_with_uncased(rel_path, "trees\\") {
        StaticType::StaticTree
    } else if starts_with_uncased(rel_path, "x\\") {
        StaticType::StaticBuilding
    } else {
        StaticType::StaticAuto
    }
}

/// The class of a mesh; none where an override leaves it out and nothing forces it in. An explicit
/// class stands before what the directory suggests.
pub open spec fn resolved_type(
    path: Seq<char>,
    force: bool,
    meshes: Map<Seq<char>, StaticOverride>,
) -> Option<StaticType> {
    if meshes.dom().contains(path) && meshes[path].ignore && !force {
        None
    } else if meshes.dom().contains(path) && meshes[path].static_type != StaticType::StaticAuto {
        Some(meshes[path].static_type)
    } else {
        Some(inferred(path))
    }
}

/// The class of a mesh, where it takes part.
pub fn resolve_static_type(
    rel_path: &str,
    force_generate: bool,
    overrides: &StaticOverrides,
) -> (r: Option<StaticType>)
    requires
        overrides.wf(),
    ensures
        r == resolved_type(rel_path@, force_generate, overrides@.meshes),
{
    if let Some(entry) = overrides.mesh_overrides.get(rel_path) {
        if entry.ignore && !force_generate {
            return None;
        }
        if entry.static_type != StaticType::StaticAuto {
            return Some(entry.static_type);
        }
    }
    Some(inferred_static_type(rel_path))
}

/// `product` answers every question, each with one answer.
pub open spec fn is_product<P: Fn(u32, u32) -> u32>(product: P) -> bool {
    &&& forall|a: u32, b: u32| #[trigger] call_requires(product, (a, b))
    &&& forall|a: u32, b: u32, x: u32, y: u32| #[trigger]
        call_ensures(product, (a, b), x) && #[trigger] call_ensures(product, (a, b), y) ==> x == y
}

/// The answer of `product`.
pub open spec fn multiplied<P: Fn(u32, u32) -> u32>(product: P, a: u32, b: u32) -> u32 {
    choose|x: u32| call_ensures(product, (a, b), x)
}

/// Bits of the number one.
pub const ONE: u32 = 0x3f80_0000;

/// Bits of the number two.
pub const TWO: u32 = 0x4000_0000;

/// The radius that counts for the cutoff: that of a building twice, that of a door by its factor,
/// at the largest scale.
pub open spec fn cutoff_radius<P: Fn(u32, u32) -> u32>(
    product: P,
    radius: u32,
    static_type: StaticType,
    is_door: bool,
    scale: u32,
    door_size_multiplier: u32,
) -> u32 {
    let building = if static_type == StaticType::StaticBuilding {
        TWO
    } else {
        ONE
    };
    let door = if is_door {
        door_size_multiplier
    } else {
        ONE
    };
    multiplied(product, multiplied(product, multiplied(product, radius, building), door), scale)
}

/// The class is an explicit distance, or grass: its size does not matter.
pub open spec fn any_size(static_type: StaticType) -> bool {
    ||| static_type == StaticType::StaticGrass
    ||| static_type == StaticType::StaticNear
    ||| static_type == StaticType::StaticFar
    ||| static_type == StaticType::StaticVeryFar
}

/// `a` is at least `b` as numbers.
pub open spec fn at_least(a: u32, b: u32) -> bool {
    below(b, a) || same_number(a, b)
}

/// A static of this radius is large enough.
pub open spec fn large_enough<P: Fn(u32, u32) -> u32>(
    product: P,
    radius: u32,
    static_type: StaticType,
    is_door: bool,
    scale: u32,
    min_radius: u32,
    door_size_multiplier: u32,
) -> bool {
    any_size(static_type) || at_least(
        cutoff_radius(product, radius, static_type, is_door, scale, door_size_multiplier),
        min_radius,
    )
}

/// Whether a static of this radius is large enough. `product` multiplies single-precision numbers
/// given by their bits.
pub fn passes_min_radius<P: Fn(u32, u32) -> u32>(
    product: &P,
    radius: u32,
    static_type: StaticType,
    is_door: bool,
    scale: u32,
    min_radius: u32,
    door_size_multiplier: u32,
) -> (r: bool)
    requires
        is_product(*product),
    ensures
        r == large_enough(
            *product,
            radius,
            static_type,
            is_door,
            scale,
            min_radius,
            door_size_multiplier,
        ),
{
    match static_type {
        StaticType::StaticGrass
        | StaticType::StaticNear
        | StaticType::StaticFar
        | StaticType::StaticVeryFar => {
            return true;
        },
        _ => {},
    }
    let building: u32 = if static_type == StaticType::StaticBuilding {
        TWO
    } else {
        ONE
    };
    let door: u32 = if is_door {
        door_size_multiplier
    } else {
        ONE
    };
    let first: u32 = product(radius, building);
    let second: u32 = product(first, door);
    let scaled: u32 = product(second, scale);
    number_lt(min_radius, scaled) || number_eq(scaled, min_radius)
}

/// Whether a static is large enough by its own bounding sphere.
pub fn passes_static_min_radius<P: Fn(u32, u32) -> u32>(
    product: &P,
    distant_static: &DistantStatic,
    min_radius: u32,
    door_size_multiplier: u32,
) -> (r: bool)
    requires
        is_product(*product),
    ensures
        r == large_enough(
            *product,
            distant_static.bounding_sphere.radius,
            distant_static.static_type,
            distant_static.is_door,
            distant_static.max_scale,
            min_radius,
            door_size_multiplier,
        ),
{
    passes_min_radius(
        product,
        distant_static.bounding_sphere.radius,
        distant_static.static_type,
        distant_static.is_door,
        distant_static.max_scale,
        min_radius,
        door_size_multiplier,
    )
}

/// The triangles that are kept, and how many were dropped for which reason.
#[derive(Debug)]
pub struct TriangleSanitization {
    pub triangles: Vec<[u16; 3]>,
    pub dropped_out_of_bounds: usize,
    pub dropped_non_finite_position: usize,
    pub dropped_degenerate: usize,
}

/// What becomes of a triangle.
pub enum Fate {
    OutOfBounds,
    NonFinite,
    Degenerate,
    Kept,
}

/// The corner refers to a vertex.
pub open spec fn in_range(vertices: Seq<Vertex>, corner: u16) -> bool {
    corner < vertices.len()
}

/// The position is made of finite numbers.
pub open spec fn placed_finite(vertex: Vertex) -> bool {
    finite(vertex.position@[0]) && finite(vertex.position@[1]) && finite(vertex.position@[2])
}

/// What becomes of a triangle: first its corners must refer to vertices, then those must lie
/// somewhere, then it must have an area.
pub open spec fn fate(triangle: [u16; 3], flat: bool, vertices: Seq<Vertex>) -> Fate {
    let t = triangle@;
    if !(in_range(vertices, t[0]) && in_range(vertices, t[1]) && in_range(vertices, t[2])) {
        Fate::OutOfBounds
    } else if !(placed_finite(vertices[t[0] as int]) && placed_finite(vertices[t[1] as int])
        && placed_finite(vertices[t[2] as int])) {
        Fate::NonFinite
    } else if flat {
        Fate::Degenerate
    } else {
        Fate::Kept
    }
}

/// The triangles that are kept, in order.
pub open spec fn kept_triangles(
    triangles: Seq<[u16; 3]>,
    flat: Seq<bool>,
    vertices: Seq<Vertex>,
) -> Seq<[u16; 3]>
    decreases triangles.len(),
{
    if triangles.len() == 0 {
        Seq::empty()
    } else {
        let before = kept_triangles(triangles.drop_last(), flat.drop_last(), vertices);
        if fate(triangles.last(), flat.last(), vertices) is Kept {
            before.push(triangles.last())
        } else {
            before
        }
    }
}

/// How many triangles meet the fate.
pub open spec fn fate_count(
    triangles: Seq<[u16; 3]>,
    flat: Seq<bool>,
    vertices: Seq<Vertex>,
    wanted: Fate,
) -> nat
    decreases triangles.len(),
{
    if triangles.len() == 0 {
        0
    } else {
        fate_count(triangles.drop_last(), flat.drop_last(), vertices, wanted) + if fate(
            triangles.last(),
            flat.last(),
            vertices,
        ) == wanted {
            1nat
        } else {
            0nat
        }
    }
}

/// Every triangle is kept or counted under one reason.
pub proof fn lemma_fates_partition(
    triangles: Seq<[u16; 3]>,
    flat: Seq<bool>,
    vertices: Seq<Vertex>,
)
    ensures
        kept_triangles(triangles, flat, vertices).len() == fate_count(
            triangles,
            flat,
            vertices,
            Fate::Kept,
        ),
        fate_count(triangles, flat, vertices, Fate::Kept) + fate_count(
            triangles,
            flat,
            vertices,
            Fate::OutOfBounds,
        ) + fate_count(triangles, flat, vertices, Fate::NonFinite) + fate_count(
            triangles,
            flat,
            vertices,
            Fate::Degenerate,
        ) == triangles.len(),
    decreases triangles.len(),
{
    if triangles.len() > 0 {
        lemma_fates_partition(triangles.drop_last(), flat.drop_last(), vertices);
    }
}

/// What is kept refers to vertices that lie somewhere.
pub proof fn lemma_kept_usable(triangles: Seq<[u16; 3]>, flat: Seq<bool>, vertices: Seq<Vertex>)
    ensures
        forall|i: int, c: int|
            0 <= i < kept_triangles(triangles, flat, vertices).len() && 0 <= c < 3 ==> {
                let corner = #[trigger] kept_triangles(triangles, flat, vertices)[i]@[c];
                in_range(vertices, corner) && placed_finite(vertices[corner as int])
            },
    decreases triangles.len(),
{
    if triangles.len() > 0 {
        let before = kept_triangles(triangles.drop_last(), flat.drop_last(), vertices);
        let all = kept_triangles(triangles, flat, vertices);
        lemma_kept_usable(triangles.drop_last(), flat.drop_last(), vertices);
        assert forall|i: int, c: int| 0 <= i < all.len() && 0 <= c < 3 implies {
            let corner = #[trigger] all[i]@[c];
            in_range(vertices, corner) && placed_finite(vertices[corner as int])
        } by {
            if i < before.len() {
                assert(all[i] == before[i]);
            }
        }
    }
}

impl TriangleSanitization {
    /// How many triangles were dropped.
    pub fn dropped_total(&self) -> (r: usize)
        requires
            self.dropped_out_of_bounds + self.dropped_non_finite_position
                + self.dropped_degenerate <= usize::MAX,
        ensures
            r == self.dropped_out_of_bounds + self.dropped_non_finite_position
                + self.dropped_degenerate,
    {
        self.dropped_out_of_bounds + self.dropped_non_finite_position + self.dropped_degenerate
    }
}

fn is_placed(vertex: &Vertex) -> (r: bool)
    ensures
        r == placed_finite(*vertex),
{
    lanes_finite(&vertex.position)
}

/// Drops triangles that cannot be drawn. `flat` marks those without an area.
pub fn sanitize_triangles(triangles: &[[u16; 3]], flat: &[bool], vertices: &[Vertex]) -> (r:
    TriangleSanitization)
    requires
        flat@.len() == triangles@.len(),
    ensures
        r.triangles@ == kept_triangles(triangles@, flat@, vertices@),
        r.dropped_out_of_bounds == fate_count(triangles@, flat@, vertices@, Fate::OutOfBounds),
        r.dropped_non_finite_position == fate_count(triangles@, flat@, vertices@, Fate::NonFinite),
        r.dropped_degenerate == fate_count(triangles@, flat@, vertices@, Fate::Degenerate),
        r.triangles@.len() + r.dropped_out_of_bounds + r.dropped_non_finite_position
            + r.dropped_degenerate == triangles@.len(),
        r.dropped_out_of_bounds + r.dropped_non_finite_position + r.dropped_degenerate
            <= usize::MAX,
{
    let count: usize = triangles.len();
    let mut r = TriangleSanitization {
        triangles: Vec::new(),
        dropped_out_of_bounds: 0,
        dropped_non_finite_position: 0,
        dropped_degenerate: 0,
    };
    let mut i: usize = 0;
    while i < count
        invariant
            i <= count,
            count == triangles@.len(),
            flat@.len() == triangles@.len(),
            r.triangles@ == kept_triangles(
                triangles@.take(i as int),
                flat@.take(i as int),
                vertices@,
            ),
            r.dropped_out_of_bounds == fate_count(
                triangles@.take(i as int),
                flat@.take(i as int),
                vertices@,
                Fate::OutOfBounds,
            ),
            r.dropped_non_finite_position == fate_count(
                triangles@.take(i as int),
                flat@.take(i as int),
                vertices@,
                Fate::NonFinite,
            ),
            r.dropped_degenerate == fate_count(
                triangles@.take(i as int),
                flat@.take(i as int),
                vertices@,
                Fate::Degenerate,
            ),
            r.triangles@.len() + r.dropped_out_of_bounds + r.dropped_non_finite_position
                + r.dropped_degenerate == i,
        decreases count - i,
    {
        let triangle = triangles[i];
        let a: usize = triangle[0] as usize;
        let b: usize = triangle[1] as usize;
        let c: usize = triangle[2] as usize;
        proof {
            assert(triangles@.take(i + 1).drop_last() =~= triangles@.take(i as int));
            assert(flat@.take(i + 1).drop_last() =~= flat@.take(i as int));
            assert(triangles@.take(i + 1).last() == triangle);
            assert(flat@.take(i + 1).last() == flat@[i as int]);
        }
        if !(a < vertices.len() && b < vertices.len() && c < vertices.len()) {
            r.dropped_out_of_bounds = r.dropped_out_of_bounds + 1;
        } else if !(is_placed(&vertices[a]) && is_placed(&vertices[b]) && is_placed(&vertices[c])) {
            r.dropped_non_finite_position = r.dropped_non_finite_position + 1;
        } else if flat[i] {
            r.dropped_degenerate = r.dropped_degenerate + 1;
        } else {
            r.triangles.push(triangle);
        }
        i = i + 1;
    }
    assert(triangles@.take(i as int) =~= triangles@);
    assert(flat@.take(i as int) =~= flat@);
    r
}

} // verus!
