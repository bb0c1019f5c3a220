//! Intermediate distant-static geometry.
//!
//! All lanes of vectors are IEEE single-precision bit patterns.

use crate::atlas::types::UvBound;
use crate::float_bits::{finite, is_finite, lanes_eq, number_lt, same_lanes, below};
use crate::list::copied;
use vstd::prelude::*;

pub mod append;
pub mod bounds;
pub mod bounds_laws;
pub mod drawn_laws;
pub mod lod;
pub mod merge;
pub mod merge_laws;
pub mod optimize;
pub mod pack;
pub mod palette;
pub mod process;
pub mod simplify;
pub mod vertex_laws;
pub mod weld;

verus! {

/// How a static is classified for draw distance.
#[derive(Clone, Copy, Debug, PartialEq, Eq, Structural)]
pub enum StaticType {
    StaticAuto,
    StaticNear,
    StaticFar,
    StaticVeryFar,
    StaticGrass,
    StaticTree,
    StaticBuilding,
}

impl Default for StaticType {
    fn default() -> (r: Self)
        ensures
            r == StaticType::StaticAuto,
    {
        StaticType::StaticAuto
    }
}

/// Symbol of a source texture; zero is the empty symbol.
#[derive(Clone, Copy, Debug, PartialEq, Eq, Structural)]
pub struct TextureSym(pub u32);

impl TextureSym {
    /// Whether this is the empty symbol.
    pub fn is_empty(self) -> (r: bool)
        ensures
            r == (self.0 == 0),
    {
        self.0 == 0
    }
}

/// The texture keys that symbols stand for.
pub struct TextureNames {
    /// The key of each symbol, by number; a symbol may stand for nothing.
    pub keys: Vec<Option<String>>,
}

/// The key that a symbol stands for.
pub open spec fn key_of(names: TextureNames, sym: TextureSym) -> Option<Seq<char>> {
    if sym.0 < names.keys@.len() {
        match names.keys@[sym.0 as int] {
            Some(key) => Some(key@),
            None => None,
        }
    } else {
        None
    }
}

impl TextureNames {
    /// The key that a symbol stands for.
    pub fn texture_key_for_sym(&self, sym: TextureSym) -> (r: Option<&str>)
        ensures
            match r {
                Some(key) => key_of(*self, sym) == Some(key@),
                None => key_of(*self, sym) is None,
            },
    {
        let index: usize = sym.0 as usize;
        if index < self.keys.len() {
            match &self.keys[index] {
                Some(key) => Some(key.as_str()),
                None => None,
            }
        } else {
            None
        }
    }
}

/// Texture identity carried by an intermediate static subset.
#[derive(Clone, Copy, Debug, PartialEq, Eq, Structural)]
pub enum SubsetTexture {
    /// Source texture.
    Source(TextureSym),
    /// Static atlas page assigned after atlas packing.
    AtlasPage(u32),
}

impl Default for SubsetTexture {
    fn default() -> (r: Self)
        ensures
            r == SubsetTexture::Source(TextureSym(0)),
    {
        SubsetTexture::Source(TextureSym(0))
    }
}

/// The source texture symbol, where there is one.
pub open spec fn source_of(texture: SubsetTexture) -> Option<TextureSym> {
    match texture {
        SubsetTexture::Source(sym) => if sym.0 == 0 {
            None
        } else {
            Some(sym)
        },
        SubsetTexture::AtlasPage(_) => None,
    }
}

impl SubsetTexture {
    /// Returns the source texture symbol when this points at a source texture.
    pub fn source_sym(self) -> (r: Option<TextureSym>)
        ensures
            r == source_of(self),
    {
        match self {
            SubsetTexture::Source(sym) => if sym.is_empty() {
                None
            } else {
                Some(sym)
            },
            SubsetTexture::AtlasPage(_) => None,
        }
    }
}

/// Uncompressed vertex used during intermediate static processing.
#[derive(Clone, Copy, Debug, Default)]
pub struct Vertex {
    pub position: [u32; 3],
    pub normal: [u32; 3],
    pub uv: [u32; 2],
    pub color: [u32; 4],
    pub uv_bound: UvBound,
}

/// A bounding sphere.
#[derive(Clone, Copy, Debug)]
pub struct Bound {
    pub center: [u32; 3],
    pub radius: u32,
}

/// An axis-aligned bounding box.
#[derive(Clone, Copy, Debug)]
pub struct BoundingBox {
    pub min: [u32; 3],
    pub max: [u32; 3],
}

/// Provenance of one appended run of source geometry inside a merged subset.
#[derive(Clone, Copy, Debug)]
pub struct MergedComponent {
    /// First triangle in the owning subset.
    pub first_triangle: u32,
    /// Number of triangles in this source run.
    pub triangle_count: u32,
    /// Center of the transformed source-model bounding sphere in merged-static local space.
    pub center: [u32; 3],
    /// Whole-source-model bounding-sphere radius times instance scale.
    pub radius: u32,
    /// Source static classification exactly as authored for the source static.
    pub classification: StaticType,
}

/// Uncompressed subset used during intermediate static processing.
#[derive(Debug)]
pub struct Subset {
    pub bounding_sphere: Bound,
    pub bounding_box: BoundingBox,
    pub vertices: Vec<Vertex>,
    pub triangles: Vec<[u16; 3]>,
    /// Source-component provenance for merged synthetic statics.
    ///
    /// Empty means this subset has no provenance and should render at all tiers. Non-empty records
    /// are sorted, contiguous, and tile `triangles` exactly.
    pub components: Vec<MergedComponent>,
    /// Distinct set of the bounds this subset's vertices carry, maintained incrementally.
    ///
    /// It bounds the palette that packing will build, so merges are refused when the union would
    /// exceed the palette cap. It may over-approximate, which only refuses a merge that would have
    /// fit. It must never under-approximate.
    pub uv_bounds: Vec<UvBound>,
    pub has_alpha: bool,
    pub has_uv_controller: bool,
    /// Average emissive material contribution.
    pub emissive: u32,
    pub texture: SubsetTexture,
}

/// Two subsets hold the same.
pub open spec fn same_subset(a: Subset, b: Subset) -> bool {
    &&& a.bounding_sphere == b.bounding_sphere
    &&& a.bounding_box == b.bounding_box
    &&& a.vertices@ == b.vertices@
    &&& a.triangles@ == b.triangles@
    &&& a.components@ == b.components@
    &&& a.uv_bounds@ == b.uv_bounds@
    &&& a.has_alpha == b.has_alpha
    &&& a.has_uv_controller == b.has_uv_controller
    &&& a.emissive == b.emissive
    &&& a.texture == b.texture
}

impl Clone for Subset {
    fn clone(&self) -> (r: Self)
        ensures
            same_subset(r, *self),
    {
        Subset {
            bounding_sphere: self.bounding_sphere,
            bounding_box: self.bounding_box,
            vertices: copied(self.vertices.as_slice()),
            triangles: copied(self.triangles.as_slice()),
            components: copied(self.components.as_slice()),
            uv_bounds: copied(self.uv_bounds.as_slice()),
            has_alpha: self.has_alpha,
            has_uv_controller: self.has_uv_controller,
            emissive: self.emissive,
            texture: self.texture,
        }
    }
}

/// A subset of nothing.
pub open spec fn is_blank(subset: Subset) -> bool {
    &&& subset.vertices@.len() == 0
    &&& subset.triangles@.len() == 0
    &&& subset.components@.len() == 0
    &&& subset.uv_bounds@.len() == 0
    &&& !subset.has_alpha
    &&& !subset.has_uv_controller
    &&& subset.emissive == 0
    &&& subset.texture == SubsetTexture::Source(TextureSym(0))
    &&& subset.bounding_sphere == (Bound { center: [0, 0, 0], radius: 0 })
    &&& subset.bounding_box == (BoundingBox { min: [0, 0, 0], max: [0, 0, 0] })
}

impl Default for Subset {
    fn default() -> (r: Self)
        ensures
            is_blank(r),
    {
        Subset {
            bounding_sphere: Bound { center: [0, 0, 0], radius: 0 },
            bounding_box: BoundingBox { min: [0, 0, 0], max: [0, 0, 0] },
            vertices: Vec::new(),
            triangles: Vec::new(),
            components: Vec::new(),
            uv_bounds: Vec::new(),
            has_alpha: false,
            has_uv_controller: false,
            emissive: 0,
            texture: SubsetTexture::Source(TextureSym(0)),
        }
    }
}

/// Intermediate distant static with uncompressed geometry and per-subset metadata.
#[derive(Debug)]
pub struct DistantStatic {
    pub bounding_sphere: Bound,
    pub bounding_box: BoundingBox,
    pub static_type: StaticType,
    pub subsets: Vec<Subset>,
    /// Maximum reference scale seen for this mesh in usage scanning.
    pub max_scale: u32,
    /// Whether this static is a door, eligible for the door-size multiplier.
    pub is_door: bool,
    /// Whether generated horizon footprints may be emitted for this synthetic static.
    pub horizon_footprint_eligible: bool,
}

impl Default for DistantStatic {
    fn default() -> (r: Self)
        ensures
            r.bounding_sphere == (Bound { center: [0, 0, 0], radius: 0 }),
            r.bounding_box == (BoundingBox { min: [0, 0, 0], max: [0, 0, 0] }),
            r.static_type == StaticType::StaticAuto,
            r.subsets@.len() == 0,
            r.max_scale == 0,
            !r.is_door,
            !r.horizon_footprint_eligible,
    {
        DistantStatic {
            bounding_sphere: Bound { center: [0, 0, 0], radius: 0 },
            bounding_box: BoundingBox { min: [0, 0, 0], max: [0, 0, 0] },
            static_type: StaticType::StaticAuto,
            subsets: Vec::new(),
            max_scale: 0,
            is_door: false,
            horizon_footprint_eligible: false,
        }
    }
}

// ---------------------------------------------------------------------------------------------
// Components
// ---------------------------------------------------------------------------------------------

/// A component may stand in a tiling: it has triangles, a finite radius that is not negative, and a
/// provenance other than grass.
pub open spec fn component_valid(component: MergedComponent) -> bool {
    &&& component.triangle_count > 0
    &&& finite(component.radius)
    &&& !below(component.radius, 0)
    &&& component.classification != StaticType::StaticGrass
}

/// Triangles that the components cover, taken in order.
pub open spec fn covered(components: Seq<MergedComponent>) -> int
    decreases components.len(),
{
    if components.len() == 0 {
        0
    } else {
        covered(components.drop_last()) + components.last().triangle_count
    }
}

/// Each component starts where the previous one ended.
pub open spec fn contiguous(components: Seq<MergedComponent>) -> bool {
    forall|i: int|
        0 <= i < components.len() ==> (#[trigger] components[i]).first_triangle == covered(
            components.take(i),
        )
}

/// Every component may stand in a tiling.
pub open spec fn components_valid(components: Seq<MergedComponent>) -> bool {
    forall|i: int| 0 <= i < components.len() ==> component_valid(#[trigger] components[i])
}

/// The components tile the triangles exactly; no components tile anything.
pub open spec fn tiles(components: Seq<MergedComponent>, triangle_count: int) -> bool {
    components.len() == 0 || {
        &&& components_valid(components)
        &&& contiguous(components)
        &&& covered(components) == triangle_count
    }
}

pub proof fn lemma_covered_take(components: Seq<MergedComponent>, i: int)
    requires
        0 <= i < components.len(),
    ensures
        covered(components.take(i + 1)) == covered(components.take(i))
            + components[i].triangle_count,
{
    assert(components.take(i + 1).drop_last() =~= components.take(i));
}

pub proof fn lemma_covered_grows(components: Seq<MergedComponent>, i: int, j: int)
    requires
        0 <= i <= j <= components.len(),
    ensures
        0 <= covered(components.take(i)) <= covered(components.take(j)),
    decreases j,
{
    if i < j {
        lemma_covered_grows(components, i, j - 1);
        lemma_covered_take(components, j - 1);
    } else if i > 0 {
        lemma_covered_grows(components, i - 1, i - 1);
        lemma_covered_take(components, i - 1);
    } else {
        assert(components.take(0).len() == 0);
    }
}

fn component_is_valid(component: &MergedComponent) -> (r: bool)
    ensures
        r == component_valid(*component),
{
    let grass = match component.classification {
        StaticType::StaticGrass => true,
        _ => false,
    };
    component.triangle_count > 0 && is_finite(component.radius) && !number_lt(component.radius, 0)
        && !grass
}

/// Returns whether `components` exactly tile `triangle_count` triangles.
///
/// Tiling requires each component to be non-empty, to start where the previous one ended, to carry
/// a finite non-negative radius, and to name a provenance other than grass (grass never
/// participates in merged component ranges). An empty component list tiles vacuously.
pub fn components_tile_triangle_count(components: &[MergedComponent], triangle_count: u32) -> (r:
    bool)
    ensures
        r == tiles(components@, triangle_count as int),
{
    if components.len() == 0 {
        return true;
    }
    let mut expected: u64 = 0;
    let mut i: usize = 0;
    assert(components@.take(0).len() == 0);
    while i < components.len()
        invariant
            i <= components@.len(),
            components@.len() > 0,
            expected == covered(components@.take(i as int)),
            expected <= u32::MAX,
            forall|k: int| 0 <= k < i ==> component_valid(#[trigger] components@[k]),
            forall|k: int|
                0 <= k < i ==> (#[trigger] components@[k]).first_triangle == covered(
                    components@.take(k),
                ),
        decreases components@.len() - i,
    {
        let component: MergedComponent = components[i];
        if !component_is_valid(&component) {
            assert(!component_valid(components@[i as int]));
            return false;
        }
        if component.first_triangle as u64 != expected {
            assert(components@[i as int].first_triangle != covered(components@.take(i as int)));
            return false;
        }
        proof {
            lemma_covered_take(components@, i as int);
        }
        expected = expected + component.triangle_count as u64;
        i = i + 1;
        if expected > 0xffff_ffff {
            proof {
                lemma_covered_grows(components@, i as int, components@.len() as int);
                assert(components@.take(components@.len() as int) =~= components@);
            }
            return false;
        }
    }
    assert(components@.take(i as int) =~= components@);
    expected == triangle_count as u64
}

/// The component continues the run that the last one began: same center, radius, and provenance.
pub open spec fn continues_run(
    components: Seq<MergedComponent>,
    center: [u32; 3],
    radius: u32,
    classification: StaticType,
    first_triangle: u32,
) -> bool {
    &&& components.len() > 0
    &&& components.last().first_triangle + components.last().triangle_count == first_triangle
    &&& same_lanes(components.last().center@, center@)
    &&& components.last().radius == radius
    &&& components.last().classification == classification
}

/// The components with one more run.
pub open spec fn with_component(
    components: Seq<MergedComponent>,
    first_triangle: u32,
    triangle_count: u32,
    center: [u32; 3],
    radius: u32,
    classification: StaticType,
) -> Seq<MergedComponent> {
    if triangle_count == 0 {
        components
    } else if continues_run(components, center, radius, classification, first_triangle) {
        components.drop_last().push(
            MergedComponent {
                triangle_count: (components.last().triangle_count + triangle_count) as u32,
                ..components.last()
            },
        )
    } else {
        components.push(
            MergedComponent { first_triangle, triangle_count, center, radius, classification },
        )
    }
}

impl Subset {
    /// Adds a component record, coalescing with the previous record when possible.
    pub fn push_component(
        &mut self,
        first_triangle: u32,
        triangle_count: u32,
        center: [u32; 3],
        radius: u32,
        classification: StaticType,
    )
        requires
            first_triangle + triangle_count <= u32::MAX,
        ensures
            final(self).components@ == with_component(
                old(self).components@,
                first_triangle,
                triangle_count,
                center,
                radius,
                classification,
            ),
            *final(self) == (Subset { components: final(self).components, ..*old(self) }),
    {
        if triangle_count == 0 {
            return;
        }
        let count: usize = self.components.len();
        if count > 0 {
            let previous: MergedComponent = self.components[count - 1];
            let ends_here = previous.first_triangle as u64 + previous.triangle_count as u64
                == first_triangle as u64;
            if ends_here && lanes_eq(&previous.center, &center) && previous.radius == radius
                && previous.classification == classification {
                let grown = MergedComponent {
                    first_triangle: previous.first_triangle,
                    triangle_count: previous.triangle_count + triangle_count,
                    center: previous.center,
                    radius: previous.radius,
                    classification: previous.classification,
                };
                self.components.pop();
                self.components.push(grown);
                return;
            }
        }
        self.components.push(
            MergedComponent { first_triangle, triangle_count, center, radius, classification },
        );
    }

    /// Whether the components tile the triangles.
    pub fn components_tile_triangles(&self) -> (r: bool)
        ensures
            r == (self.triangles@.len() <= u32::MAX && tiles(
                self.components@,
                self.triangles@.len() as int,
            )),
    {
        // A buffer longer than 32 bits count can never be tiled by 32-bit component ranges.
        if self.triangles.len() > 0xffff_ffff {
            return false;
        }
        components_tile_triangle_count(self.components.as_slice(), self.triangles.len() as u32)
    }
}

/// Adding the run that follows a tiling tiles what is then there.
pub proof fn lemma_push_keeps_tiling(
    components: Seq<MergedComponent>,
    triangle_count: u32,
    center: [u32; 3],
    radius: u32,
    classification: StaticType,
)
    requires
        tiles(components, covered(components)),
        covered(components) + triangle_count <= u32::MAX,
        finite(radius),
        !below(radius, 0),
        classification != StaticType::StaticGrass,
    ensures
        ({
            let after = with_component(
                components,
                covered(components) as u32,
                triangle_count,
                center,
                radius,
                classification,
            );
            &&& tiles(after, covered(components) + triangle_count)
            &&& covered(after) == covered(components) + triangle_count
        }),
{
    lemma_covered_grows(components, 0, components.len() as int);
    assert(components.take(0).len() == 0);
    assert(components.take(components.len() as int) =~= components);
    let first = covered(components) as u32;
    let after = with_component(components, first, triangle_count, center, radius, classification);
    if triangle_count > 0 {
        if continues_run(components, center, radius, classification, first) {
            let last = components.len() - 1;
            assert(after.drop_last() =~= components.drop_last());
            assert(component_valid(components[last]));
            assert forall|i: int| 0 <= i < after.len() implies component_valid(
                #[trigger] after[i],
            ) && after[i].first_triangle == covered(after.take(i)) by {
                assert(component_valid(components[i]));
                assert(components[i].first_triangle == covered(components.take(i)));
                assert(after.take(i) =~= components.take(i));
            }
        } else {
            assert(after.drop_last() =~= components);
            assert forall|i: int| 0 <= i < after.len() implies component_valid(
                #[trigger] after[i],
            ) && after[i].first_triangle == covered(after.take(i)) by {
                assert(after.take(i) =~= components.take(i));
                if i < components.len() {
                    assert(component_valid(components[i]));
                    assert(components[i].first_triangle == covered(components.take(i)));
                }
            }
        }
    }
}

} // verus!
