//! What a subset carries into its packed form.

use crate::atlas::types::{UvBound, ALPHA_ATLAS_PREFIX, OPAQUE_ATLAS_PREFIX};
use crate::atlas::write::{atlas_page_string, page_name};
use crate::extract::{is_product, multiplied};
use crate::list::reversed;
use crate::model::palette::{build_palette, palette_of};
use crate::model::{
    key_of, Bound, BoundingBox, DistantStatic, MergedComponent, StaticType, Subset, SubsetTexture,
    TextureNames, Vertex,
};
use vstd::prelude::*;

verus! {

/// The texture named in the packed form: the key of a source, nothing where it has none, or the
/// file of an atlas page.
pub open spec fn packed_path(texture: SubsetTexture, names: TextureNames, has_alpha: bool) -> Seq<
    char,
> {
    match texture {
        SubsetTexture::Source(sym) => match key_of(names, sym) {
            Some(key) => key,
            None => Seq::empty(),
        },
        SubsetTexture::AtlasPage(page_id) => page_name(
            if has_alpha {
                ALPHA_ATLAS_PREFIX@
            } else {
                OPAQUE_ATLAS_PREFIX@
            },
            page_id as nat,
        ),
    }
}

impl SubsetTexture {
    /// The texture named in the packed form.
    pub fn to_packed_path(self, names: &TextureNames, has_alpha: bool) -> (r: String)
        ensures
            r@ == packed_path(self, *names, has_alpha),
    {
        match self {
            SubsetTexture::Source(sym) => match names.texture_key_for_sym(sym) {
                Some(key) => key.to_owned(),
                None => {
                    let none = String::new();
                    assert(none@ =~= Seq::empty());
                    none
                },
            },
            SubsetTexture::AtlasPage(page_id) => {
                let prefix = if has_alpha {
                    ALPHA_ATLAS_PREFIX
                } else {
                    OPAQUE_ATLAS_PREFIX
                };
                atlas_page_string(prefix, page_id as usize)
            },
        }
    }
}

/// Provenance of a run of triangles in the packed form.
#[derive(Clone, Copy, Debug, PartialEq, Eq, Structural)]
pub struct ComponentRecord {
    pub first_triangle: u32,
    pub triangle_count: u32,
    pub radius: u32,
    pub classification: StaticType,
}

/// The packed form of a component.
pub open spec fn record_of(component: MergedComponent) -> ComponentRecord {
    ComponentRecord {
        first_triangle: component.first_triangle,
        triangle_count: component.triangle_count,
        radius: component.radius,
        classification: component.classification,
    }
}

/// A subset on its way into the packed form: everything but the encoding of its vertices.
#[derive(Debug)]
pub struct PackedSubset {
    pub bounding_sphere: Bound,
    pub bounding_box: BoundingBox,
    /// Distinct bounds of the vertices in order of first appearance; empty for grass.
    pub palette: Vec<UvBound>,
    /// Position of each vertex's bound in the palette; none for grass.
    pub ordinals: Option<Vec<usize>>,
    pub vertices: Vec<Vertex>,
    pub triangles: Vec<[u16; 3]>,
    pub components: Vec<ComponentRecord>,
    pub emissive: u32,
    pub has_alpha: u8,
    pub has_uv_controller: u8,
    pub texture: String,
    /// A horizon footprint is to be computed.
    pub wants_footprint: bool,
}

/// A static on its way into the packed form.
#[derive(Debug)]
pub struct PackedStatic {
    pub static_type: StaticType,
    pub bounding_sphere: Bound,
    pub bounding_box: BoundingBox,
    pub subsets: Vec<PackedSubset>,
}

/// The flag as a number.
pub open spec fn flag(b: bool) -> u8 {
    if b {
        1
    } else {
        0
    }
}

/// Each vertex is led to its bound.
pub open spec fn leads_to_bounds(
    vertices: Seq<Vertex>,
    palette: Seq<UvBound>,
    ordinals: Seq<usize>,
) -> bool {
    &&& ordinals.len() == vertices.len()
    &&& forall|i: int|
        0 <= i < vertices.len() ==> (#[trigger] ordinals[i]) < palette.len()
            && palette[ordinals[i] as int] == vertices[i].uv_bound
}

/// The packed form of a subset.
pub open spec fn packs_subset(
    static_type: StaticType,
    footprints: bool,
    names: TextureNames,
    subset: Subset,
    packed: PackedSubset,
) -> bool {
    &&& packed.bounding_sphere == subset.bounding_sphere
    &&& packed.bounding_box == subset.bounding_box
    &&& if static_type == StaticType::StaticGrass {
        packed.palette@.len() == 0 && packed.ordinals is None
    } else {
        &&& packed.palette@ == palette_of(subset.vertices@)
        &&& packed.ordinals matches Some(ordinals) && leads_to_bounds(
            subset.vertices@,
            packed.palette@,
            ordinals@,
        )
    }
    &&& packed.vertices@ == subset.vertices@
    &&& packed.triangles@ == subset.triangles@
    &&& packed.components@ == subset.components@.map_values(
        |component: MergedComponent| record_of(component),
    )
    &&& packed.emissive == subset.emissive
    &&& packed.has_alpha == flag(subset.has_alpha)
    &&& packed.has_uv_controller == flag(subset.has_uv_controller)
    &&& packed.texture@ == packed_path(subset.texture, names, subset.has_alpha)
    &&& packed.wants_footprint == footprints
}

fn pack_components(components: &Vec<MergedComponent>) -> (r: Vec<ComponentRecord>)
    ensures
        r@ == components@.map_values(|component: MergedComponent| record_of(component)),
{
    let ghost all = components@.map_values(|component: MergedComponent| record_of(component));
    let mut records: Vec<ComponentRecord> = Vec::new();
    let mut i: usize = 0;
    while i < components.len()
        invariant
            i <= components@.len(),
            all == components@.map_values(|component: MergedComponent| record_of(component)),
            records@ == all.take(i as int),
        decreases components@.len() - i,
    {
        let component = components[i];
        records.push(
            ComponentRecord {
                first_triangle: component.first_triangle,
                triangle_count: component.triangle_count,
                radius: component.radius,
                classification: component.classification,
            },
        );
        assert(all.take(i + 1) =~= all.take(i as int).push(all[i as int]));
        i = i + 1;
    }
    assert(all.take(i as int) =~= all);
    records
}

fn number(b: bool) -> (r: u8)
    ensures
        r == flag(b),
{
    if b {
        1
    } else {
        0
    }
}

/// Packs a subset.
pub fn pack_subset(
    static_type: StaticType,
    footprints: bool,
    names: &TextureNames,
    subset: Subset,
) -> (r: PackedSubset)
    ensures
        packs_subset(static_type, footprints, *names, subset, r),
{
    let (palette, ordinals): (Vec<UvBound>, Option<Vec<usize>>) = if static_type
        == StaticType::StaticGrass {
        (Vec::new(), None)
    } else {
        let (palette, ordinals) = build_palette(subset.vertices.as_slice());
        (palette, Some(ordinals))
    };
    let texture = subset.texture.to_packed_path(names, subset.has_alpha);
    let components = pack_components(&subset.components);
    PackedSubset {
        bounding_sphere: subset.bounding_sphere,
        bounding_box: subset.bounding_box,
        palette,
        ordinals,
        vertices: subset.vertices,
        triangles: subset.triangles,
        components,
        emissive: subset.emissive,
        has_alpha: number(subset.has_alpha),
        has_uv_controller: number(subset.has_uv_controller),
        texture,
        wants_footprint: footprints,
    }
}

impl DistantStatic {
    /// Packs the static. The sphere of a door is made larger by its factor, so that it is drawn from
    /// farther away; subsets keep their true size.
    pub fn into_distant_static<P: Fn(u32, u32) -> u32>(
        self,
        product: &P,
        names: &TextureNames,
        door_size_multiplier: u32,
    ) -> (r: PackedStatic)
        requires
            is_product(*product),
        ensures
            r.static_type == self.static_type,
            r.bounding_sphere == (Bound {
                center: self.bounding_sphere.center,
                radius: if self.is_door {
                    multiplied(*product, self.bounding_sphere.radius, door_size_multiplier)
                } else {
                    self.bounding_sphere.radius
                },
            }),
            r.bounding_box == self.bounding_box,
            r.subsets@.len() == self.subsets@.len(),
            forall|i: int|
                0 <= i < r.subsets@.len() ==> packs_subset(
                    self.static_type,
                    self.horizon_footprint_eligible,
                    *names,
                    self.subsets@[i],
                    #[trigger] r.subsets@[i],
                ),
    {
        let static_type = self.static_type;
        let footprints: bool = self.horizon_footprint_eligible;
        let radius: u32 = if self.is_door {
            product(self.bounding_sphere.radius, door_size_multiplier)
        } else {
            self.bounding_sphere.radius
        };
        let bounding_sphere = Bound { center: self.bounding_sphere.center, radius };
        let bounding_box = self.bounding_box;
        let ghost source = self.subsets@;
        let mut rest: Vec<Subset> = reversed(self.subsets);
        let mut packed: Vec<PackedSubset> = Vec::new();
        while rest.len() > 0
            invariant
                rest@.len() + packed@.len() == source.len(),
                forall|k: int|
                    0 <= k < rest@.len() ==> #[trigger] rest@[k] == source[source.len() - 1 - k],
                forall|i: int|
                    0 <= i < packed@.len() ==> packs_subset(
                        static_type,
                        footprints,
                        *names,
                        source[i],
                        #[trigger] packed@[i],
                    ),
            decreases rest@.len(),
        {
            let ghost before = rest@;
            let subset = rest.pop().unwrap();
            assert(subset == before[before.len() - 1]);
            assert(subset == source[packed@.len() as int]);
            packed.push(pack_subset(static_type, footprints, names, subset));
        }
        PackedStatic { static_type, bounding_sphere, bounding_box, subsets: packed }
    }
}

} // verus!
