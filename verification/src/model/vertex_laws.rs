//! Laws of welding, simplification targets and packing.

use crate::atlas::types::{UvBound, ALPHA_ATLAS_PREFIX, OPAQUE_ATLAS_PREFIX};
use crate::atlas::write::page_name;
use crate::float_bits::{calculated, finite, is_number, line_position};
use crate::model::pack::{packs_subset, record_of, PackedSubset};
use crate::model::palette::{lemma_union, palette_of, vertex_bounds};
use crate::model::simplify::{target_for, StaticMeshSimplifierConfig};
use crate::model::weld::{
    apart_before, bound_bits, broken_before, is_broken, plain_bits, stays_apart, unclear_before,
    weld_key, QuantizedVertex,
};
use crate::model::{MergedComponent, StaticType, Subset, SubsetTexture, TextureNames, Vertex};
use crate::picks::{lemma_pick_next, picks};
use vstd::prelude::*;

verus! {

/// Finite numbers have one form each, and different numbers different ones; what is not finite has
/// none.
pub proof fn lemma_plain_bits(a: u32, b: u32)
    ensures
        plain_bits(a) is Some <==> finite(a),
        finite(a) && finite(b) ==> (plain_bits(a) == plain_bits(b) <==> line_position(a)
            == line_position(b)),
        plain_bits(a) matches Some(form) ==> line_position(form) == line_position(a),
{
}

/// The sides of the bounds are the same numbers, and finite.
pub open spec fn same_sides(a: UvBound, b: UvBound) -> bool {
    &&& finite(a.min_x) && finite(b.min_x) && line_position(a.min_x) == line_position(b.min_x)
    &&& finite(a.min_y) && finite(b.min_y) && line_position(a.min_y) == line_position(b.min_y)
    &&& finite(a.max_x) && finite(b.max_x) && line_position(a.max_x) == line_position(b.max_x)
    &&& finite(a.max_y) && finite(b.max_y) && line_position(a.max_y) == line_position(b.max_y)
}

/// All attributes of the vertex have a finite form.
pub open spec fn is_whole(vertex: Vertex, lanes: QuantizedVertex) -> bool {
    &&& lanes.position is Some && lanes.normal is Some && lanes.uv is Some && lanes.color is Some
    &&& finite(vertex.uv_bound.min_x) && finite(vertex.uv_bound.min_y)
    &&& finite(vertex.uv_bound.max_x) && finite(vertex.uv_bound.max_y)
}

/// A vertex is kept apart exactly where an attribute of it has no finite form, or where it blends
/// and faces no clear way.
pub proof fn lemma_kept_apart(
    vertex: Vertex,
    lanes: QuantizedVertex,
    has_alpha: bool,
    orient: u32,
)
    ensures
        stays_apart(vertex, lanes, has_alpha, orient) <==> !is_whole(vertex, lanes) || (has_alpha
            && orient == 0),
{
}

/// Two vertices that are not kept apart have one key exactly where they agree in every attribute on
/// its grid, in their bounds, and, where they blend, in the way they face.
pub proof fn lemma_same_key(
    a: Vertex,
    b: Vertex,
    a_lanes: QuantizedVertex,
    b_lanes: QuantizedVertex,
    has_alpha: bool,
    a_orient: u32,
    b_orient: u32,
    i: int,
    j: int,
)
    requires
        !stays_apart(a, a_lanes, has_alpha, a_orient),
        !stays_apart(b, b_lanes, has_alpha, b_orient),
    ensures
        weld_key(a, a_lanes, has_alpha, a_orient, i) == weld_key(
            b,
            b_lanes,
            has_alpha,
            b_orient,
            j,
        ) <==> {
            &&& a_lanes.position->0@ == b_lanes.position->0@
            &&& a_lanes.normal->0@ == b_lanes.normal->0@
            &&& a_lanes.uv->0@ == b_lanes.uv->0@
            &&& a_lanes.color->0@ == b_lanes.color->0@
            &&& same_sides(a.uv_bound, b.uv_bound)
            &&& has_alpha ==> a_orient == b_orient
        },
{
    let x = weld_key(a, a_lanes, has_alpha, a_orient, i);
    let y = weld_key(b, b_lanes, has_alpha, b_orient, j);
    lemma_plain_bits(a.uv_bound.min_x, b.uv_bound.min_x);
    lemma_plain_bits(a.uv_bound.min_y, b.uv_bound.min_y);
    lemma_plain_bits(a.uv_bound.max_x, b.uv_bound.max_x);
    lemma_plain_bits(a.uv_bound.max_y, b.uv_bound.max_y);
    assert(!is_broken(a, a_lanes) && !is_broken(b, b_lanes));
    let p = bound_bits(a.uv_bound)->0;
    let q = bound_bits(b.uv_bound)->0;
    if x == y {
        assert(x@[0] == y@[0] && x@[1] == y@[1] && x@[2] == y@[2] && x@[3] == y@[3]);
        assert(x@[4] == y@[4] && x@[5] == y@[5] && x@[6] == y@[6] && x@[7] == y@[7]);
        assert(x@[8] == y@[8] && x@[9] == y@[9] && x@[10] == y@[10] && x@[11] == y@[11]);
        assert(x@[12] == y@[12] && x@[13] == y@[13] && x@[14] == y@[14] && x@[15] == y@[15]);
        assert(x@[16] == y@[16]);
        assert(a_lanes.position->0@ =~= b_lanes.position->0@);
        assert(a_lanes.normal->0@ =~= b_lanes.normal->0@);
        assert(a_lanes.uv->0@ =~= b_lanes.uv->0@);
        assert(a_lanes.color->0@ =~= b_lanes.color->0@);
    }
    if same_sides(a.uv_bound, b.uv_bound) {
        assert(p@[0] == q@[0] && p@[1] == q@[1] && p@[2] == q@[2] && p@[3] == q@[3]);
    }
}

/// The target of a subset with a positive, finite extent is what is asked for, but no more than the
/// multiple of the configured error and no less than that error. It is capped where more than the
/// multiple is asked for, and worth another pass where it is more than the error.
pub proof fn lemma_target_between<P: Fn(u32, u32) -> u32, Q: Fn(u32, u32) -> u32>(
    product: P,
    quotient: Q,
    config: StaticMeshSimplifierConfig,
    absolute_error: u32,
    extent: u32,
)
    requires
        finite(extent),
        line_position(extent) > 0,
        is_number(config.target_error),
        is_number(calculated(quotient, absolute_error, extent)),
        is_number(calculated(product, config.target_error, config.merge_error_multiplier)),
    ensures
        ({
            let r = target_for(product, quotient, config, absolute_error, extent);
            let asked = line_position(calculated(quotient, absolute_error, extent));
            let most = line_position(
                calculated(product, config.target_error, config.merge_error_multiplier),
            );
            let least = line_position(config.target_error);
            let given = line_position(r.effective);
            &&& line_position(r.requested) == asked
            &&& given >= least
            &&& given <= most || given == least
            &&& least <= asked <= most ==> given == asked
            &&& asked < least ==> given == least
            &&& asked > most && most >= least ==> given == most
            &&& r.capped <==> asked > most
            &&& r.should_simplify <==> given > least
        }),
{
}

/// Without a positive, finite extent nothing is asked for.
pub proof fn lemma_no_target<P: Fn(u32, u32) -> u32, Q: Fn(u32, u32) -> u32>(
    product: P,
    quotient: Q,
    config: StaticMeshSimplifierConfig,
    absolute_error: u32,
    extent: u32,
)
    requires
        !finite(extent) || line_position(extent) <= 0,
    ensures
        ({
            let r = target_for(product, quotient, config, absolute_error, extent);
            r.requested == 0 && r.effective == 0 && !r.capped && !r.should_simplify
        }),
{
}

/// The palette of a packed subset holds exactly the bounds of its vertices, each once and in order
/// of first appearance, and leads each vertex to its own; grass has none.
pub proof fn lemma_packed_palette(
    static_type: StaticType,
    footprints: bool,
    names: TextureNames,
    subset: Subset,
    packed: PackedSubset,
    bound: UvBound,
)
    requires
        packs_subset(static_type, footprints, names, subset, packed),
    ensures
        static_type is StaticGrass ==> packed.palette@.len() == 0 && packed.ordinals is None,
        !(static_type is StaticGrass) ==> {
            &&& packed.palette@.no_duplicates()
            &&& packed.palette@.contains(bound) <==> exists|i: int|
                0 <= i < subset.vertices@.len() && (#[trigger] subset.vertices@[i]).uv_bound
                    == bound
            &&& packed.ordinals is Some
            &&& forall|i: int|
                0 <= i < subset.vertices@.len() ==> (#[trigger] packed.ordinals->0@[i])
                    < packed.palette@.len() && packed.palette@[packed.ordinals->0@[i] as int]
                    == subset.vertices@[i].uv_bound
        },
{
    if !(static_type is StaticGrass) {
        let bounds = vertex_bounds(subset.vertices@);
        lemma_union(Seq::empty(), bounds, bounds.len() as int);
        assert(bounds.take(bounds.len() as int) =~= bounds);
        assert(palette_of(subset.vertices@).contains(bound) <==> bounds.contains(bound));
        if bounds.contains(bound) {
            let i = choose|i: int| 0 <= i < bounds.len() && bounds[i] == bound;
            assert(subset.vertices@[i].uv_bound == bound);
        }
        if exists|i: int|
            0 <= i < subset.vertices@.len() && (#[trigger] subset.vertices@[i]).uv_bound == bound {
            let i = choose|i: int|
                0 <= i < subset.vertices@.len() && (#[trigger] subset.vertices@[i]).uv_bound
                    == bound;
            assert(bounds[i] == bound);
        }
    }
}

/// A packed subset names the file of its atlas page, of blended or of opaque pages as it blends or
/// not, or the key of its source, or nothing; its flags are one where they are set, and its
/// components are recorded one by one.
pub proof fn lemma_packed_drawing(
    static_type: StaticType,
    footprints: bool,
    names: TextureNames,
    subset: Subset,
    packed: PackedSubset,
)
    requires
        packs_subset(static_type, footprints, names, subset, packed),
    ensures
        packed.has_alpha == 1 <==> subset.has_alpha,
        packed.has_alpha == 0 <==> !subset.has_alpha,
        packed.has_uv_controller == 1 <==> subset.has_uv_controller,
        packed.has_uv_controller == 0 <==> !subset.has_uv_controller,
        subset.texture matches SubsetTexture::AtlasPage(page) ==> packed.texture@ == if subset.has_alpha {
            page_name(ALPHA_ATLAS_PREFIX@, page as nat)
        } else {
            page_name(OPAQUE_ATLAS_PREFIX@, page as nat)
        },
        subset.texture matches SubsetTexture::Source(sym) ==> if sym.0 < names.keys@.len()
            && names.keys@[sym.0 as int] is Some {
            packed.texture@ == names.keys@[sym.0 as int]->0@
        } else {
            packed.texture@.len() == 0
        },
        packed.components@.len() == subset.components@.len(),
        forall|c: int|
            0 <= c < subset.components@.len() ==> {
                &&& (#[trigger] packed.components@[c]).first_triangle
                    == subset.components@[c].first_triangle
                &&& packed.components@[c].triangle_count == subset.components@[c].triangle_count
                &&& packed.components@[c].radius == subset.components@[c].radius
                &&& packed.components@[c].classification == subset.components@[c].classification
            },
{
    let all = subset.components@.map_values(|component: MergedComponent| record_of(component));
    assert forall|c: int| 0 <= c < subset.components@.len() implies #[trigger] packed.components@[c]
        == record_of(subset.components@[c]) by {
        assert(packed.components@[c] == all[c]);
    }
}

/// The counts of a weld are those of the vertices that they speak of: with an attribute that is not
/// finite, kept apart, and without a direction.
pub proof fn lemma_weld_counts(
    vertices: Seq<Vertex>,
    lanes: Seq<QuantizedVertex>,
    has_alpha: bool,
    orientations: Seq<u32>,
    end: int,
) -> (lists: (Seq<int>, Seq<int>, Seq<int>))
    requires
        0 <= end,
    ensures
        picks(
            lists.0,
            end,
            |i: int|
                lanes[i].position is None || lanes[i].normal is None || lanes[i].uv is None
                    || lanes[i].color is None || bound_bits(vertices[i].uv_bound) is None,
        ),
        broken_before(vertices, lanes, end) == lists.0.len(),
        picks(
            lists.1,
            end,
            |i: int|
                lists.0.contains(i) || has_alpha && !(0 <= i < orientations.len()
                    && orientations[i] != 0),
        ),
        apart_before(vertices, lanes, has_alpha, orientations, end) == lists.1.len(),
        picks(lists.2, end, |i: int| !(0 <= i < orientations.len() && orientations[i] != 0)),
        unclear_before(orientations, end) == lists.2.len(),
    decreases end,
{
    let broken = |i: int|
        lanes[i].position is None || lanes[i].normal is None || lanes[i].uv is None
            || lanes[i].color is None || bound_bits(vertices[i].uv_bound) is None;
    let unclear = |i: int| !(0 <= i < orientations.len() && orientations[i] != 0);
    if end <= 0 {
        (Seq::empty(), Seq::empty(), Seq::empty())
    } else {
        let i = end - 1;
        let before = lemma_weld_counts(vertices, lanes, has_alpha, orientations, i);
        lemma_pick_next(before.0, i, broken);
        lemma_pick_next(before.2, i, unclear);
        let first = if broken(i) {
            before.0.push(i)
        } else {
            before.0
        };
        let third = if unclear(i) {
            before.2.push(i)
        } else {
            before.2
        };
        let apart = |k: int| first.contains(k) || has_alpha && unclear(k);
        assert(picks(before.1, i, apart)) by {
            assert forall|k: int| #[trigger] before.1.contains(k) <==> 0 <= k < i && apart(k) by {
                assert(first.contains(k) <==> 0 <= k < end && broken(k));
                assert(before.0.contains(k) <==> 0 <= k < i && broken(k));
            }
        }
        lemma_pick_next(before.1, i, apart);
        assert(first.contains(i) <==> broken(i));
        let second = if apart(i) {
            before.1.push(i)
        } else {
            before.1
        };
        (first, second, third)
    }
}

} // verus!
