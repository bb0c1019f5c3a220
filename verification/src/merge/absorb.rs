//! Appending the subsets of one member to a merged static.

use crate::float_bits::{below, finite};
use crate::model::append::{
    lemma_distinct_below, merges, survivors, used_vertices, with_source, with_survivors, Placement,
    SubterrainCullTally,
};
use crate::model::merge::{
    corners, corners_within, shifted, tidy, views, Corners, SubsetView,
};
use crate::model::palette::{
    bounds_listed, lemma_union, union_fits, union_of, UV_BOUND_PALETTE_CAP,
};
use crate::model::{covered, lemma_push_keeps_tiling, with_component, StaticType, Subset};
use vstd::prelude::*;

verus! {

/// Where one source subset comes to lie.
#[derive(Debug)]
pub struct SubsetPlacement {
    /// Place of each vertex.
    pub places: Vec<Placement>,
    /// Whether each vertex lies below the safe ground threshold; absent where nothing is culled.
    pub buried: Option<Vec<bool>>,
}

/// What the appended triangles of a member are recorded as.
#[derive(Clone, Copy, Debug)]
pub struct ComponentOrigin {
    /// Center of the transformed source-model bounding sphere in merged-static local space.
    pub center: [u32; 3],
    /// Whole-source-model bounding-sphere radius times instance scale.
    pub radius: u32,
    /// Classification of the source static.
    pub classification: StaticType,
}

/// Places and burial marks are there for every vertex.
pub open spec fn places_all(placement: SubsetPlacement, subset: SubsetView) -> bool {
    &&& placement.places@.len() == subset.vertices.len()
    &&& placement.buried matches Some(buried) ==> buried@.len() == subset.vertices.len()
}

/// The merged subset with the source's geometry, or what survives of it.
pub open spec fn appended(
    merged: SubsetView,
    source: SubsetView,
    placement: SubsetPlacement,
    opaque: bool,
) -> SubsetView {
    match placement.buried {
        Some(buried) => with_survivors(merged, source, placement.places@, opaque, buried@),
        None => with_source(merged, source, placement.places@, opaque),
    }
}

/// The merged subset with the source's geometry, recorded as one component.
pub open spec fn absorbed(
    merged: SubsetView,
    source: SubsetView,
    placement: SubsetPlacement,
    opaque: bool,
    origin: ComponentOrigin,
) -> SubsetView {
    let grown = appended(merged, source, placement, opaque);
    SubsetView {
        components: with_component(
            grown.components,
            merged.triangles.len() as u32,
            (grown.triangles.len() - merged.triangles.len()) as u32,
            origin.center,
            origin.radius,
            origin.classification,
        ),
        ..grown
    }
}

/// A subset of nothing, as plain values.
pub open spec fn blank() -> SubsetView {
    SubsetView {
        bounding_sphere: crate::model::Bound { center: [0, 0, 0], radius: 0 },
        bounding_box: crate::model::BoundingBox { min: [0, 0, 0], max: [0, 0, 0] },
        vertices: Seq::empty(),
        triangles: Seq::empty(),
        components: Seq::empty(),
        uv_bounds: Seq::empty(),
        has_alpha: false,
        has_uv_controller: false,
        emissive: 0,
        texture: crate::model::SubsetTexture::Source(crate::model::TextureSym(0)),
    }
}

/// The merged subsets after one source subset: the last one takes it where it can, else a new one.
pub open spec fn with_member_subset(
    list: Seq<SubsetView>,
    source: SubsetView,
    placement: SubsetPlacement,
    opaque: bool,
    origin: ComponentOrigin,
) -> Seq<SubsetView> {
    if source.has_alpha == opaque {
        list
    } else if list.len() > 0 && merges(source, list.last()) {
        list.drop_last().push(absorbed(list.last(), source, placement, opaque, origin))
    } else {
        list.push(absorbed(blank(), source, placement, opaque, origin))
    }
}

/// The merged subsets after the first `end` source subsets.
pub open spec fn with_member(
    list: Seq<SubsetView>,
    sources: Seq<SubsetView>,
    placements: Seq<SubsetPlacement>,
    opaque: bool,
    origin: ComponentOrigin,
    end: int,
) -> Seq<SubsetView>
    decreases end,
{
    if end <= 0 {
        list
    } else {
        with_member_subset(
            with_member(list, sources, placements, opaque, origin, end - 1),
            sources[end - 1],
            placements[end - 1],
            opaque,
            origin,
        )
    }
}

/// Every merged subset has at most this many triangles.
pub open spec fn triangles_within(list: Seq<SubsetView>, limit: int) -> bool {
    forall|i: int| 0 <= i < list.len() ==> (#[trigger] list[i]).triangles.len() <= limit
}

/// Triangles of those of the first `end` source subsets that the pass takes.
pub open spec fn triangles_before(sources: Seq<SubsetView>, opaque: bool, end: int) -> nat
    decreases end,
{
    if end <= 0 {
        0
    } else if sources[end - 1].has_alpha != opaque {
        triangles_before(sources, opaque, end - 1) + sources[end - 1].triangles.len()
    } else {
        triangles_before(sources, opaque, end - 1)
    }
}

/// Vertices of those of the first `end` source subsets that the pass takes.
pub open spec fn vertices_before(sources: Seq<SubsetView>, opaque: bool, end: int) -> nat
    decreases end,
{
    if end <= 0 {
        0
    } else if sources[end - 1].has_alpha != opaque {
        vertices_before(sources, opaque, end - 1) + sources[end - 1].vertices.len()
    } else {
        vertices_before(sources, opaque, end - 1)
    }
}

/// The source subset can be appended to a merged one.
pub open spec fn appendable(source: SubsetView) -> bool {
    &&& corners_within(source.triangles, source.vertices.len() as int)
    &&& source.vertices.len() <= 0xffff
}

/// Triangles and vertices that culling removes from the first `end` source subsets.
pub open spec fn culled_before(
    sources: Seq<SubsetView>,
    placements: Seq<SubsetPlacement>,
    opaque: bool,
    end: int,
) -> (int, int)
    decreases end,
{
    if end <= 0 {
        (0, 0)
    } else {
        let before = culled_before(sources, placements, opaque, end - 1);
        if sources[end - 1].has_alpha != opaque {
            let own = culled_from(sources[end - 1], placements[end - 1]);
            (before.0 + own.0, before.1 + own.1)
        } else {
            before
        }
    }
}

proof fn lemma_survivors_count(triangles: Seq<Corners>, buried: Seq<bool>, end: int)
    requires
        0 <= end,
    ensures
        survivors(triangles, buried, end).len() <= end,
    decreases end,
{
    if end > 0 {
        lemma_survivors_count(triangles, buried, end - 1);
    }
}

/// Triangles and vertices that culling removes from a source subset.
pub open spec fn culled_from(source: SubsetView, placement: SubsetPlacement) -> (int, int) {
    match placement.buried {
        Some(buried) => {
            let kept = survivors(source.triangles, buried@, source.triangles.len() as int);
            (
                source.triangles.len() - kept.len(),
                source.vertices.len() - used_vertices(kept, kept.len() as int).len(),
            )
        },
        None => (0, 0),
    }
}

/// Appending adds the source's triangles but for the culled ones, and loses none.
pub proof fn lemma_appended_triangles(
    merged: SubsetView,
    source: SubsetView,
    placement: SubsetPlacement,
    opaque: bool,
)
    ensures
        merged.triangles.len() <= appended(merged, source, placement, opaque).triangles.len()
            <= merged.triangles.len() + source.triangles.len(),
        appended(merged, source, placement, opaque).triangles.len() == merged.triangles.len()
            + source.triangles.len() - culled_from(source, placement).0,
{
    if let Some(buried) = placement.buried {
        lemma_survivors_count(source.triangles, buried@, source.triangles.len() as int);
    }
}

/// Appends one source subset to a merged one and records it as a component.
fn absorb(
    merged: &mut Subset,
    source: &Subset,
    placement: &SubsetPlacement,
    opaque: bool,
    origin: &ComponentOrigin,
    tally: &mut SubterrainCullTally,
)
    requires
        appendable(source@),
        places_all(*placement, source@),
        old(merged).vertices@.len() + source.vertices@.len() <= 0x10000,
        old(merged).triangles@.len() + source.triangles@.len() <= u32::MAX,
        old(tally).triangles + source.triangles@.len() <= usize::MAX,
        old(tally).vertices + source.vertices@.len() <= usize::MAX,
    ensures
        final(merged)@ == absorbed(old(merged)@, source@, *placement, opaque, *origin),
        final(tally).triangles == old(tally).triangles + culled_from(source@, *placement).0,
        final(tally).vertices == old(tally).vertices + culled_from(source@, *placement).1,
{
    let first_triangle: u32 = merged.triangles.len() as u32;
    let ghost before = merged@;
    proof {
        assert(corners(merged.triangles@).len() == merged.triangles@.len());
        assert(corners(source.triangles@).len() == source.triangles@.len());
        lemma_appended_triangles(before, source@, *placement, opaque);
    }
    match &placement.buried {
        Some(buried) => {
            merged.merge_transformed_culled(
                source,
                placement.places.as_slice(),
                opaque,
                buried.as_slice(),
                tally,
            );
        },
        None => {
            merged.merge_transformed(source, placement.places.as_slice(), opaque);
        },
    }
    proof {
        assert(merged@ == appended(before, source@, *placement, opaque));
        assert(corners(merged.triangles@).len() == merged.triangles@.len());
    }
    let triangle_count: u32 = merged.triangles.len() as u32 - first_triangle;
    merged.push_component(
        first_triangle,
        triangle_count,
        origin.center,
        origin.radius,
        origin.classification,
    );
}

/// Appends subsets from `sources` into `merged_subsets`, at their places.
///
/// Only subsets whose alpha flag matches `opaque` are processed so callers can separate opaque and
/// alpha passes. Where vertices are marked as buried, geometry below the terrain surface is dropped
/// during the append, so each component range still tiles the triangles it is measured against.
pub fn merge_subsets(
    merged_subsets: &mut Vec<Subset>,
    sources: &[Subset],
    placements: &[SubsetPlacement],
    opaque: bool,
    origin: &ComponentOrigin,
    tally: &mut SubterrainCullTally,
)
    requires
        placements@.len() == sources@.len(),
        forall|s: int|
            0 <= s < sources@.len() ==> appendable((#[trigger] sources@[s])@) && places_all(
                placements@[s],
                sources@[s]@,
            ),
        triangles_within(
            views(old(merged_subsets)@),
            u32::MAX - triangles_before(views(sources@), opaque, sources@.len() as int),
        ),
        triangles_before(views(sources@), opaque, sources@.len() as int) <= u32::MAX,
        old(tally).triangles + triangles_before(views(sources@), opaque, sources@.len() as int)
            <= usize::MAX,
        old(tally).vertices + vertices_before(views(sources@), opaque, sources@.len() as int)
            <= usize::MAX,
    ensures
        views(final(merged_subsets)@) == with_member(
            views(old(merged_subsets)@),
            views(sources@),
            placements@,
            opaque,
            *origin,
            sources@.len() as int,
        ),
        ({
            let culled = culled_before(
                views(sources@),
                placements@,
                opaque,
                sources@.len() as int,
            );
            &&& final(tally).triangles == old(tally).triangles + culled.0
            &&& final(tally).vertices == old(tally).vertices + culled.1
        }),
{
    let ghost start = views(merged_subsets@);
    let ghost views_of = views(sources@);
    let ghost count = sources@.len() as int;
    let mut s: usize = 0;
    while s < sources.len()
        invariant
            s <= sources@.len(),
            count == sources@.len(),
            placements@.len() == sources@.len(),
            views_of == views(sources@),
            start == views(old(merged_subsets)@),
            forall|k: int|
                0 <= k < sources@.len() ==> appendable((#[trigger] sources@[k])@) && places_all(
                    placements@[k],
                    sources@[k]@,
                ),
            triangles_within(
                views(merged_subsets@),
                u32::MAX - triangles_before(views_of, opaque, count) + triangles_before(
                    views_of,
                    opaque,
                    s as int,
                ),
            ),
            triangles_before(views_of, opaque, count) <= u32::MAX,
            old(tally).triangles + triangles_before(views_of, opaque, count) <= usize::MAX,
            old(tally).vertices + vertices_before(views_of, opaque, count) <= usize::MAX,
            tally.triangles == old(tally).triangles + culled_before(
                views_of,
                placements@,
                opaque,
                s as int,
            ).0,
            tally.vertices == old(tally).vertices + culled_before(
                views_of,
                placements@,
                opaque,
                s as int,
            ).1,
            culled_before(views_of, placements@, opaque, s as int).0 <= triangles_before(
                views_of,
                opaque,
                s as int,
            ),
            culled_before(views_of, placements@, opaque, s as int).1 <= vertices_before(
                views_of,
                opaque,
                s as int,
            ),
            views(merged_subsets@) == with_member(
                start,
                views_of,
                placements@,
                opaque,
                *origin,
                s as int,
            ),
        decreases sources@.len() - s,
    {
        let source = &sources[s];
        let ghost list = views(merged_subsets@);
        let ghost raw = merged_subsets@;
        proof {
            assert(views_of[s as int] == source@);
            lemma_before_grows(views_of, opaque, s + 1, count);
            assert(corners(source.triangles@).len() == source.triangles@.len());
            assert(appendable(sources@[s as int]@));
        }
        if source.has_alpha != opaque {
            let length: usize = merged_subsets.len();
            if length > 0 && source.can_merge_with(&merged_subsets[length - 1]) {
                proof {
                    assert(list[length - 1] == raw[length - 1]@);
                    assert(list[length - 1].triangles.len() <= u32::MAX);
                    assert(corners(raw[length - 1].triangles@).len() == raw[length
                        - 1].triangles@.len());
                    lemma_appended_triangles(list.last(), source@, placements@[s as int], opaque);
                }
                let last: &mut Subset = &mut merged_subsets[length - 1];
                absorb(last, source, &placements[s], opaque, origin, tally);
                proof {
                    assert(views(merged_subsets@) =~= list.drop_last().push(
                        absorbed(list.last(), source@, placements@[s as int], opaque, *origin),
                    ));
                }
            } else {
                proof {
                    if length > 0 {
                        assert(list.last() == raw[length - 1]@);
                    }
                }
                let mut fresh = Subset::default();
                proof {
                    assert(fresh@.triangles =~= blank().triangles);
                    assert(fresh@.vertices =~= blank().vertices);
                    assert(fresh@.components =~= blank().components);
                    assert(fresh@.uv_bounds =~= blank().uv_bounds);
                    assert(fresh@ == blank());
                    lemma_appended_triangles(blank(), source@, placements@[s as int], opaque);
                }
                absorb(&mut fresh, source, &placements[s], opaque, origin, tally);
                merged_subsets.push(fresh);
                proof {
                    assert(views(merged_subsets@) =~= list.push(
                        absorbed(blank(), source@, placements@[s as int], opaque, *origin),
                    ));
                }
            }
            proof {
                if let Some(buried) = placements@[s as int].buried {
                    lemma_survivors_count(
                        source@.triangles,
                        buried@,
                        source@.triangles.len() as int,
                    );
                }
            }
        }
        s = s + 1;
    }
}

proof fn lemma_before_grows(sources: Seq<SubsetView>, opaque: bool, i: int, j: int)
    requires
        0 <= i <= j,
    ensures
        triangles_before(sources, opaque, i) <= triangles_before(sources, opaque, j),
        vertices_before(sources, opaque, i) <= vertices_before(sources, opaque, j),
    decreases j,
{
    if i < j {
        lemma_before_grows(sources, opaque, i, j - 1);
    }
}

// ---------------------------------------------------------------------------------------------
// What appending keeps
// ---------------------------------------------------------------------------------------------

/// A merged subset is tidy, and its components cover every triangle.
pub open spec fn tiled(subset: SubsetView) -> bool {
    &&& tidy(subset)
    &&& subset.vertices.len() <= 0xffff
    &&& covered(subset.components) == subset.triangles.len()
}

/// Every merged subset is tiled.
pub open spec fn all_tiled(list: Seq<SubsetView>) -> bool {
    forall|i: int| 0 <= i < list.len() ==> tiled(#[trigger] list[i])
}

/// The source subset has distinct bounds that fit the palette and hold every vertex's bound.
pub open spec fn palette_kept(source: SubsetView) -> bool {
    &&& source.uv_bounds.no_duplicates()
    &&& source.uv_bounds.len() <= UV_BOUND_PALETTE_CAP
    &&& bounds_listed(source.vertices, source.uv_bounds)
}

/// Every subset has a palette that is kept.
pub open spec fn palettes_kept(list: Seq<SubsetView>) -> bool {
    forall|i: int| 0 <= i < list.len() ==> palette_kept(#[trigger] list[i])
}

/// The origin may stand in a tiling.
pub open spec fn origin_valid(origin: ComponentOrigin) -> bool {
    &&& finite(origin.radius)
    &&& !below(origin.radius, 0)
    &&& origin.classification != StaticType::StaticGrass
}

/// The same distinct bounds unite to the same number in either order.
proof fn lemma_union_symmetric(
    a: Seq<crate::atlas::types::UvBound>,
    b: Seq<crate::atlas::types::UvBound>,
)
    requires
        a.no_duplicates(),
        b.no_duplicates(),
    ensures
        union_of(a, b).len() == union_of(b, a).len(),
{
    lemma_union(a, b, b.len() as int);
    lemma_union(b, a, a.len() as int);
    assert(a.take(a.len() as int) =~= a);
    assert(b.take(b.len() as int) =~= b);
    let x = union_of(a, b);
    let y = union_of(b, a);
    x.unique_seq_to_set();
    y.unique_seq_to_set();
    assert(x.to_set() =~= y.to_set()) by {
        assert forall|bound: crate::atlas::types::UvBound| x.to_set().contains(bound)
            <==> y.to_set().contains(bound) by {
            assert(x.contains(bound) <==> a.contains(bound) || b.contains(bound));
            assert(y.contains(bound) <==> b.contains(bound) || a.contains(bound));
        }
    }
}

proof fn lemma_united_palette(merged: SubsetView, source: SubsetView)
    requires
        palette_kept(merged),
        palette_kept(source),
        union_fits(source.uv_bounds, merged.uv_bounds),
    ensures
        union_of(merged.uv_bounds, source.uv_bounds).no_duplicates(),
        union_of(merged.uv_bounds, source.uv_bounds).len() <= UV_BOUND_PALETTE_CAP,
        forall|bound: crate::atlas::types::UvBound| #[trigger]
            union_of(merged.uv_bounds, source.uv_bounds).contains(bound)
                <==> merged.uv_bounds.contains(bound) || source.uv_bounds.contains(bound),
{
    lemma_union(merged.uv_bounds, source.uv_bounds, source.uv_bounds.len() as int);
    assert(source.uv_bounds.take(source.uv_bounds.len() as int) =~= source.uv_bounds);
    lemma_union_symmetric(merged.uv_bounds, source.uv_bounds);
}

proof fn lemma_survivor_corners(source: SubsetView, buried: Seq<bool>, end: int)
    requires
        0 <= end <= source.triangles.len(),
        corners_within(source.triangles, source.vertices.len() as int),
    ensures
        corners_within(
            survivors(source.triangles, buried, end),
            source.vertices.len() as int,
        ),
    decreases end,
{
    if end > 0 {
        lemma_survivor_corners(source, buried, end - 1);
        assert(source.triangles[end - 1].0 < source.vertices.len());
    }
}

proof fn lemma_used_within(kept: Seq<Corners>, end: int, limit: int)
    requires
        0 <= end <= kept.len(),
        corners_within(kept, limit),
    ensures
        forall|k: int|
            0 <= k < used_vertices(kept, end).len() ==> (#[trigger] used_vertices(kept, end)[k])
                < limit,
    decreases end,
{
    if end > 0 {
        lemma_used_within(kept, end - 1, limit);
        let triangle = kept[end - 1];
        assert(triangle.0 < limit && triangle.1 < limit && triangle.2 < limit);
        let before = used_vertices(kept, end - 1);
        let a = crate::model::append::noted(before, triangle.0);
        let b = crate::model::append::noted(a, triangle.1);
        let c = crate::model::append::noted(b, triangle.2);
        assert(forall|k: int| 0 <= k < before.len() ==> #[trigger] before[k] < limit);
        assert(forall|k: int| 0 <= k < a.len() ==> #[trigger] a[k] < limit);
        assert(forall|k: int| 0 <= k < b.len() ==> #[trigger] b[k] < limit);
        assert(forall|k: int| 0 <= k < c.len() ==> #[trigger] c[k] < limit);
        assert(used_vertices(kept, end) == c);
    }
}

/// Appended geometry has its vertices within the subset, and every vertex carries a listed bound
/// where that held before.
proof fn lemma_appended_kept(
    merged: SubsetView,
    source: SubsetView,
    placement: SubsetPlacement,
    opaque: bool,
)
    requires
        tidy(merged),
        appendable(source),
        places_all(placement, source),
        merged.vertices.len() + source.vertices.len() <= 0xffff,
    ensures
        ({
            let grown = appended(merged, source, placement, opaque);
            &&& corners_within(grown.triangles, grown.vertices.len() as int)
            &&& grown.vertices.len() <= 0xffff
            &&& grown.components == merged.components
            &&& palette_kept(merged) && palette_kept(source) && union_fits(
                source.uv_bounds,
                merged.uv_bounds,
            ) ==> palette_kept(grown)
        }),
{
    let grown = appended(merged, source, placement, opaque);
    let base = merged.vertices.len() as int;
    let listed = palette_kept(merged) && palette_kept(source) && union_fits(
        source.uv_bounds,
        merged.uv_bounds,
    );
    if listed {
        lemma_united_palette(merged, source);
    }
    match placement.buried {
        None => {
            assert forall|t: int| 0 <= t < grown.triangles.len() implies (
            #[trigger] grown.triangles[t]).0 < grown.vertices.len() && grown.triangles[t].1
                < grown.vertices.len() && grown.triangles[t].2 < grown.vertices.len() by {
                if t < merged.triangles.len() {
                    assert(grown.triangles[t] == merged.triangles[t]);
                } else {
                    let s = t - merged.triangles.len();
                    assert(source.triangles[s].0 < source.vertices.len());
                    assert(grown.triangles[t] == shifted(source.triangles, base)[s]);
                }
            }
            assert forall|v: int|
                listed && 0 <= v < grown.vertices.len() implies grown.uv_bounds.contains(
                (#[trigger] grown.vertices[v]).uv_bound,
            ) by {
                if v < base {
                    assert(merged.uv_bounds.contains(merged.vertices[v].uv_bound));
                } else {
                    assert(source.uv_bounds.contains(source.vertices[v - base].uv_bound));
                }
            }
        },
        Some(buried) => {
            let kept = survivors(source.triangles, buried@, source.triangles.len() as int);
            let order = used_vertices(kept, kept.len() as int);
            lemma_survivor_corners(source, buried@, source.triangles.len() as int);
            lemma_used_within(kept, kept.len() as int, source.vertices.len() as int);
            crate::model::append::lemma_used_vertices(kept, kept.len() as int);
            lemma_distinct_below(order, source.vertices.len() as int);
            assert(grown.vertices.len() == base + order.len());
            assert forall|t: int| 0 <= t < grown.triangles.len() implies (
            #[trigger] grown.triangles[t]).0 < grown.vertices.len() && grown.triangles[t].1
                < grown.vertices.len() && grown.triangles[t].2 < grown.vertices.len() by {
                if t < merged.triangles.len() {
                    assert(grown.triangles[t] == merged.triangles[t]);
                } else {
                    let s = t - merged.triangles.len();
                    let triangle = kept[s];
                    assert(order.contains(triangle.0));
                    assert(order[order.index_of(triangle.0)] == triangle.0);
                    assert(order[order.index_of(triangle.1)] == triangle.1);
                    assert(order[order.index_of(triangle.2)] == triangle.2);
                }
            }
            assert forall|v: int|
                listed && 0 <= v < grown.vertices.len() implies grown.uv_bounds.contains(
                (#[trigger] grown.vertices[v]).uv_bound,
            ) by {
                if v < base {
                    assert(merged.uv_bounds.contains(merged.vertices[v].uv_bound));
                } else {
                    let index = order[v - base];
                    assert(source.uv_bounds.contains(source.vertices[index as int].uv_bound));
                }
            }
        },
    }
}

/// Appending a source subset keeps a merged subset tiled, and its palette where both are kept.
pub proof fn lemma_absorbed_tiled(
    merged: SubsetView,
    source: SubsetView,
    placement: SubsetPlacement,
    opaque: bool,
    origin: ComponentOrigin,
)
    requires
        tiled(merged),
        appendable(source),
        places_all(placement, source),
        origin_valid(origin),
        merged.vertices.len() + source.vertices.len() <= 0xffff,
        merged.triangles.len() + source.triangles.len() <= u32::MAX,
    ensures
        tiled(absorbed(merged, source, placement, opaque, origin)),
        palette_kept(merged) && palette_kept(source) && union_fits(
            source.uv_bounds,
            merged.uv_bounds,
        ) ==> palette_kept(absorbed(merged, source, placement, opaque, origin)),
        absorbed(merged, source, placement, opaque, origin).triangles.len()
            <= merged.triangles.len() + source.triangles.len(),
{
    let grown = appended(merged, source, placement, opaque);
    lemma_appended_kept(merged, source, placement, opaque);
    lemma_appended_triangles(merged, source, placement, opaque);
    lemma_push_keeps_tiling(
        merged.components,
        (grown.triangles.len() - merged.triangles.len()) as u32,
        origin.center,
        origin.radius,
        origin.classification,
    );
}

/// Appending a member keeps every merged subset tiled: components cover exactly the triangles that
/// are there, whether or not geometry below the terrain was dropped. Palettes that are kept stay in
/// the cap.
pub proof fn lemma_member_tiled(
    list: Seq<SubsetView>,
    sources: Seq<SubsetView>,
    placements: Seq<SubsetPlacement>,
    opaque: bool,
    origin: ComponentOrigin,
    end: int,
)
    requires
        all_tiled(list),
        0 <= end <= sources.len() == placements.len(),
        forall|s: int|
            0 <= s < sources.len() ==> appendable(#[trigger] sources[s]) && places_all(
                placements[s],
                sources[s],
            ),
        origin_valid(origin),
        triangles_before(sources, opaque, sources.len() as int) <= u32::MAX,
        triangles_within(
            list,
            u32::MAX - triangles_before(sources, opaque, sources.len() as int),
        ),
    ensures
        all_tiled(with_member(list, sources, placements, opaque, origin, end)),
        palettes_kept(list) && palettes_kept(sources) ==> palettes_kept(
            with_member(list, sources, placements, opaque, origin, end),
        ),
        triangles_within(
            with_member(list, sources, placements, opaque, origin, end),
            u32::MAX - triangles_before(sources, opaque, sources.len() as int) + triangles_before(
                sources,
                opaque,
                end,
            ),
        ),
    decreases end,
{
    if end > 0 {
        lemma_member_tiled(list, sources, placements, opaque, origin, end - 1);
        lemma_before_grows(sources, opaque, end, sources.len() as int);
        let before = with_member(list, sources, placements, opaque, origin, end - 1);
        let source = sources[end - 1];
        let placement = placements[end - 1];
        let listed = palettes_kept(list) && palettes_kept(sources);
        if listed {
            assert(palette_kept(source));
        }
        if source.has_alpha != opaque {
            if before.len() > 0 && merges(source, before.last()) {
                assert(tiled(before[before.len() - 1]));
                assert(before[before.len() - 1].triangles.len() <= u32::MAX);
                if listed {
                    assert(palette_kept(before[before.len() - 1]));
                }
                lemma_absorbed_tiled(before.last(), source, placement, opaque, origin);
            } else {
                let fresh = blank();
                assert(tiled(fresh)) by {
                    assert(covered(fresh.components) == 0);
                }
                assert(union_of(source.uv_bounds, fresh.uv_bounds) == source.uv_bounds);
                lemma_absorbed_tiled(fresh, source, placement, opaque, origin);
            }
        }
    }
}

} // verus!
