//! Appending placed source geometry to merged subsets.

use crate::float_bits::{number_eq, same_number};
use crate::model::merge::{corners, corners_within, shifted, Corners, SubsetView};
use crate::model::palette::{union_fits, union_of, union_uv_bounds, uv_bound_union_fits};
use crate::model::{Subset, Vertex};
use vstd::prelude::*;

verus! {

/// Where a source vertex comes to lie in a merged static.
#[derive(Clone, Copy, Debug)]
pub struct Placement {
    pub position: [u32; 3],
    pub normal: [u32; 3],
}

/// A vertex at its place.
pub open spec fn placed(vertex: Vertex, place: Placement) -> Vertex {
    Vertex { position: place.position, normal: place.normal, ..vertex }
}

/// The vertices at their places.
pub open spec fn all_placed(vertices: Seq<Vertex>, places: Seq<Placement>) -> Seq<Vertex> {
    Seq::new(vertices.len(), |i: int| placed(vertices[i], places[i]))
}

/// The subsets may be merged, the first into the second: together they stay within the index and
/// palette limits, and they are drawn alike unless the first has no vertices.
pub open spec fn merges(subset: SubsetView, merged: SubsetView) -> bool {
    &&& subset.vertices.len() + merged.vertices.len() <= 0xffff
    &&& union_fits(subset.uv_bounds, merged.uv_bounds)
    &&& subset.vertices.len() == 0 || {
        &&& subset.has_alpha == merged.has_alpha
        &&& subset.texture == merged.texture
        &&& subset.has_uv_controller == merged.has_uv_controller
        &&& same_number(subset.emissive, merged.emissive)
    }
}

/// The merged subset drawn as its source, with the source's bounds.
pub open spec fn adopted(merged: SubsetView, source: SubsetView, opaque: bool) -> SubsetView {
    SubsetView {
        has_alpha: !opaque,
        has_uv_controller: source.has_uv_controller,
        emissive: source.emissive,
        texture: source.texture,
        uv_bounds: union_of(merged.uv_bounds, source.uv_bounds),
        ..merged
    }
}

/// The merged subset with all of the source's geometry at its place.
pub open spec fn with_source(
    merged: SubsetView,
    source: SubsetView,
    places: Seq<Placement>,
    opaque: bool,
) -> SubsetView {
    adopted(
        SubsetView {
            vertices: merged.vertices + all_placed(source.vertices, places),
            triangles: merged.triangles + shifted(
                source.triangles,
                merged.vertices.len() as int,
            ),
            ..merged
        },
        source,
        opaque,
    )
}

impl Subset {
    /// Returns true if the subsets can be merged based on vertex count and alpha compatibility.
    ///
    /// Two subsets are mergeable only when their alpha flags agree so that they end up on the same
    /// atlas and the joint index buffer stays within 16 bits.
    ///
    /// The palette test sits outside the empty-vertex short circuit deliberately: a contribution
    /// without vertices still unions its bounds into the destination.
    pub fn can_merge_with(&self, other: &Subset) -> (r: bool)
        ensures
            r == merges(self@, other@),
    {
        self.can_merge_vertices(other) && uv_bound_union_fits(
            self.uv_bounds.as_slice(),
            other.uv_bounds.as_slice(),
        ) && (self.vertices.len() == 0 || (self.has_alpha == other.has_alpha && self.texture
            == other.texture && self.has_uv_controller == other.has_uv_controller && number_eq(
            self.emissive,
            other.emissive,
        )))
    }

    /// Copies what says how the source is drawn even when culling empties the subset, so merging
    /// stays partitioned like the source.
    ///
    /// All of the source's bounds are added, since it may itself carry several.
    fn adopt_source_identity(&mut self, subset: &Subset, opaque: bool)
        ensures
            final(self)@ == adopted(old(self)@, subset@, opaque),
    {
        self.has_alpha = !opaque;
        self.has_uv_controller = subset.has_uv_controller;
        self.emissive = subset.emissive;
        self.texture = subset.texture;
        union_uv_bounds(&mut self.uv_bounds, subset.uv_bounds.as_slice());
    }

    /// Merges another subset at its place.
    pub fn merge_transformed(&mut self, subset: &Subset, places: &[Placement], opaque: bool)
        requires
            places@.len() == subset.vertices@.len(),
            corners_within(subset@.triangles, subset.vertices@.len() as int),
            old(self).vertices@.len() + subset.vertices@.len() <= 0x10000,
        ensures
            final(self)@ == with_source(old(self)@, subset@, places@, opaque),
    {
        self.append_triangles(subset.triangles.as_slice());
        let ghost before = self@;
        let ghost moved = all_placed(subset.vertices@, places@);
        let mut i: usize = 0;
        assert(self@.vertices =~= before.vertices + moved.take(0));
        while i < subset.vertices.len()
            invariant
                i <= subset.vertices@.len(),
                places@.len() == subset.vertices@.len(),
                moved == all_placed(subset.vertices@, places@),
                self@ == (SubsetView { vertices: before.vertices + moved.take(i as int), ..before }),
            decreases subset.vertices@.len() - i,
        {
            let mut vertex: Vertex = subset.vertices[i];
            vertex.position = places[i].position;
            vertex.normal = places[i].normal;
            self.vertices.push(vertex);
            proof {
                assert(vertex == moved[i as int]);
                assert(moved.take(i + 1) =~= moved.take(i as int).push(moved[i as int]));
                assert(self@.vertices =~= before.vertices + moved.take(i + 1));
            }
            i = i + 1;
        }
        assert(moved.take(i as int) =~= moved);
        self.adopt_source_identity(subset, opaque);
    }
}

// ---------------------------------------------------------------------------------------------
// Culling below the terrain
// ---------------------------------------------------------------------------------------------

/// Geometry that culling removed while merging.
#[derive(Clone, Copy, Debug, PartialEq, Eq, Structural)]
pub struct SubterrainCullTally {
    /// Triangles removed because all three corners were buried.
    pub triangles: usize,
    /// Vertices removed because only culled triangles referenced them.
    pub vertices: usize,
}

impl Default for SubterrainCullTally {
    fn default() -> (r: Self)
        ensures
            r.triangles == 0,
            r.vertices == 0,
    {
        SubterrainCullTally { triangles: 0, vertices: 0 }
    }
}

/// A triangle is culled when all three corners are buried, so surviving geometry always straddles
/// the ground line and holes can only open strictly inside the buried region.
pub open spec fn is_culled(triangle: Corners, buried: Seq<bool>) -> bool {
    buried[triangle.0 as int] && buried[triangle.1 as int] && buried[triangle.2 as int]
}

/// The triangles among the first `end` that survive, in order.
pub open spec fn survivors(triangles: Seq<Corners>, buried: Seq<bool>, end: int) -> Seq<Corners>
    decreases end,
{
    if end <= 0 {
        Seq::empty()
    } else if is_culled(triangles[end - 1], buried) {
        survivors(triangles, buried, end - 1)
    } else {
        survivors(triangles, buried, end - 1).push(triangles[end - 1])
    }
}

/// `order` with `corner` at its end, unless it is there already.
pub open spec fn noted(order: Seq<u16>, corner: u16) -> Seq<u16> {
    if order.contains(corner) {
        order
    } else {
        order.push(corner)
    }
}

/// `order` with the corners of a triangle at its end, unless they are there already.
pub open spec fn noted_all(order: Seq<u16>, triangle: Corners) -> Seq<u16> {
    noted(noted(noted(order, triangle.0), triangle.1), triangle.2)
}

/// The vertices that the first `end` surviving triangles use, in order of first use.
pub open spec fn used_vertices(kept: Seq<Corners>, end: int) -> Seq<u16>
    decreases end,
{
    if end <= 0 {
        Seq::empty()
    } else {
        noted_all(used_vertices(kept, end - 1), kept[end - 1])
    }
}

/// Corners counted in the order of use, behind `base` vertices.
pub open spec fn renumbered(triangle: Corners, order: Seq<u16>, base: int) -> Corners {
    (
        (base + order.index_of(triangle.0)) as u16,
        (base + order.index_of(triangle.1)) as u16,
        (base + order.index_of(triangle.2)) as u16,
    )
}

/// The merged subset with what survives of the source's geometry, at its place.
pub open spec fn with_survivors(
    merged: SubsetView,
    source: SubsetView,
    places: Seq<Placement>,
    opaque: bool,
    buried: Seq<bool>,
) -> SubsetView {
    let kept = survivors(source.triangles, buried, source.triangles.len() as int);
    let order = used_vertices(kept, kept.len() as int);
    let base = merged.vertices.len() as int;
    adopted(
        SubsetView {
            vertices: merged.vertices + order.map_values(
                |index: u16| placed(source.vertices[index as int], places[index as int]),
            ),
            triangles: merged.triangles + kept.map_values(
                |triangle: Corners| renumbered(triangle, order, base),
            ),
            ..merged
        },
        source,
        opaque,
    )
}

/// Distinct indices below `limit` are at most `limit` many.
pub proof fn lemma_distinct_below(order: Seq<u16>, limit: int)
    requires
        order.no_duplicates(),
        forall|k: int| 0 <= k < order.len() ==> (#[trigger] order[k]) < limit,
        0 <= limit,
    ensures
        order.len() <= limit,
{
    let wide = order.map_values(|index: u16| index as int);
    assert(wide.no_duplicates()) by {
        assert forall|i: int, j: int| 0 <= i < wide.len() && 0 <= j < wide.len() && i != j implies wide[i]
            != wide[j] by {
            assert(order[i] != order[j]);
        }
    }
    wide.unique_seq_to_set();
    vstd::set_lib::lemma_int_range(0, limit);
    assert(wide.to_set().subset_of(vstd::set_lib::set_int_range(0, limit))) by {
        assert forall|x: int| wide.to_set().contains(x) implies vstd::set_lib::set_int_range(
            0,
            limit,
        ).contains(x) by {
            let k = choose|k: int| 0 <= k < wide.len() && wide[k] == x;
            assert(order[k] < limit);
        }
    }
    vstd::set_lib::lemma_len_subset(wide.to_set(), vstd::set_lib::set_int_range(0, limit));
}

/// The number at which each source vertex is first used, as far as it is.
pub open spec fn numbers(remap: Seq<Option<usize>>, order: Seq<u16>) -> bool {
    &&& order.no_duplicates()
    &&& forall|k: int|
        0 <= k < order.len() ==> (#[trigger] order[k]) < remap.len() && remap[order[k] as int]
            == Some(k as usize)
    &&& forall|v: int|
        0 <= v < remap.len() && (#[trigger] remap[v]) is Some ==> remap[v]->0 < order.len()
            && order[remap[v]->0 as int] == v
}

/// Notes the use of a source vertex and returns its number. `order` lists the vertices in use.
fn note_corner(
    merged: &mut Subset,
    subset: &Subset,
    places: &[Placement],
    remap: &mut Vec<Option<usize>>,
    order: &mut Vec<u16>,
    corner: u16,
) -> (r: usize)
    requires
        corner < subset.vertices@.len(),
        places@.len() == subset.vertices@.len(),
        old(remap)@.len() == subset.vertices@.len(),
        numbers(old(remap)@, old(order)@),
    ensures
        final(remap)@.len() == old(remap)@.len(),
        final(order)@ == noted(old(order)@, corner),
        numbers(final(remap)@, final(order)@),
        r < final(order)@.len(),
        final(order)@[r as int] == corner,
        final(merged)@ == (SubsetView {
            vertices: if old(order)@.contains(corner) {
                old(merged)@.vertices
            } else {
                old(merged)@.vertices.push(
                    placed(subset.vertices@[corner as int], places@[corner as int]),
                )
            },
            ..old(merged)@
        }),
{
    let index: usize = corner as usize;
    let ghost before = order@;
    match remap[index] {
        Some(number) => {
            proof {
                assert(before[number as int] == corner);
                assert(before.contains(corner));
            }
            number
        },
        None => {
            proof {
                if before.contains(corner) {
                    let k = choose|k: int| 0 <= k < before.len() && before[k] == corner;
                    assert(remap@[before[k] as int] == Some(k as usize));
                }
            }
            let mut vertex: Vertex = subset.vertices[index];
            vertex.position = places[index].position;
            vertex.normal = places[index].normal;
            merged.vertices.push(vertex);
            let number: usize = order.len();
            order.push(corner);
            remap.set(index, Some(number));
            proof {
                let after = order@;
                assert forall|k: int| 0 <= k < after.len() implies (#[trigger] after[k])
                    < remap@.len() && remap@[after[k] as int] == Some(k as usize) by {
                    if k < before.len() {
                        assert(after[k] == before[k]);
                        assert(before.contains(before[k]));
                        assert(old(remap)@[before[k] as int] == Some(k as usize));
                    }
                }
                assert forall|v: int| 0 <= v < remap@.len() && (
                #[trigger] remap@[v]) is Some implies remap@[v]->0 < after.len()
                    && after[remap@[v]->0 as int] == v by {
                    if v != index {
                        assert(old(remap)@[v] is Some);
                    }
                }
                assert(after.no_duplicates()) by {
                    assert forall|i: int, j: int| 0 <= i < after.len() && 0 <= j < after.len() && i
                        != j implies after[i] != after[j] by {
                        if i == before.len() {
                            assert(before.contains(before[j]));
                        } else if j == before.len() {
                            assert(before.contains(before[i]));
                        }
                    }
                }
            }
            number
        },
    }
}

/// `later` goes on where `order` ends.
pub open spec fn extends_order(later: Seq<u16>, order: Seq<u16>) -> bool {
    order.len() <= later.len() && forall|k: int|
        0 <= k < order.len() ==> #[trigger] later[k] == order[k]
}

proof fn lemma_noted(order: Seq<u16>, corner: u16)
    requires
        order.no_duplicates(),
    ensures
        noted(order, corner).no_duplicates(),
        extends_order(noted(order, corner), order),
        noted(order, corner).contains(corner),
{
    let after = noted(order, corner);
    if !order.contains(corner) {
        assert(after[order.len() as int] == corner);
        assert forall|i: int, j: int| 0 <= i < after.len() && 0 <= j < after.len() && i
            != j implies after[i] != after[j] by {
            if i == order.len() {
                assert(order.contains(order[j]));
            } else if j == order.len() {
                assert(order.contains(order[i]));
            }
        }
    }
}

pub proof fn lemma_used_vertices(kept: Seq<Corners>, end: int)
    requires
        0 <= end <= kept.len(),
    ensures
        used_vertices(kept, end).no_duplicates(),
        forall|t: int|
            0 <= t < end ==> used_vertices(kept, end).contains((#[trigger] kept[t]).0)
                && used_vertices(kept, end).contains(kept[t].1) && used_vertices(
                kept,
                end,
            ).contains(kept[t].2),
        end > 0 ==> extends_order(used_vertices(kept, end), used_vertices(kept, end - 1)),
    decreases end,
{
    if end > 0 {
        lemma_used_vertices(kept, end - 1);
        let before = used_vertices(kept, end - 1);
        let triangle = kept[end - 1];
        let a = noted(before, triangle.0);
        let b = noted(a, triangle.1);
        let c = noted(b, triangle.2);
        lemma_noted(before, triangle.0);
        lemma_noted(a, triangle.1);
        lemma_noted(b, triangle.2);
        assert(c == used_vertices(kept, end));
        assert(extends_order(c, before)) by {
            assert forall|k: int| 0 <= k < before.len() implies #[trigger] c[k] == before[k] by {
                assert(a[k] == before[k]);
                assert(b[k] == a[k]);
            }
        }
        assert(extends_order(c, a)) by {
            assert forall|k: int| 0 <= k < a.len() implies #[trigger] c[k] == a[k] by {
                assert(b[k] == a[k]);
            }
        }
        assert forall|t: int| 0 <= t < end implies c.contains((#[trigger] kept[t]).0) && c.contains(
            kept[t].1,
        ) && c.contains(kept[t].2) by {
            if t < end - 1 {
                lemma_extends_contains(c, before, kept[t].0);
                lemma_extends_contains(c, before, kept[t].1);
                lemma_extends_contains(c, before, kept[t].2);
            } else {
                lemma_extends_contains(c, a, triangle.0);
                lemma_extends_contains(c, b, triangle.1);
            }
        }
    }
}

proof fn lemma_extends_contains(later: Seq<u16>, order: Seq<u16>, corner: u16)
    requires
        extends_order(later, order),
        order.contains(corner),
    ensures
        later.contains(corner),
{
    let k = choose|k: int| 0 <= k < order.len() && order[k] == corner;
    assert(later[k] == corner);
}

/// A vertex keeps its number while the order grows.
proof fn lemma_number_stable(later: Seq<u16>, order: Seq<u16>, corner: u16)
    requires
        later.no_duplicates(),
        order.no_duplicates(),
        extends_order(later, order),
        order.contains(corner),
    ensures
        later.index_of(corner) == order.index_of(corner),
{
    lemma_extends_contains(later, order, corner);
    let i = order.index_of(corner);
    let j = later.index_of(corner);
    assert(order[i] == corner);
    assert(later[j] == corner);
    assert(later[i] == order[i]);
}

/// The vertices used so far, at their places.
pub open spec fn placed_in_order(
    order: Seq<u16>,
    vertices: Seq<Vertex>,
    places: Seq<Placement>,
) -> Seq<Vertex> {
    order.map_values(|index: u16| placed(vertices[index as int], places[index as int]))
}

/// The kept triangles counted in the order of use.
pub open spec fn all_renumbered(kept: Seq<Corners>, order: Seq<u16>, base: int) -> Seq<Corners> {
    kept.map_values(|triangle: Corners| renumbered(triangle, order, base))
}

proof fn lemma_renumbered_stable(
    kept: Seq<Corners>,
    later: Seq<u16>,
    order: Seq<u16>,
    base: int,
)
    requires
        later.no_duplicates(),
        order.no_duplicates(),
        extends_order(later, order),
        forall|t: int|
            0 <= t < kept.len() ==> order.contains((#[trigger] kept[t]).0) && order.contains(
                kept[t].1,
            ) && order.contains(kept[t].2),
    ensures
        all_renumbered(kept, later, base) == all_renumbered(kept, order, base),
{
    assert forall|t: int| 0 <= t < kept.len() implies all_renumbered(kept, later, base)[t]
        == all_renumbered(kept, order, base)[t] by {
        let triangle = kept[t];
        assert(order.contains(triangle.0));
        lemma_number_stable(later, order, triangle.0);
        lemma_number_stable(later, order, triangle.1);
        lemma_number_stable(later, order, triangle.2);
    }
    assert(all_renumbered(kept, later, base) =~= all_renumbered(kept, order, base));
}

/// What one noted corner adds to the placed vertices.
proof fn lemma_noted_placed(
    order: Seq<u16>,
    corner: u16,
    vertices: Seq<Vertex>,
    places: Seq<Placement>,
)
    ensures
        placed_in_order(noted(order, corner), vertices, places) == if order.contains(corner) {
            placed_in_order(order, vertices, places)
        } else {
            placed_in_order(order, vertices, places).push(
                placed(vertices[corner as int], places[corner as int]),
            )
        },
{
    if !order.contains(corner) {
        assert(placed_in_order(order.push(corner), vertices, places) =~= placed_in_order(
            order,
            vertices,
            places,
        ).push(placed(vertices[corner as int], places[corner as int])));
    }
}

impl Subset {
    /// Merges another subset while dropping triangles entirely below the terrain surface.
    ///
    /// A triangle survives when any corner is above ground. Vertices are copied on first reference,
    /// which numbers survivors in triangle order. Filtering here rather than in a later pass keeps
    /// the caller's component ranges tiled, because the caller derives each range from this
    /// subset's triangle growth.
    pub fn merge_transformed_culled(
        &mut self,
        subset: &Subset,
        places: &[Placement],
        opaque: bool,
        buried: &[bool],
        tally: &mut SubterrainCullTally,
    )
        requires
            places@.len() == subset.vertices@.len(),
            buried@.len() == subset.vertices@.len(),
            corners_within(subset@.triangles, subset.vertices@.len() as int),
            old(self).vertices@.len() + subset.vertices@.len() <= 0x10000,
            old(tally).triangles + subset.triangles@.len() <= usize::MAX,
            old(tally).vertices + subset.vertices@.len() <= usize::MAX,
        ensures
            final(self)@ == with_survivors(old(self)@, subset@, places@, opaque, buried@),
            ({
                let kept = survivors(subset@.triangles, buried@, subset@.triangles.len() as int);
                &&& final(tally).triangles == old(tally).triangles + subset.triangles@.len()
                    - kept.len()
                &&& final(tally).vertices == old(tally).vertices + subset.vertices@.len()
                    - used_vertices(kept, kept.len() as int).len()
            }),
    {
        let base: usize = self.vertices.len();
        let ghost start = self@;
        let ghost source = subset@;
        let total: usize = subset.vertices.len();
        let mut remap: Vec<Option<usize>> = Vec::new();
        let mut r: usize = 0;
        while r < total
            invariant
                r <= total,
                remap@.len() == r,
                forall|v: int| 0 <= v < r ==> (#[trigger] remap@[v]) is None,
            decreases total - r,
        {
            remap.push(None);
            r = r + 1;
        }
        let mut order: Vec<u16> = Vec::new();
        let mut kept_count: usize = 0;
        let mut i: usize = 0;
        proof {
            assert(corners(subset.triangles@).len() == subset.triangles@.len());
            assert(self@.vertices =~= start.vertices + placed_in_order(
                order@,
                source.vertices,
                places@,
            ));
            let none = survivors(source.triangles, buried@, 0);
            assert(self@.triangles =~= start.triangles + all_renumbered(
                none,
                order@,
                base as int,
            ));
        }
        while i < subset.triangles.len()
            invariant
                i <= subset.triangles@.len(),
                source == subset@,
                source.triangles.len() == subset.triangles@.len(),
                base == start.vertices.len(),
                total == subset.vertices@.len(),
                remap@.len() == total,
                places@.len() == total,
                buried@.len() == total,
                base + total <= 0x10000,
                corners_within(source.triangles, total as int),
                numbers(remap@, order@),
                kept_count <= i,
                kept_count == survivors(source.triangles, buried@, i as int).len(),
                order@ == used_vertices(
                    survivors(source.triangles, buried@, i as int),
                    kept_count as int,
                ),
                self@ == (SubsetView {
                    vertices: start.vertices + placed_in_order(
                        order@,
                        source.vertices,
                        places@,
                    ),
                    triangles: start.triangles + all_renumbered(
                        survivors(source.triangles, buried@, i as int),
                        order@,
                        base as int,
                    ),
                    ..start
                }),
            decreases subset.triangles@.len() - i,
        {
            let triangle: [u16; 3] = subset.triangles[i];
            let (c0, c1, c2): (u16, u16, u16) = (triangle[0], triangle[1], triangle[2]);
            let ghost kept = survivors(source.triangles, buried@, i as int);
            assert(source.triangles[i as int] == (c0, c1, c2));
            if !(buried[c0 as usize] && buried[c1 as usize] && buried[c2 as usize]) {
                let ghost first = order@;
                let ghost old_triangles = self.triangles@;
                let ghost now = kept.push((c0, c1, c2));
                let n0: usize = note_corner(self, subset, places, &mut remap, &mut order, c0);
                let ghost second = order@;
                let n1: usize = note_corner(self, subset, places, &mut remap, &mut order, c1);
                let ghost third = order@;
                let n2: usize = note_corner(self, subset, places, &mut remap, &mut order, c2);
                proof {
                    lemma_noted(first, c0);
                    lemma_noted(second, c1);
                    lemma_noted(third, c2);
                    lemma_noted_placed(first, c0, source.vertices, places@);
                    lemma_noted_placed(second, c1, source.vertices, places@);
                    lemma_noted_placed(third, c2, source.vertices, places@);
                    assert forall|k: int| 0 <= k < order@.len() implies (#[trigger] order@[k])
                        < total by {}
                    lemma_distinct_below(order@, total as int);
                    assert(order@[n0 as int] == c0) by {
                        assert(third[n0 as int] == second[n0 as int]);
                    }
                    assert(order@[n1 as int] == c1);
                    assert(order@.contains(c0) && order@.contains(c1) && order@.contains(c2));
                    assert(order@.index_of(c0) == n0);
                    assert(order@.index_of(c1) == n1);
                    assert(order@.index_of(c2) == n2);
                }
                let moved: [u16; 3] = [
                    (base + n0) as u16,
                    (base + n1) as u16,
                    (base + n2) as u16,
                ];
                self.triangles.push(moved);
                kept_count = kept_count + 1;
                proof {
                    assert(now == survivors(source.triangles, buried@, i + 1));
                    lemma_used_vertices(kept, kept.len() as int);
                    lemma_used_vertices(now, now.len() as int);
                    lemma_used_prefix(kept, now, kept.len() as int);
                    assert(order@ == used_vertices(now, now.len() as int));
                    lemma_renumbered_stable(kept, order@, first, base as int);
                    assert(corners(self.triangles@) =~= corners(old_triangles).push(
                        (moved@[0], moved@[1], moved@[2]),
                    ));
                    assert(renumbered((c0, c1, c2), order@, base as int) == (
                        moved@[0],
                        moved@[1],
                        moved@[2],
                    ));
                    assert(all_renumbered(now, order@, base as int) =~= all_renumbered(
                        kept,
                        order@,
                        base as int,
                    ).push(renumbered((c0, c1, c2), order@, base as int)));
                    assert(self@.triangles =~= start.triangles + all_renumbered(
                        now,
                        order@,
                        base as int,
                    ));
                    assert(self@.vertices =~= start.vertices + placed_in_order(
                        order@,
                        source.vertices,
                        places@,
                    ));
                }
            }
            i = i + 1;
        }
        proof {
            let kept = survivors(source.triangles, buried@, source.triangles.len() as int);
            assert(all_renumbered(kept, order@, base as int) =~= kept.map_values(
                |triangle: Corners| renumbered(triangle, order@, base as int),
            ));
            assert(placed_in_order(order@, source.vertices, places@) =~= order@.map_values(
                |index: u16| placed(source.vertices[index as int], places@[index as int]),
            ));
            assert forall|k: int| 0 <= k < order@.len() implies (#[trigger] order@[k]) < total by {}
            lemma_distinct_below(order@, total as int);
        }
        tally.triangles = tally.triangles + (subset.triangles.len() - kept_count);
        tally.vertices = tally.vertices + (total - order.len());
        self.adopt_source_identity(subset, opaque);
    }
}

proof fn lemma_used_prefix(kept: Seq<Corners>, now: Seq<Corners>, end: int)
    requires
        0 <= end <= kept.len(),
        kept.len() <= now.len(),
        forall|t: int| 0 <= t < kept.len() ==> #[trigger] now[t] == kept[t],
    ensures
        used_vertices(now, end) == used_vertices(kept, end),
    decreases end,
{
    if end > 0 {
        lemma_used_prefix(kept, now, end - 1);
        assert(now[end - 1] == kept[end - 1]);
    }
}

} // verus!
