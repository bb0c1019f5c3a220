//! Merging subsets.

use crate::atlas::types::UvBound;
use crate::float_bits::{number_eq, same_number};
use crate::list::{push_copies, reversed};
use crate::model::palette::{
    bounds_listed, lemma_union, union_fits, union_of, union_uv_bounds, uv_bound_union_fits,
    UV_BOUND_PALETTE_CAP,
};
use crate::model::{
    component_valid, covered, lemma_covered_grows, lemma_covered_take, lemma_push_keeps_tiling,
    tiles, with_component, Bound, BoundingBox, DistantStatic, MergedComponent, Subset,
    SubsetTexture, Vertex,
};
use vstd::prelude::*;

verus! {

// ---------------------------------------------------------------------------------------------
// Subsets as plain values
// ---------------------------------------------------------------------------------------------

/// A triangle's vertex indices.
pub type Corners = (u16, u16, u16);

/// The corners of the triangles.
pub open spec fn corners(triangles: Seq<[u16; 3]>) -> Seq<Corners> {
    triangles.map_values(|triangle: [u16; 3]| (triangle@[0], triangle@[1], triangle@[2]))
}

/// A subset as plain values.
pub struct SubsetView {
    pub bounding_sphere: Bound,
    pub bounding_box: BoundingBox,
    pub vertices: Seq<Vertex>,
    pub triangles: Seq<Corners>,
    pub components: Seq<MergedComponent>,
    pub uv_bounds: Seq<UvBound>,
    pub has_alpha: bool,
    pub has_uv_controller: bool,
    pub emissive: u32,
    pub texture: SubsetTexture,
}

impl View for Subset {
    type V = SubsetView;

    open spec fn view(&self) -> SubsetView {
        SubsetView {
            bounding_sphere: self.bounding_sphere,
            bounding_box: self.bounding_box,
            vertices: self.vertices@,
            triangles: corners(self.triangles@),
            components: self.components@,
            uv_bounds: self.uv_bounds@,
            has_alpha: self.has_alpha,
            has_uv_controller: self.has_uv_controller,
            emissive: self.emissive,
            texture: self.texture,
        }
    }
}

/// The subsets as plain values.
pub open spec fn views(subsets: Seq<Subset>) -> Seq<SubsetView> {
    subsets.map_values(|subset: Subset| subset@)
}

/// Every corner is a vertex.
pub open spec fn corners_within(triangles: Seq<Corners>, vertex_count: int) -> bool {
    forall|t: int|
        0 <= t < triangles.len() ==> (#[trigger] triangles[t]).0 < vertex_count && triangles[t].1
            < vertex_count && triangles[t].2 < vertex_count
}

/// Every component covers triangles that are there.
pub open spec fn components_within(
    components: Seq<MergedComponent>,
    triangle_count: int,
) -> bool {
    forall|c: int|
        0 <= c < components.len() ==> (#[trigger] components[c]).first_triangle
            + components[c].triangle_count <= triangle_count
}

/// Triangles have their vertices, and components their triangles.
pub open spec fn sound(subset: SubsetView) -> bool {
    &&& corners_within(subset.triangles, subset.vertices.len() as int)
    &&& components_within(subset.components, subset.triangles.len() as int)
}

// ---------------------------------------------------------------------------------------------
// Appending
// ---------------------------------------------------------------------------------------------

/// The triangles with every corner moved up.
pub open spec fn shifted(triangles: Seq<Corners>, offset: int) -> Seq<Corners> {
    triangles.map_values(
        |corners: Corners|
            (
                (corners.0 + offset) as u16,
                (corners.1 + offset) as u16,
                (corners.2 + offset) as u16,
            ),
    )
}

/// The components of `source` added behind `components`, each moved up by `offset` triangles.
pub open spec fn with_components(
    components: Seq<MergedComponent>,
    source: Seq<MergedComponent>,
    offset: int,
    end: int,
) -> Seq<MergedComponent>
    decreases end,
{
    if end <= 0 {
        components
    } else {
        let next = source[end - 1];
        with_component(
            with_components(components, source, offset, end - 1),
            (next.first_triangle + offset) as u32,
            next.triangle_count,
            next.center,
            next.radius,
            next.classification,
        )
    }
}

impl Subset {
    pub fn is_opaque(&self) -> (r: bool)
        ensures
            r == !self.has_alpha,
    {
        !self.has_alpha
    }

    pub fn has_alpha(&self) -> (r: bool)
        ensures
            r == self.has_alpha,
    {
        self.has_alpha
    }

    /// Returns true if merging the subsets would not exceed the vertex limit.
    ///
    /// The limit is 65535 because triangle indices are stored in 16 bits.
    pub fn can_merge_vertices(&self, other: &Subset) -> (r: bool)
        ensures
            r == (self.vertices@.len() + other.vertices@.len() <= 0xffff),
    {
        let own: usize = self.vertices.len();
        let others: usize = other.vertices.len();
        own <= 0xffff && others <= 0xffff - own
    }

    /// Appends triangles whose corners count from the vertices that are to be appended.
    pub fn append_triangles(&mut self, triangles: &[[u16; 3]])
        requires
            corners_within(corners(triangles@), 0x10000 - old(self).vertices@.len()),
        ensures
            final(self)@ == (SubsetView {
                triangles: old(self)@.triangles + shifted(
                    corners(triangles@),
                    old(self).vertices@.len() as int,
                ),
                ..old(self)@
            }),
    {
        let offset: usize = self.vertices.len();
        let ghost before = self@;
        let ghost added = shifted(corners(triangles@), offset as int);
        let mut i: usize = 0;
        assert(self@.triangles =~= before.triangles + added.take(0));
        while i < triangles.len()
            invariant
                i <= triangles@.len(),
                offset == before.vertices.len(),
                corners_within(corners(triangles@), 0x10000 - offset),
                added == shifted(corners(triangles@), offset as int),
                self@ == (SubsetView { triangles: before.triangles + added.take(i as int), ..before }),
            decreases triangles@.len() - i,
        {
            let triangle: [u16; 3] = triangles[i];
            let ghost old_triangles = self.triangles@;
            assert(corners(triangles@)[i as int].0 < 0x10000 - offset);
            let moved: [u16; 3] = [
                (triangle[0] as usize + offset) as u16,
                (triangle[1] as usize + offset) as u16,
                (triangle[2] as usize + offset) as u16,
            ];
            self.triangles.push(moved);
            proof {
                assert(corners(self.triangles@) =~= corners(old_triangles).push(
                    (moved@[0], moved@[1], moved@[2]),
                ));
                assert(added[i as int] == (moved@[0], moved@[1], moved@[2]));
                assert(added.take(i + 1) =~= added.take(i as int).push(added[i as int]));
                assert(self@.triangles =~= before.triangles + added.take(i + 1));
            }
            i = i + 1;
        }
        assert(added.take(i as int) =~= added);
    }

    /// Appends vertices.
    pub fn append_vertices(&mut self, vertices: &[Vertex])
        ensures
            final(self)@ == (SubsetView {
                vertices: old(self)@.vertices + vertices@,
                ..old(self)@
            }),
    {
        push_copies(&mut self.vertices, vertices);
    }

    /// Appends components, each moved up by `triangle_offset` triangles.
    pub fn append_components_shifted(&mut self, components: &[MergedComponent], triangle_offset: u32)
        requires
            components_within(components@, u32::MAX - triangle_offset),
        ensures
            final(self)@ == (SubsetView {
                components: with_components(
                    old(self)@.components,
                    components@,
                    triangle_offset as int,
                    components@.len() as int,
                ),
                ..old(self)@
            }),
    {
        let ghost before = self@;
        let mut i: usize = 0;
        while i < components.len()
            invariant
                i <= components@.len(),
                components_within(components@, u32::MAX - triangle_offset),
                self@ == (SubsetView {
                    components: with_components(
                        before.components,
                        components@,
                        triangle_offset as int,
                        i as int,
                    ),
                    ..before
                }),
            decreases components@.len() - i,
        {
            let component: MergedComponent = components[i];
            self.push_component(
                component.first_triangle + triangle_offset,
                component.triangle_count,
                component.center,
                component.radius,
                component.classification,
            );
            i = i + 1;
        }
    }
}

// ---------------------------------------------------------------------------------------------
// Joining two subsets
// ---------------------------------------------------------------------------------------------

/// The subsets may become one: together they stay within the index and palette limits, and they are
/// drawn alike.
pub open spec fn joins(merged: SubsetView, subset: SubsetView) -> bool {
    &&& merged.vertices.len() + subset.vertices.len() <= 0xffff
    &&& merged.has_alpha == subset.has_alpha
    &&& merged.texture == subset.texture
    &&& merged.has_uv_controller == subset.has_uv_controller
    &&& same_number(merged.emissive, subset.emissive)
    &&& union_fits(merged.uv_bounds, subset.uv_bounds)
}

/// One subset has provenance and the other has geometry without it.
pub open spec fn mixed_provenance(merged: SubsetView, subset: SubsetView) -> bool {
    ||| merged.components.len() > 0 && subset.components.len() == 0
    ||| merged.components.len() == 0 && merged.triangles.len() > 0 && subset.components.len() > 0
}

/// The subsets as one. Provenance that would cover only a part of it is dropped.
pub open spec fn joined(merged: SubsetView, subset: SubsetView) -> SubsetView {
    SubsetView {
        vertices: merged.vertices + subset.vertices,
        triangles: merged.triangles + shifted(
            subset.triangles,
            merged.vertices.len() as int,
        ),
        uv_bounds: union_of(merged.uv_bounds, subset.uv_bounds),
        components: if mixed_provenance(merged, subset) {
            Seq::empty()
        } else {
            with_components(
                merged.components,
                subset.components,
                merged.triangles.len() as int,
                subset.components.len() as int,
            )
        },
        ..merged
    }
}

impl Subset {
    /// Whether `other` may be joined to this subset.
    ///
    /// Textures are compared by atlas page, not by source: subsets that came from different source
    /// textures join freely while carrying different UV bounds, as long as the union fits the
    /// palette. Joining across different pages would misread UVs.
    fn joins_with(&self, other: &Subset) -> (r: bool)
        ensures
            r == joins(self@, other@),
    {
        self.can_merge_vertices(other) && self.has_alpha == other.has_alpha && self.texture
            == other.texture && self.has_uv_controller == other.has_uv_controller && number_eq(
            self.emissive,
            other.emissive,
        ) && uv_bound_union_fits(self.uv_bounds.as_slice(), other.uv_bounds.as_slice())
    }

    /// Joins `other` to this subset.
    fn join(&mut self, other: &Subset)
        requires
            joins(old(self)@, other@),
            sound(other@),
            old(self).triangles@.len() + other.triangles@.len() <= u32::MAX,
        ensures
            final(self)@ == joined(old(self)@, other@),
    {
        let ghost before = self@;
        let mixed = (self.components.len() > 0 && other.components.len() == 0) || (
        self.components.len() == 0 && self.triangles.len() > 0 && other.components.len() > 0);
        assert(corners(self.triangles@).len() == self.triangles@.len());
        assert(corners(other.triangles@).len() == other.triangles@.len());
        if mixed {
            self.components = Vec::new();
        }
        let triangle_offset: u32 = self.triangles.len() as u32;
        self.append_triangles(other.triangles.as_slice());
        self.append_vertices(other.vertices.as_slice());
        union_uv_bounds(&mut self.uv_bounds, other.uv_bounds.as_slice());
        if !mixed {
            self.append_components_shifted(other.components.as_slice(), triangle_offset);
        } else {
            assert(self@.components =~= Seq::<MergedComponent>::empty());
        }
    }
}

/// First position from `at` on whose subset the new one may be joined to; the length where none is.
pub open spec fn first_fit(list: Seq<SubsetView>, subset: SubsetView, at: int) -> int
    decreases list.len() - at,
{
    if at >= list.len() {
        list.len() as int
    } else if joins(list[at], subset) {
        at
    } else {
        first_fit(list, subset, at + 1)
    }
}

/// The list after one more subset: joined to the first one where that is possible, else on its own.
pub open spec fn with_subset(list: Seq<SubsetView>, subset: SubsetView) -> Seq<SubsetView> {
    let fit = first_fit(list, subset, 0);
    if fit < list.len() {
        list.update(fit, joined(list[fit], subset))
    } else {
        list.push(subset)
    }
}

/// A fit is the first of its kind.
pub proof fn lemma_first_fit(list: Seq<SubsetView>, subset: SubsetView, at: int)
    requires
        0 <= at <= list.len(),
    ensures
        at <= first_fit(list, subset, at) <= list.len(),
        first_fit(list, subset, at) < list.len() ==> joins(
            list[first_fit(list, subset, at)],
            subset,
        ),
        forall|i: int|
            at <= i < first_fit(list, subset, at) ==> !joins(#[trigger] list[i], subset),
    decreases list.len() - at,
{
    if at < list.len() && !joins(list[at], subset) {
        lemma_first_fit(list, subset, at + 1);
    }
}

/// The list after the first `end` of `source` are added one by one.
pub open spec fn with_subsets(
    list: Seq<SubsetView>,
    source: Seq<SubsetView>,
    end: int,
) -> Seq<SubsetView>
    decreases end,
{
    if end <= 0 {
        list
    } else {
        with_subset(with_subsets(list, source, end - 1), source[end - 1])
    }
}

/// The subsets among the first `end` whose alpha flag is this, in order.
pub open spec fn of_alpha(subsets: Seq<SubsetView>, has_alpha: bool, end: int) -> Seq<SubsetView>
    decreases end,
{
    if end <= 0 {
        Seq::empty()
    } else if subsets[end - 1].has_alpha == has_alpha {
        of_alpha(subsets, has_alpha, end - 1).push(subsets[end - 1])
    } else {
        of_alpha(subsets, has_alpha, end - 1)
    }
}

/// The subsets among the first `end` that have geometry, in order.
pub open spec fn with_geometry(subsets: Seq<SubsetView>, end: int) -> Seq<SubsetView>
    decreases end,
{
    if end <= 0 {
        Seq::empty()
    } else if subsets[end - 1].vertices.len() > 0 && subsets[end - 1].triangles.len() > 0 {
        with_geometry(subsets, end - 1).push(subsets[end - 1])
    } else {
        with_geometry(subsets, end - 1)
    }
}

/// The order in which subsets are merged: those with alpha first.
pub open spec fn merge_order(subsets: Seq<SubsetView>) -> Seq<SubsetView> {
    of_alpha(subsets, true, subsets.len() as int) + of_alpha(subsets, false, subsets.len() as int)
}

/// What merging leaves of the subsets: those with geometry, each in merge order joined to the first
/// one before it that can take it.
pub open spec fn merged_subsets(subsets: Seq<SubsetView>) -> Seq<SubsetView> {
    let kept = with_geometry(subsets, subsets.len() as int);
    if kept.len() <= 1 {
        kept
    } else {
        with_subsets(Seq::empty(), merge_order(kept), kept.len() as int)
    }
}

/// Triangles of all subsets together.
pub open spec fn triangle_total(subsets: Seq<SubsetView>) -> nat
    decreases subsets.len(),
{
    if subsets.len() == 0 {
        0
    } else {
        triangle_total(subsets.drop_last()) + subsets.last().triangles.len()
    }
}

/// Every subset is sound.
pub open spec fn all_sound(subsets: Seq<SubsetView>) -> bool {
    forall|i: int| 0 <= i < subsets.len() ==> sound(#[trigger] subsets[i])
}

// ---------------------------------------------------------------------------------------------
// Merging the subsets of a static
// ---------------------------------------------------------------------------------------------

proof fn lemma_total_push(subsets: Seq<SubsetView>, subset: SubsetView)
    ensures
        triangle_total(subsets.push(subset)) == triangle_total(subsets) + subset.triangles.len(),
{
    assert(subsets.push(subset).drop_last() =~= subsets);
}

/// No subset has more triangles than all together.
pub proof fn lemma_total_bound(subsets: Seq<SubsetView>, i: int)
    requires
        0 <= i < subsets.len(),
    ensures
        subsets[i].triangles.len() <= triangle_total(subsets),
    decreases subsets.len(),
{
    if i < subsets.len() - 1 {
        lemma_total_bound(subsets.drop_last(), i);
    }
}

/// Triangle counts add up over a concatenation.
pub proof fn lemma_total_concat(a: Seq<SubsetView>, b: Seq<SubsetView>)
    ensures
        triangle_total(a + b) == triangle_total(a) + triangle_total(b),
    decreases b.len(),
{
    if b.len() == 0 {
        assert(a + b =~= a);
    } else {
        assert((a + b).drop_last() =~= a + b.drop_last());
        lemma_total_concat(a, b.drop_last());
    }
}

/// Adding a subset keeps the number of triangles.
pub proof fn lemma_with_subset_total(list: Seq<SubsetView>, subset: SubsetView)
    ensures
        triangle_total(with_subset(list, subset)) == triangle_total(list)
            + subset.triangles.len(),
{
    let fit = first_fit(list, subset, 0);
    lemma_first_fit(list, subset, 0);
    if fit < list.len() {
        lemma_total_update(list, fit, joined(list[fit], subset));
    } else {
        lemma_total_push(list, subset);
    }
}

proof fn lemma_total_update(list: Seq<SubsetView>, at: int, subset: SubsetView)
    requires
        0 <= at < list.len(),
    ensures
        triangle_total(list.update(at, subset)) + list[at].triangles.len() == triangle_total(list)
            + subset.triangles.len(),
    decreases list.len(),
{
    let after = list.update(at, subset);
    if at == list.len() - 1 {
        assert(after.drop_last() =~= list.drop_last());
    } else {
        lemma_total_update(list.drop_last(), at, subset);
        assert(after.drop_last() =~= list.drop_last().update(at, subset));
    }
}

proof fn lemma_with_geometry(subsets: Seq<SubsetView>, end: int)
    requires
        0 <= end <= subsets.len(),
        all_sound(subsets),
    ensures
        all_sound(with_geometry(subsets, end)),
        triangle_total(with_geometry(subsets, end)) <= triangle_total(subsets.take(end)),
        with_geometry(subsets, end).len() <= end,
    decreases end,
{
    if end > 0 {
        lemma_with_geometry(subsets, end - 1);
        lemma_total_push(with_geometry(subsets, end - 1), subsets[end - 1]);
        lemma_total_push(subsets.take(end - 1), subsets[end - 1]);
        assert(subsets.take(end) =~= subsets.take(end - 1).push(subsets[end - 1]));
    }
}

proof fn lemma_of_alpha(subsets: Seq<SubsetView>, end: int)
    requires
        0 <= end <= subsets.len(),
        all_sound(subsets),
    ensures
        all_sound(of_alpha(subsets, true, end)),
        all_sound(of_alpha(subsets, false, end)),
        triangle_total(of_alpha(subsets, true, end)) + triangle_total(
            of_alpha(subsets, false, end),
        ) == triangle_total(subsets.take(end)),
        of_alpha(subsets, true, end).len() + of_alpha(subsets, false, end).len() == end,
    decreases end,
{
    if end > 0 {
        lemma_of_alpha(subsets, end - 1);
        let last = subsets[end - 1];
        lemma_total_push(of_alpha(subsets, last.has_alpha, end - 1), last);
        lemma_total_push(subsets.take(end - 1), last);
        assert(subsets.take(end) =~= subsets.take(end - 1).push(last));
    } else {
        assert(subsets.take(0).len() == 0);
    }
}

proof fn lemma_with_subsets_concat(
    list: Seq<SubsetView>,
    a: Seq<SubsetView>,
    b: Seq<SubsetView>,
    end: int,
)
    requires
        0 <= end <= a.len() + b.len(),
    ensures
        end <= a.len() ==> with_subsets(list, a + b, end) == with_subsets(list, a, end),
        end > a.len() ==> with_subsets(list, a + b, end) == with_subsets(
            with_subsets(list, a, a.len() as int),
            b,
            end - a.len(),
        ),
    decreases end,
{
    if end > 0 {
        lemma_with_subsets_concat(list, a, b, end - 1);
        if end <= a.len() {
            assert((a + b)[end - 1] == a[end - 1]);
        } else {
            let base = with_subsets(list, a, a.len() as int);
            assert((a + b)[end - 1] == b[end - 1 - a.len()]);
            assert(with_subsets(base, b, 0) == base);
            assert(with_subsets(base, b, end - a.len()) == with_subset(
                with_subsets(base, b, end - 1 - a.len()),
                b[end - 1 - a.len()],
            ));
        }
    }
}

proof fn lemma_views_push(subsets: Seq<Subset>, subset: Subset)
    ensures
        views(subsets.push(subset)) == views(subsets).push(subset@),
{
    assert(views(subsets.push(subset)) =~= views(subsets).push(subset@));
}

/// The subsets that have geometry.
fn keep_geometry(subsets: Vec<Subset>) -> (r: Vec<Subset>)
    ensures
        views(r@) == with_geometry(views(subsets@), subsets@.len() as int),
{
    let ghost source = views(subsets@);
    let total: usize = subsets.len();
    let mut rest = reversed(subsets);
    let mut kept: Vec<Subset> = Vec::new();
    let mut done: usize = 0;
    assert(views(kept@) =~= with_geometry(source, 0));
    while rest.len() > 0
        invariant
            done + rest@.len() == total,
            total == source.len(),
            views(rest@.reverse()) == source.skip(done as int),
            views(kept@) == with_geometry(source, done as int),
        decreases rest@.len(),
    {
        let ghost queue = rest@.reverse();
        let ghost before = kept@;
        let subset = rest.pop().unwrap();
        proof {
            assert(queue[0] == subset);
            assert(views(queue)[0] == subset@);
            assert(source[done as int] == subset@);
            assert(rest@.reverse() =~= queue.drop_first());
            assert(views(rest@.reverse()) =~= views(queue).drop_first());
            assert(source.skip(done as int).drop_first() =~= source.skip(done + 1));
            assert(corners(subset.triangles@).len() == subset.triangles@.len());
            lemma_views_push(before, subset);
        }
        if subset.vertices.len() > 0 && subset.triangles.len() > 0 {
            kept.push(subset);
        }
        done = done + 1;
    }
    kept
}

/// The subsets with alpha and those without.
fn split_alpha(subsets: Vec<Subset>) -> (r: (Vec<Subset>, Vec<Subset>))
    ensures
        views(r.0@) == of_alpha(views(subsets@), true, subsets@.len() as int),
        views(r.1@) == of_alpha(views(subsets@), false, subsets@.len() as int),
{
    let ghost source = views(subsets@);
    let total: usize = subsets.len();
    let mut rest = reversed(subsets);
    let mut alpha: Vec<Subset> = Vec::new();
    let mut opaque: Vec<Subset> = Vec::new();
    let mut done: usize = 0;
    assert(views(alpha@) =~= of_alpha(source, true, 0));
    assert(views(opaque@) =~= of_alpha(source, false, 0));
    while rest.len() > 0
        invariant
            done + rest@.len() == total,
            total == source.len(),
            views(rest@.reverse()) == source.skip(done as int),
            views(alpha@) == of_alpha(source, true, done as int),
            views(opaque@) == of_alpha(source, false, done as int),
        decreases rest@.len(),
    {
        let ghost queue = rest@.reverse();
        let subset = rest.pop().unwrap();
        proof {
            assert(queue[0] == subset);
            assert(views(queue)[0] == subset@);
            assert(source[done as int] == subset@);
            assert(rest@.reverse() =~= queue.drop_first());
            assert(views(rest@.reverse()) =~= views(queue).drop_first());
            assert(source.skip(done as int).drop_first() =~= source.skip(done + 1));
            lemma_views_push(alpha@, subset);
            lemma_views_push(opaque@, subset);
        }
        if subset.has_alpha {
            alpha.push(subset);
        } else {
            opaque.push(subset);
        }
        done = done + 1;
    }
    (alpha, opaque)
}

/// Adds subsets to a list one by one, joining each to the first one that can take it.
fn add_subsets(list: &mut Vec<Subset>, subsets: Vec<Subset>)
    requires
        all_sound(views(subsets@)),
        triangle_total(views(old(list)@)) + triangle_total(views(subsets@)) <= u32::MAX,
    ensures
        views(final(list)@) == with_subsets(
            views(old(list)@),
            views(subsets@),
            subsets@.len() as int,
        ),
        triangle_total(views(final(list)@)) == triangle_total(views(old(list)@)) + triangle_total(
            views(subsets@),
        ),
{
    let ghost source = views(subsets@);
    let ghost start = views(list@);
    let total: usize = subsets.len();
    let mut rest = reversed(subsets);
    let mut done: usize = 0;
    assert(source.take(0).len() == 0);
    while rest.len() > 0
        invariant
            done + rest@.len() == total,
            total == source.len(),
            all_sound(source),
            triangle_total(start) + triangle_total(source) <= u32::MAX,
            views(rest@.reverse()) == source.skip(done as int),
            views(list@) == with_subsets(start, source, done as int),
            triangle_total(views(list@)) == triangle_total(start) + triangle_total(
                source.take(done as int),
            ),
        decreases rest@.len(),
    {
        let ghost queue = rest@.reverse();
        let ghost before = list@;
        let subset = rest.pop().unwrap();
        proof {
            assert(queue[0] == subset);
            assert(views(queue)[0] == subset@);
            assert(source[done as int] == subset@);
            assert(rest@.reverse() =~= queue.drop_first());
            assert(views(rest@.reverse()) =~= views(queue).drop_first());
            assert(source.skip(done as int).drop_first() =~= source.skip(done + 1));
            assert(sound(source[done as int]));
            assert(source.take(done + 1) =~= source.take(done as int).push(source[done as int]));
            lemma_total_push(source.take(done as int), source[done as int]);
            lemma_total_concat(source.take(done + 1), source.skip(done + 1));
            assert(source.take(done + 1) + source.skip(done + 1) =~= source);
            lemma_with_subset_total(views(before), subset@);
            lemma_views_push(before, subset);
        }
        let count: usize = list.len();
        let mut fit: usize = 0;
        proof {
            assert(views(list@).len() == count);
        }
        while fit < count && !list[fit].joins_with(&subset)
            invariant
                count == list@.len(),
                fit <= count,
                list@ == before,
                first_fit(views(before), subset@, fit as int) == first_fit(
                    views(before),
                    subset@,
                    0,
                ),
            decreases count - fit,
        {
            assert(views(before)[fit as int] == before[fit as int]@);
            fit = fit + 1;
        }
        proof {
            if fit < count {
                assert(views(before)[fit as int] == before[fit as int]@);
            }
            assert(first_fit(views(before), subset@, 0) == fit);
        }
        if fit < count {
            proof {
                lemma_total_bound(views(before), fit as int);
                assert(corners(subset.triangles@).len() == subset.triangles@.len());
                assert(corners(before[fit as int].triangles@).len()
                    == before[fit as int].triangles@.len());
            }
            let bin: &mut Subset = &mut list[fit];
            bin.join(&subset);
            proof {
                assert(views(list@) =~= views(before).update(
                    fit as int,
                    joined(views(before)[fit as int], subset@),
                ));
            }
        } else {
            list.push(subset);
        }
        done = done + 1;
    }
    assert(source.take(done as int) =~= source);
}

impl DistantStatic {
    /// Drops subsets without geometry.
    pub fn discard_empty_subsets(&mut self)
        ensures
            views(final(self).subsets@) == with_geometry(
                views(old(self).subsets@),
                old(self).subsets@.len() as int,
            ),
            *final(self) == (DistantStatic { subsets: final(self).subsets, ..*old(self) }),
    {
        let mut all: Vec<Subset> = Vec::new();
        std::mem::swap(&mut all, &mut self.subsets);
        self.subsets = keep_geometry(all);
    }

    /// Merges subsets with the same `has_alpha` into larger subsets.
    ///
    /// Subsets are kept separate when their textures differ, because UVs are later reinterpreted
    /// relative to the atlas page that owns that texture. Each subset is joined to the first earlier
    /// one that can take it, not only to the last, so that a full subset in between does not split
    /// what still fits together. Callers must recompute bounds after any subsequent
    /// geometry-changing passes settle.
    pub fn merge_subsets(&mut self)
        requires
            all_sound(views(old(self).subsets@)),
            triangle_total(views(old(self).subsets@)) <= u32::MAX,
        ensures
            views(final(self).subsets@) == merged_subsets(views(old(self).subsets@)),
            *final(self) == (DistantStatic { subsets: final(self).subsets, ..*old(self) }),
    {
        let ghost source = views(self.subsets@);
        self.discard_empty_subsets();
        if self.subsets.len() <= 1 {
            return;
        }
        let ghost kept = views(self.subsets@);
        let mut all: Vec<Subset> = Vec::new();
        std::mem::swap(&mut all, &mut self.subsets);
        proof {
            lemma_with_geometry(source, source.len() as int);
            assert(source.take(source.len() as int) =~= source);
            lemma_of_alpha(kept, kept.len() as int);
            assert(kept.take(kept.len() as int) =~= kept);
        }
        let (alpha, opaque) = split_alpha(all);
        let ghost first = views(alpha@);
        let ghost second = views(opaque@);
        let mut merged: Vec<Subset> = Vec::new();
        assert(views(merged@) =~= Seq::empty());
        add_subsets(&mut merged, alpha);
        add_subsets(&mut merged, opaque);
        proof {
            lemma_with_subsets_concat(Seq::empty(), first, second, kept.len() as int);
            if second.len() == 0 {
                assert(with_subsets(with_subsets(Seq::empty(), first, first.len() as int), second, 0)
                    == with_subsets(Seq::empty(), first, first.len() as int));
            }
        }
        self.subsets = merged;
    }
}

// ---------------------------------------------------------------------------------------------
// What merging keeps
// ---------------------------------------------------------------------------------------------

/// What holds of every subset on its way through merging: triangles have their vertices, components
/// tile the triangles, and no vertex is out of reach of an index.
pub open spec fn tidy(subset: SubsetView) -> bool {
    &&& corners_within(subset.triangles, subset.vertices.len() as int)
    &&& tiles(subset.components, subset.triangles.len() as int)
    &&& subset.vertices.len() <= 0x1_0000
}

/// Every subset is tidy.
pub open spec fn all_tidy(subsets: Seq<SubsetView>) -> bool {
    forall|i: int| 0 <= i < subsets.len() ==> tidy(#[trigger] subsets[i])
}

/// What holds of every subset whose palette is kept: triangles have their vertices, components
/// tile the triangles, no vertex is out of reach of an index, and the listed bounds are distinct,
/// hold every vertex's bound, and fit the palette.
pub open spec fn well_kept(subset: SubsetView) -> bool {
    &&& corners_within(subset.triangles, subset.vertices.len() as int)
    &&& tiles(subset.components, subset.triangles.len() as int)
    &&& subset.vertices.len() <= 0xffff
    &&& subset.uv_bounds.no_duplicates()
    &&& subset.uv_bounds.len() <= UV_BOUND_PALETTE_CAP
    &&& bounds_listed(subset.vertices, subset.uv_bounds)
}

/// Every subset is well kept.
pub open spec fn all_well_kept(subsets: Seq<SubsetView>) -> bool {
    forall|i: int| 0 <= i < subsets.len() ==> well_kept(#[trigger] subsets[i])
}

/// Components that tile lie within the triangles.
pub proof fn lemma_tiles_within(components: Seq<MergedComponent>, triangle_count: int)
    requires
        tiles(components, triangle_count),
    ensures
        components_within(components, triangle_count),
{
    assert forall|c: int| 0 <= c < components.len() implies (
    #[trigger] components[c]).first_triangle + components[c].triangle_count <= triangle_count by {
        assert(components[c].first_triangle == covered(components.take(c)));
        lemma_covered_take(components, c);
        lemma_covered_grows(components, c + 1, components.len() as int);
        assert(components.take(components.len() as int) =~= components);
    }
}

/// Appending a tiling behind a tiling tiles both.
proof fn lemma_append_tiling(
    components: Seq<MergedComponent>,
    source: Seq<MergedComponent>,
    end: int,
)
    requires
        tiles(components, covered(components)),
        tiles(source, covered(source)),
        0 <= end <= source.len(),
        covered(components) + covered(source) <= u32::MAX,
    ensures
        ({
            let after = with_components(components, source, covered(components), end);
            &&& tiles(after, covered(components) + covered(source.take(end)))
            &&& covered(after) == covered(components) + covered(source.take(end))
        }),
    decreases end,
{
    lemma_covered_grows(components, 0, components.len() as int);
    assert(components.take(components.len() as int) =~= components);
    assert(components.take(0).len() == 0);
    if end > 0 {
        lemma_append_tiling(components, source, end - 1);
        lemma_covered_take(source, end - 1);
        lemma_covered_grows(source, end, source.len() as int);
        lemma_covered_grows(source, 0, end - 1);
        assert(source.take(source.len() as int) =~= source);
        let next = source[end - 1];
        let before = with_components(components, source, covered(components), end - 1);
        assert(component_valid(next));
        assert(next.first_triangle == covered(source.take(end - 1)));
        lemma_push_keeps_tiling(
            before,
            next.triangle_count,
            next.center,
            next.radius,
            next.classification,
        );
        assert((next.first_triangle + covered(components)) as u32 == covered(before) as u32);
    } else {
        assert(source.take(0).len() == 0);
    }
}

/// Joining keeps subsets tidy.
pub proof fn lemma_joined_tidy(merged: SubsetView, subset: SubsetView)
    requires
        tidy(merged),
        tidy(subset),
        joins(merged, subset),
        merged.triangles.len() + subset.triangles.len() <= u32::MAX,
    ensures
        tidy(joined(merged, subset)),
{
    let whole = joined(merged, subset);
    let offset = merged.vertices.len() as int;
    assert forall|t: int| 0 <= t < whole.triangles.len() implies (
    #[trigger] whole.triangles[t]).0 < whole.vertices.len() && whole.triangles[t].1
        < whole.vertices.len() && whole.triangles[t].2 < whole.vertices.len() by {
        if t < merged.triangles.len() {
            assert(whole.triangles[t] == merged.triangles[t]);
        } else {
            let s = t - merged.triangles.len();
            let source = subset.triangles[s];
            assert(source.0 < subset.vertices.len());
            assert(shifted(subset.triangles, offset)[s] == (
                (source.0 + offset) as u16,
                (source.1 + offset) as u16,
                (source.2 + offset) as u16,
            ));
        }
    }
    if !mixed_provenance(merged, subset) && subset.components.len() > 0 {
        lemma_append_tiling(
            merged.components,
            subset.components,
            subset.components.len() as int,
        );
        assert(subset.components.take(subset.components.len() as int) =~= subset.components);
    }
}

/// Joining keeps subsets well kept.
pub proof fn lemma_joined_well_kept(merged: SubsetView, subset: SubsetView)
    requires
        well_kept(merged),
        well_kept(subset),
        joins(merged, subset),
        merged.triangles.len() + subset.triangles.len() <= u32::MAX,
    ensures
        well_kept(joined(merged, subset)),
{
    lemma_joined_tidy(merged, subset);
    let whole = joined(merged, subset);
    lemma_union(merged.uv_bounds, subset.uv_bounds, subset.uv_bounds.len() as int);
    assert(subset.uv_bounds.take(subset.uv_bounds.len() as int) =~= subset.uv_bounds);
    assert forall|i: int| 0 <= i < whole.vertices.len() implies whole.uv_bounds.contains(
        (#[trigger] whole.vertices[i]).uv_bound,
    ) by {
        if i < merged.vertices.len() {
            assert(merged.uv_bounds.contains(merged.vertices[i].uv_bound));
        } else {
            assert(subset.uv_bounds.contains(
                subset.vertices[i - merged.vertices.len()].uv_bound,
            ));
        }
    }
}

proof fn lemma_with_subsets_tidy(
    list: Seq<SubsetView>,
    source: Seq<SubsetView>,
    end: int,
)
    requires
        all_tidy(list),
        all_tidy(source),
        0 <= end <= source.len(),
        triangle_total(list) + triangle_total(source) <= u32::MAX,
    ensures
        all_tidy(with_subsets(list, source, end)),
        triangle_total(with_subsets(list, source, end)) == triangle_total(list) + triangle_total(
            source.take(end),
        ),
    decreases end,
{
    if end > 0 {
        lemma_with_subsets_tidy(list, source, end - 1);
        let before = with_subsets(list, source, end - 1);
        let next = source[end - 1];
        lemma_with_subset_total(before, next);
        assert(source.take(end) =~= source.take(end - 1).push(next));
        lemma_total_push(source.take(end - 1), next);
        lemma_total_concat(source.take(end), source.skip(end));
        assert(source.take(end) + source.skip(end) =~= source);
        lemma_first_fit(before, next, 0);
        let fit = first_fit(before, next, 0);
        if fit < before.len() {
            lemma_total_bound(before, fit);
            assert(tidy(before[fit]));
            lemma_joined_tidy(before[fit], next);
        }
    } else {
        assert(source.take(0).len() == 0);
    }
}

proof fn lemma_with_subsets_well_kept(
    list: Seq<SubsetView>,
    source: Seq<SubsetView>,
    end: int,
)
    requires
        all_well_kept(list),
        all_well_kept(source),
        0 <= end <= source.len(),
        triangle_total(list) + triangle_total(source) <= u32::MAX,
    ensures
        all_well_kept(with_subsets(list, source, end)),
        triangle_total(with_subsets(list, source, end)) == triangle_total(list) + triangle_total(
            source.take(end),
        ),
    decreases end,
{
    if end > 0 {
        lemma_with_subsets_well_kept(list, source, end - 1);
        let before = with_subsets(list, source, end - 1);
        let next = source[end - 1];
        lemma_with_subset_total(before, next);
        assert(source.take(end) =~= source.take(end - 1).push(next));
        lemma_total_push(source.take(end - 1), next);
        lemma_total_concat(source.take(end), source.skip(end));
        assert(source.take(end) + source.skip(end) =~= source);
        lemma_first_fit(before, next, 0);
        let fit = first_fit(before, next, 0);
        if fit < before.len() {
            lemma_total_bound(before, fit);
            assert(well_kept(before[fit]));
            lemma_joined_well_kept(before[fit], next);
        }
    } else {
        assert(source.take(0).len() == 0);
    }
}

proof fn lemma_selections_tidy(subsets: Seq<SubsetView>, end: int)
    requires
        0 <= end <= subsets.len(),
        all_tidy(subsets),
    ensures
        all_tidy(with_geometry(subsets, end)),
        all_tidy(of_alpha(subsets, true, end)),
        all_tidy(of_alpha(subsets, false, end)),
    decreases end,
{
    if end > 0 {
        lemma_selections_tidy(subsets, end - 1);
    }
}

proof fn lemma_selections_well_kept(subsets: Seq<SubsetView>, end: int)
    requires
        0 <= end <= subsets.len(),
        all_well_kept(subsets),
    ensures
        all_well_kept(with_geometry(subsets, end)),
        all_well_kept(of_alpha(subsets, true, end)),
        all_well_kept(of_alpha(subsets, false, end)),
    decreases end,
{
    if end > 0 {
        lemma_selections_well_kept(subsets, end - 1);
    }
}

/// Tidy subsets are sound.
pub proof fn lemma_tidy_sound(subsets: Seq<SubsetView>)
    requires
        all_tidy(subsets),
    ensures
        all_sound(subsets),
{
    assert forall|i: int| 0 <= i < subsets.len() implies sound(#[trigger] subsets[i]) by {
        assert(tidy(subsets[i]));
        lemma_tiles_within(subsets[i].components, subsets[i].triangles.len() as int);
    }
}

/// Well-kept subsets are tidy.
pub proof fn lemma_well_kept_tidy(subsets: Seq<SubsetView>)
    requires
        all_well_kept(subsets),
    ensures
        all_tidy(subsets),
{
    assert forall|i: int| 0 <= i < subsets.len() implies tidy(#[trigger] subsets[i]) by {
        assert(well_kept(subsets[i]));
    }
}

/// Merging a static's subsets keeps them well kept: indices stay in reach, components keep tiling
/// the triangles, and palettes stay within the cap.
pub proof fn lemma_merge_well_kept(subsets: Seq<SubsetView>)
    requires
        all_well_kept(subsets),
        triangle_total(subsets) <= u32::MAX,
    ensures
        all_well_kept(merged_subsets(subsets)),
{
    lemma_well_kept_tidy(subsets);
    lemma_tidy_sound(subsets);
    let kept = with_geometry(subsets, subsets.len() as int);
    lemma_with_geometry(subsets, subsets.len() as int);
    lemma_selections_well_kept(subsets, subsets.len() as int);
    assert(subsets.take(subsets.len() as int) =~= subsets);
    if kept.len() > 1 {
        lemma_selections_well_kept(kept, kept.len() as int);
        lemma_of_alpha(kept, kept.len() as int);
        assert(kept.take(kept.len() as int) =~= kept);
        let first = of_alpha(kept, true, kept.len() as int);
        let second = of_alpha(kept, false, kept.len() as int);
        lemma_total_concat(first, second);
        assert forall|i: int| 0 <= i < (first + second).len() implies well_kept(
            #[trigger] (first + second)[i],
        ) by {
            if i < first.len() {
                assert(well_kept(first[i]));
            } else {
                assert(well_kept(second[i - first.len()]));
            }
        }
        lemma_with_subsets_well_kept(Seq::empty(), merge_order(kept), kept.len() as int);
    }
}

/// Subsets without geometry have no triangles, so that dropping them keeps all triangles.
pub proof fn lemma_geometry_total(subsets: Seq<SubsetView>, end: int)
    requires
        0 <= end <= subsets.len(),
        all_tidy(subsets),
    ensures
        triangle_total(with_geometry(subsets, end)) == triangle_total(subsets.take(end)),
    decreases end,
{
    if end > 0 {
        lemma_geometry_total(subsets, end - 1);
        let last = subsets[end - 1];
        assert(subsets.take(end).drop_last() =~= subsets.take(end - 1));
        assert(subsets.take(end).last() == last);
        assert(tidy(last));
        if last.triangles.len() > 0 {
            assert(last.triangles[0].0 < last.vertices.len());
        }
        let before = with_geometry(subsets, end - 1);
        assert(before.push(last).drop_last() =~= before);
    }
}

/// Merging a static's subsets keeps them tidy and neither loses nor adds triangles, except that it
/// drops subsets without vertices.
pub proof fn lemma_merge_keeps_triangles(subsets: Seq<SubsetView>)
    requires
        all_tidy(subsets),
        triangle_total(subsets) <= u32::MAX,
    ensures
        all_tidy(merged_subsets(subsets)),
        triangle_total(merged_subsets(subsets)) == triangle_total(
            with_geometry(subsets, subsets.len() as int),
        ),
        triangle_total(merged_subsets(subsets)) <= triangle_total(subsets),
{
    lemma_tidy_sound(subsets);
    let kept = with_geometry(subsets, subsets.len() as int);
    lemma_with_geometry(subsets, subsets.len() as int);
    lemma_selections_tidy(subsets, subsets.len() as int);
    assert(subsets.take(subsets.len() as int) =~= subsets);
    if kept.len() > 1 {
        lemma_selections_tidy(kept, kept.len() as int);
        lemma_of_alpha(kept, kept.len() as int);
        assert(kept.take(kept.len() as int) =~= kept);
        let first = of_alpha(kept, true, kept.len() as int);
        let second = of_alpha(kept, false, kept.len() as int);
        lemma_total_concat(first, second);
        assert forall|i: int| 0 <= i < (first + second).len() implies tidy(
            #[trigger] (first + second)[i],
        ) by {
            if i < first.len() {
                assert(tidy(first[i]));
            } else {
                assert(tidy(second[i - first.len()]));
            }
        }
        let order = merge_order(kept);
        lemma_with_subsets_tidy(Seq::empty(), order, kept.len() as int);
        assert(order.take(kept.len() as int) =~= order);
    }
}

} // verus!
