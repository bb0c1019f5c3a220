//! What subsets draw, and that merging and appending draw the same.

use crate::float_bits::line_position;
use crate::model::append::{
    all_placed, is_culled, lemma_distinct_below, merges, noted, noted_all, placed, renumbered,
    survivors, used_vertices, with_source, with_survivors, Placement,
};
use crate::model::merge::{
    corners_within, first_fit, joined, joins, lemma_first_fit, merge_order, merged_subsets,
    of_alpha, shifted, with_geometry, with_subset, with_subsets, Corners, SubsetView,
};
use crate::model::{
    continues_run, with_component, MergedComponent, StaticType, SubsetTexture, Vertex,
};
use vstd::multiset::Multiset;
use vstd::prelude::*;

verus! {

/// A triangle as it is drawn: its corners, and what its subset says of drawing them. The emission is
/// that of the number line, on which both zeros are one.
pub struct Drawn {
    pub a: Vertex,
    pub b: Vertex,
    pub c: Vertex,
    pub has_alpha: bool,
    pub has_uv_controller: bool,
    pub emissive: int,
    pub texture: SubsetTexture,
}

/// Triangle `t` of a subset as it is drawn.
pub open spec fn drawn_at(subset: SubsetView, t: int) -> Drawn {
    Drawn {
        a: subset.vertices[subset.triangles[t].0 as int],
        b: subset.vertices[subset.triangles[t].1 as int],
        c: subset.vertices[subset.triangles[t].2 as int],
        has_alpha: subset.has_alpha,
        has_uv_controller: subset.has_uv_controller,
        emissive: line_position(subset.emissive),
        texture: subset.texture,
    }
}

/// What a subset draws, in order.
pub open spec fn drawn_by(subset: SubsetView) -> Seq<Drawn> {
    Seq::new(subset.triangles.len(), |t: int| drawn_at(subset, t))
}

/// What subsets draw together.
pub open spec fn drawn_by_all(subsets: Seq<SubsetView>) -> Multiset<Drawn>
    decreases subsets.len(),
{
    if subsets.len() == 0 {
        Multiset::empty()
    } else {
        drawn_by_all(subsets.drop_last()).add(drawn_by(subsets.last()).to_multiset())
    }
}

/// The subset moved to its places.
pub open spec fn moved(source: SubsetView, places: Seq<Placement>) -> SubsetView {
    SubsetView {
        vertices: Seq::new(
            source.vertices.len(),
            |i: int|
                Vertex {
                    position: places[i].position,
                    normal: places[i].normal,
                    uv: source.vertices[i].uv,
                    color: source.vertices[i].color,
                    uv_bound: source.vertices[i].uv_bound,
                },
        ),
        ..source
    }
}

/// Every subset's corners are vertices of it.
pub open spec fn all_within(subsets: Seq<SubsetView>) -> bool {
    forall|i: int|
        0 <= i < subsets.len() ==> corners_within(
            (#[trigger] subsets[i]).triangles,
            subsets[i].vertices.len() as int,
        )
}

/// Two subsets that are joined draw what each drew, one after the other.
pub proof fn lemma_joined_draws_both(merged: SubsetView, subset: SubsetView)
    requires
        joins(merged, subset),
        corners_within(merged.triangles, merged.vertices.len() as int),
        corners_within(subset.triangles, subset.vertices.len() as int),
    ensures
        drawn_by(joined(merged, subset)) == drawn_by(merged) + drawn_by(subset),
        corners_within(
            joined(merged, subset).triangles,
            joined(merged, subset).vertices.len() as int,
        ),
{
    let both = joined(merged, subset);
    let n = merged.triangles.len();
    let moved_up = shifted(subset.triangles, merged.vertices.len() as int);
    assert forall|t: int| 0 <= t < both.triangles.len() implies (#[trigger] both.triangles[t]).0
        < both.vertices.len() && both.triangles[t].1 < both.vertices.len() && both.triangles[t].2
        < both.vertices.len() by {
        if t < n {
            assert(both.triangles[t] == merged.triangles[t]);
        } else {
            assert(both.triangles[t] == moved_up[t - n]);
            let source = subset.triangles[t - n];
            assert(moved_up[t - n].0 == source.0 + merged.vertices.len());
        }
    }
    assert forall|t: int| 0 <= t < both.triangles.len() implies drawn_by(both)[t] == (drawn_by(
        merged,
    ) + drawn_by(subset))[t] by {
        if t < n {
            assert(both.triangles[t] == merged.triangles[t]);
        } else {
            let source = subset.triangles[t - n];
            assert(both.triangles[t] == moved_up[t - n]);
            assert(moved_up[t - n].0 == source.0 + merged.vertices.len());
            assert(moved_up[t - n].1 == source.1 + merged.vertices.len());
            assert(moved_up[t - n].2 == source.2 + merged.vertices.len());
        }
    }
    assert(drawn_by(both) =~= drawn_by(merged) + drawn_by(subset));
}

proof fn lemma_all_push(list: Seq<SubsetView>, subset: SubsetView)
    ensures
        drawn_by_all(list.push(subset)) == drawn_by_all(list).add(drawn_by(subset).to_multiset()),
{
    assert(list.push(subset).drop_last() =~= list);
}

proof fn lemma_all_add(a: Seq<SubsetView>, b: Seq<SubsetView>)
    ensures
        drawn_by_all(a + b) == drawn_by_all(a).add(drawn_by_all(b)),
    decreases b.len(),
{
    if b.len() == 0 {
        assert(a + b =~= a);
        assert(drawn_by_all(a).add(Multiset::empty()) =~= drawn_by_all(a));
    } else {
        lemma_all_add(a, b.drop_last());
        assert((a + b).drop_last() =~= a + b.drop_last());
        let more = drawn_by(b.last()).to_multiset();
        assert(drawn_by_all(a).add(drawn_by_all(b.drop_last())).add(more) =~= drawn_by_all(a).add(
            drawn_by_all(b.drop_last()).add(more),
        ));
    }
}

/// A subset of the list that draws more makes the list draw that much more.
proof fn lemma_all_update(list: Seq<SubsetView>, k: int, subset: SubsetView, more: Seq<Drawn>)
    requires
        0 <= k < list.len(),
        drawn_by(subset) == drawn_by(list[k]) + more,
    ensures
        drawn_by_all(list.update(k, subset)) == drawn_by_all(list).add(more.to_multiset()),
    decreases list.len(),
{
    let next = list.update(k, subset);
    vstd::seq_lib::lemma_multiset_commutative(drawn_by(list[k]), more);
    let front = drawn_by_all(list.drop_last());
    let extra = more.to_multiset();
    if k == list.len() - 1 {
        assert(next.drop_last() =~= list.drop_last());
        let own = drawn_by(list[k]).to_multiset();
        assert(front.add(own.add(extra)) =~= front.add(own).add(extra));
    } else {
        lemma_all_update(list.drop_last(), k, subset, more);
        assert(next.drop_last() =~= list.drop_last().update(k, subset));
        let own = drawn_by(list.last()).to_multiset();
        assert(front.add(extra).add(own) =~= front.add(own).add(extra));
    }
}

proof fn lemma_subset_drawn(list: Seq<SubsetView>, subset: SubsetView)
    requires
        all_within(list),
        corners_within(subset.triangles, subset.vertices.len() as int),
    ensures
        drawn_by_all(with_subset(list, subset)) == drawn_by_all(list).add(
            drawn_by(subset).to_multiset(),
        ),
        all_within(with_subset(list, subset)),
{
    let fit = first_fit(list, subset, 0);
    lemma_first_fit(list, subset, 0);
    let next = with_subset(list, subset);
    if fit < list.len() {
        lemma_joined_draws_both(list[fit], subset);
        lemma_all_update(list, fit, joined(list[fit], subset), drawn_by(subset));
        assert forall|i: int| 0 <= i < next.len() implies corners_within(
            (#[trigger] next[i]).triangles,
            next[i].vertices.len() as int,
        ) by {
            if i != fit {
                assert(next[i] == list[i]);
            }
        }
    } else {
        lemma_all_push(list, subset);
        assert forall|i: int| 0 <= i < next.len() implies corners_within(
            (#[trigger] next[i]).triangles,
            next[i].vertices.len() as int,
        ) by {
            if i < list.len() {
                assert(next[i] == list[i]);
            }
        }
    }
}

proof fn lemma_subsets_drawn(list: Seq<SubsetView>, source: Seq<SubsetView>, end: int)
    requires
        all_within(list),
        all_within(source),
        0 <= end <= source.len(),
    ensures
        drawn_by_all(with_subsets(list, source, end)) == drawn_by_all(list).add(
            drawn_by_all(source.take(end)),
        ),
        all_within(with_subsets(list, source, end)),
    decreases end,
{
    if end <= 0 {
        assert(source.take(end) =~= Seq::empty());
        assert(drawn_by_all(list).add(Multiset::empty()) =~= drawn_by_all(list));
    } else {
        lemma_subsets_drawn(list, source, end - 1);
        let next = source[end - 1];
        lemma_subset_drawn(with_subsets(list, source, end - 1), next);
        assert(source.take(end).drop_last() =~= source.take(end - 1));
        let more = drawn_by(next).to_multiset();
        let before = drawn_by_all(source.take(end - 1));
        assert(drawn_by_all(list).add(before).add(more) =~= drawn_by_all(list).add(
            before.add(more),
        ));
    }
}

proof fn lemma_alpha_drawn(subsets: Seq<SubsetView>, end: int)
    requires
        0 <= end <= subsets.len(),
        all_within(subsets),
    ensures
        drawn_by_all(of_alpha(subsets, true, end)).add(
            drawn_by_all(of_alpha(subsets, false, end)),
        ) == drawn_by_all(subsets.take(end)),
        all_within(of_alpha(subsets, true, end)),
        all_within(of_alpha(subsets, false, end)),
        of_alpha(subsets, true, end).len() + of_alpha(subsets, false, end).len() == end,
    decreases end,
{
    if end <= 0 {
        assert(subsets.take(end) =~= Seq::empty());
        assert(Multiset::<Drawn>::empty().add(Multiset::empty()) =~= Multiset::empty());
    } else {
        lemma_alpha_drawn(subsets, end - 1);
        let next = subsets[end - 1];
        let clear = of_alpha(subsets, true, end - 1);
        let solid = of_alpha(subsets, false, end - 1);
        assert(subsets.take(end).drop_last() =~= subsets.take(end - 1));
        lemma_all_push(clear, next);
        lemma_all_push(solid, next);
        let more = drawn_by(next).to_multiset();
        let a = drawn_by_all(clear);
        let b = drawn_by_all(solid);
        assert(a.add(more).add(b) =~= a.add(b).add(more));
        assert(a.add(b.add(more)) =~= a.add(b).add(more));
    }
}

proof fn lemma_geometry_drawn(subsets: Seq<SubsetView>, end: int)
    requires
        0 <= end <= subsets.len(),
        all_within(subsets),
    ensures
        drawn_by_all(with_geometry(subsets, end)) == drawn_by_all(subsets.take(end)),
        all_within(with_geometry(subsets, end)),
    decreases end,
{
    if end <= 0 {
        assert(subsets.take(end) =~= Seq::empty());
    } else {
        lemma_geometry_drawn(subsets, end - 1);
        let next = subsets[end - 1];
        assert(subsets.take(end).drop_last() =~= subsets.take(end - 1));
        lemma_all_push(with_geometry(subsets, end - 1), next);
        if next.triangles.len() > 0 {
            assert(next.triangles[0].0 < next.vertices.len());
        } else {
            assert(drawn_by(next) =~= Seq::empty());
            broadcast use vstd::seq_lib::group_to_multiset_ensures;

            assert(drawn_by(next).to_multiset() =~= Multiset::empty());
            let all = drawn_by_all(subsets.take(end - 1));
            assert(all.add(Multiset::empty()) =~= all);
        }
    }
}

/// Merging the subsets of a static draws exactly what the subsets drew, each triangle with the same
/// corners, the same texture and drawn the same way.
pub proof fn lemma_merge_draws_the_same(subsets: Seq<SubsetView>)
    requires
        all_within(subsets),
    ensures
        drawn_by_all(merged_subsets(subsets)) == drawn_by_all(subsets),
{
    let n = subsets.len() as int;
    let kept = with_geometry(subsets, n);
    lemma_geometry_drawn(subsets, n);
    assert(subsets.take(n) =~= subsets);
    if kept.len() > 1 {
        let k = kept.len() as int;
        let order = merge_order(kept);
        lemma_alpha_drawn(kept, k);
        assert(kept.take(k) =~= kept);
        let clear = of_alpha(kept, true, k);
        let solid = of_alpha(kept, false, k);
        lemma_all_add(clear, solid);
        assert forall|i: int| 0 <= i < order.len() implies corners_within(
            (#[trigger] order[i]).triangles,
            order[i].vertices.len() as int,
        ) by {
            if i < clear.len() {
                assert(order[i] == clear[i]);
            } else {
                assert(order[i] == solid[i - clear.len()]);
            }
        }
        lemma_subsets_drawn(Seq::empty(), order, k);
        assert(order.take(k) =~= order);
        assert(Multiset::<Drawn>::empty().add(drawn_by_all(order)) =~= drawn_by_all(order));
    }
}

/// The source is drawn like the subset it goes into.
pub open spec fn drawn_alike(source: SubsetView, merged: SubsetView) -> bool {
    &&& source.has_alpha == merged.has_alpha
    &&& source.has_uv_controller == merged.has_uv_controller
    &&& line_position(source.emissive) == line_position(merged.emissive)
    &&& source.texture == merged.texture
}

/// Only subsets that are drawn alike, or of which one has no vertices, may be merged.
pub proof fn lemma_merges_drawn_alike(source: SubsetView, merged: SubsetView)
    requires
        merges(source, merged),
        source.vertices.len() > 0,
    ensures
        drawn_alike(source, merged),
        source.vertices.len() + merged.vertices.len() < 0x1_0000,
{
}

/// Appending a source draws what was drawn and then the source, moved to its places.
pub proof fn lemma_source_appended(
    merged: SubsetView,
    source: SubsetView,
    places: Seq<Placement>,
    opaque: bool,
)
    requires
        places.len() == source.vertices.len(),
        merged.vertices.len() + source.vertices.len() <= 0x1_0000,
        corners_within(merged.triangles, merged.vertices.len() as int),
        corners_within(source.triangles, source.vertices.len() as int),
        source.has_alpha == !opaque,
        merged.triangles.len() == 0 || drawn_alike(source, merged),
    ensures
        drawn_by(with_source(merged, source, places, opaque)) == drawn_by(merged) + drawn_by(
            moved(source, places),
        ),
        corners_within(
            with_source(merged, source, places, opaque).triangles,
            with_source(merged, source, places, opaque).vertices.len() as int,
        ),
{
    let both = with_source(merged, source, places, opaque);
    let n = merged.triangles.len();
    let moved_up = shifted(source.triangles, merged.vertices.len() as int);
    let there = moved(source, places);
    assert(all_placed(source.vertices, places) =~= there.vertices);
    assert(both.triangles.len() == n + source.triangles.len());
    assert forall|t: int| 0 <= t < both.triangles.len() implies drawn_by(both)[t] == (drawn_by(
        merged,
    ) + drawn_by(there))[t] by {
        if t < n {
            assert(both.triangles[t] == merged.triangles[t]);
        } else {
            let own = source.triangles[t - n];
            assert(both.triangles[t] == moved_up[t - n]);
            assert(moved_up[t - n].0 == own.0 + merged.vertices.len());
            assert(moved_up[t - n].1 == own.1 + merged.vertices.len());
            assert(moved_up[t - n].2 == own.2 + merged.vertices.len());
        }
    }
    assert(drawn_by(both) =~= drawn_by(merged) + drawn_by(there));
    assert forall|t: int| 0 <= t < both.triangles.len() implies (#[trigger] both.triangles[t]).0
        < both.vertices.len() && both.triangles[t].1 < both.vertices.len() && both.triangles[t].2
        < both.vertices.len() by {
        if t < n {
            assert(both.triangles[t] == merged.triangles[t]);
        } else {
            assert(both.triangles[t] == moved_up[t - n]);
            let own = source.triangles[t - n];
            assert(moved_up[t - n].0 == own.0 + merged.vertices.len());
        }
    }
}

/// Triangle `t` has a corner that is not buried.
pub open spec fn shows(triangles: Seq<Corners>, buried: Seq<bool>, t: int) -> bool {
    !buried[triangles[t].0 as int] || !buried[triangles[t].1 as int] || !buried[triangles[t].2 as int]
}

/// What the first `end` triangles of a subset draw that have a corner that is not buried, in order.
pub open spec fn shown_by(subset: SubsetView, buried: Seq<bool>, end: int) -> Seq<Drawn>
    decreases end,
{
    if end <= 0 {
        Seq::empty()
    } else if shows(subset.triangles, buried, end - 1) {
        shown_by(subset, buried, end - 1).push(drawn_at(subset, end - 1))
    } else {
        shown_by(subset, buried, end - 1)
    }
}

/// The list holds exactly the triangles with a corner that is not buried, in order.
pub open spec fn lists_showing(triangles: Seq<Corners>, buried: Seq<bool>, list: Seq<int>) -> bool {
    &&& forall|i: int, j: int| 0 <= i < j < list.len() ==> #[trigger] list[i] < #[trigger] list[j]
    &&& forall|t: int| #[trigger]
        list.contains(t) <==> 0 <= t < triangles.len() && shows(triangles, buried, t)
}

proof fn lemma_survivors_listed(
    there: SubsetView,
    triangles: Seq<Corners>,
    buried: Seq<bool>,
    end: int,
) -> (list: Seq<int>)
    requires
        there.triangles == triangles,
        0 <= end <= triangles.len(),
    ensures
        shown_by(there, buried, end) == list.map_values(|t: int| drawn_at(there, t)),
        lists_showing(triangles.take(end), buried, list),
        survivors(triangles, buried, end).len() == list.len(),
        forall|i: int|
            0 <= i < list.len() ==> 0 <= #[trigger] list[i] < end && survivors(
                triangles,
                buried,
                end,
            )[i] == triangles[list[i]],
    decreases end,
{
    if end <= 0 {
        assert(shown_by(there, buried, end) =~= Seq::<int>::empty().map_values(
            |t: int| drawn_at(there, t),
        ));
        Seq::empty()
    } else {
        let before = lemma_survivors_listed(there, triangles, buried, end - 1);
        let t = end - 1;
        let a = triangles.take(t);
        let b = triangles.take(end);
        assert forall|k: int| 0 <= k < t implies shows(a, buried, k) == #[trigger] shows(
            b,
            buried,
            k,
        ) by {
            assert(a[k] == b[k]);
        }
        assert(b[t] == triangles[t]);
        let list = if is_culled(triangles[t], buried) {
            before
        } else {
            before.push(t)
        };
        assert forall|k: int| #[trigger]
            list.contains(k) <==> 0 <= k < b.len() && shows(b, buried, k) by {
            assert(before.contains(k) <==> 0 <= k < t && shows(a, buried, k));
            if before.contains(k) {
                let i = choose|i: int| 0 <= i < before.len() && before[i] == k;
                assert(list[i] == k);
            }
            if !is_culled(triangles[t], buried) {
                assert(list[before.len() as int] == t);
                if list.contains(k) && k != t {
                    let i = choose|i: int| 0 <= i < list.len() && list[i] == k;
                    assert(before[i] == k);
                }
            }
        }
        assert forall|i: int, j: int| 0 <= i < j < list.len() implies #[trigger] list[i]
            < #[trigger] list[j] by {
            if j < before.len() {
                assert(list[i] == before[i] && list[j] == before[j]);
            } else {
                assert(list[i] == before[i]);
            }
        }
        assert(shown_by(there, buried, end) =~= list.map_values(|t: int| drawn_at(there, t)));
        list
    }
}

/// Appending what survives of a source draws what was drawn, and then exactly the triangles of the
/// source that have a corner that is not buried, moved to their places.
pub proof fn lemma_survivors_appended(
    merged: SubsetView,
    source: SubsetView,
    places: Seq<Placement>,
    opaque: bool,
    buried: Seq<bool>,
) -> (list: Seq<int>)
    requires
        places.len() == source.vertices.len(),
        buried.len() == source.vertices.len(),
        merged.vertices.len() + source.vertices.len() <= 0x1_0000,
        corners_within(merged.triangles, merged.vertices.len() as int),
        corners_within(source.triangles, source.vertices.len() as int),
        source.has_alpha == !opaque,
        merged.triangles.len() == 0 || drawn_alike(source, merged),
    ensures
        lists_showing(source.triangles, buried, list),
        drawn_by(with_survivors(merged, source, places, opaque, buried)) == drawn_by(merged)
            + list.map_values(|t: int| drawn_at(moved(source, places), t)),
        drawn_by(with_survivors(merged, source, places, opaque, buried)) == drawn_by(merged)
            + shown_by(moved(source, places), buried, source.triangles.len() as int),
        corners_within(
            with_survivors(merged, source, places, opaque, buried).triangles,
            with_survivors(merged, source, places, opaque, buried).vertices.len() as int,
        ),
{
    let m = source.triangles.len() as int;
    let there = moved(source, places);
    let list = lemma_survivors_listed(there, source.triangles, buried, m);
    assert(source.triangles.take(m) =~= source.triangles);
    let kept = survivors(source.triangles, buried, m);
    let order = used_vertices(kept, kept.len() as int);
    let base = merged.vertices.len() as int;
    let both = with_survivors(merged, source, places, opaque, buried);
    let n = merged.triangles.len();
    assert forall|t: int| 0 <= t < kept.len() implies {
        &&& (#[trigger] kept[t]).0 < source.vertices.len()
        &&& kept[t].1 < source.vertices.len()
        &&& kept[t].2 < source.vertices.len()
    } by {
        assert(kept[t] == source.triangles[list[t]]);
    }
    lemma_order_of_use(kept, kept.len() as int, source.vertices.len() as int);
    lemma_distinct_below(order, source.vertices.len() as int);
    let drawn = list.map_values(|t: int| drawn_at(there, t));
    assert forall|t: int| 0 <= t < both.triangles.len() implies drawn_by(both)[t] == (drawn_by(
        merged,
    ) + drawn)[t] by {
        if t < n {
            assert(both.triangles[t] == merged.triangles[t]);
        } else {
            let own = kept[t - n];
            assert(both.triangles[t] == renumbered(own, order, base));
            assert(own == source.triangles[list[t - n]]);
            lemma_used_corner(merged, source, places, order, own.0);
            lemma_used_corner(merged, source, places, order, own.1);
            lemma_used_corner(merged, source, places, order, own.2);
        }
    }
    assert(drawn_by(both) =~= drawn_by(merged) + drawn);
    assert forall|t: int| 0 <= t < both.triangles.len() implies (#[trigger] both.triangles[t]).0
        < both.vertices.len() && both.triangles[t].1 < both.vertices.len() && both.triangles[t].2
        < both.vertices.len() by {
        if t < n {
            assert(both.triangles[t] == merged.triangles[t]);
        } else {
            let own = kept[t - n];
            assert(both.triangles[t] == renumbered(own, order, base));
            assert(order.contains(own.0) && order.contains(own.1) && order.contains(own.2));
            assert(0 <= order.index_of(own.0) < order.len());
            assert(0 <= order.index_of(own.1) < order.len());
            assert(0 <= order.index_of(own.2) < order.len());
        }
    }
    list
}

/// No more vertices are in use than there are.
pub proof fn lemma_survivors_used(source: SubsetView, buried: Seq<bool>)
    requires
        corners_within(source.triangles, source.vertices.len() as int),
    ensures
        ({
            let kept = survivors(source.triangles, buried, source.triangles.len() as int);
            used_vertices(kept, kept.len() as int).len() <= source.vertices.len()
        }),
{
    let m = source.triangles.len() as int;
    let list = lemma_survivors_listed(source, source.triangles, buried, m);
    let kept = survivors(source.triangles, buried, m);
    assert forall|t: int| 0 <= t < kept.len() implies {
        &&& (#[trigger] kept[t]).0 < source.vertices.len()
        &&& kept[t].1 < source.vertices.len()
        &&& kept[t].2 < source.vertices.len()
    } by {
        assert(kept[t] == source.triangles[list[t]]);
    }
    lemma_order_of_use(kept, kept.len() as int, source.vertices.len() as int);
    lemma_distinct_below(used_vertices(kept, kept.len() as int), source.vertices.len() as int);
}

/// A vertex in use stands where its number says.
proof fn lemma_used_corner(
    merged: SubsetView,
    source: SubsetView,
    places: Seq<Placement>,
    order: Seq<u16>,
    corner: u16,
)
    requires
        order.contains(corner),
        corner < source.vertices.len(),
        places.len() == source.vertices.len(),
        merged.vertices.len() + order.len() <= 0x1_0000,
    ensures
        ({
            let base = merged.vertices.len() as int;
            let at = (base + order.index_of(corner)) as u16;
            (merged.vertices + order.map_values(
                |index: u16|
                    placed(
                        source.vertices[index as int],
                        places[index as int],
                    ),
            ))[at as int] == moved(source, places).vertices[corner as int]
        }),
{
    let i = order.index_of(corner);
    assert(0 <= i < order.len() && order[i] == corner);
}

/// Every corner of the triangles is in use, once, and is a vertex.
proof fn lemma_order_of_use(kept: Seq<Corners>, end: int, count: int)
    requires
        0 <= end <= kept.len(),
        forall|t: int|
            0 <= t < kept.len() ==> (#[trigger] kept[t]).0 < count && kept[t].1 < count && kept[t].2
                < count,
    ensures
        used_vertices(kept, end).no_duplicates(),
        forall|k: int|
            0 <= k < used_vertices(kept, end).len() ==> (#[trigger] used_vertices(kept, end)[k])
                < count,
        forall|t: int|
            0 <= t < end ==> used_vertices(kept, end).contains((#[trigger] kept[t]).0)
                && used_vertices(kept, end).contains(kept[t].1) && used_vertices(
                kept,
                end,
            ).contains(kept[t].2),
    decreases end,
{
    if end > 0 {
        lemma_order_of_use(kept, end - 1, count);
        let before = used_vertices(kept, end - 1);
        let tri = kept[end - 1];
        let first = noted(before, tri.0);
        let second = noted(first, tri.1);
        lemma_noted(before, tri.0, count);
        lemma_noted(first, tri.1, count);
        lemma_noted(second, tri.2, count);
        assert(used_vertices(kept, end) == noted_all(before, tri));
    }
}

proof fn lemma_noted(order: Seq<u16>, corner: u16, count: int)
    requires
        order.no_duplicates(),
        forall|k: int| 0 <= k < order.len() ==> (#[trigger] order[k]) < count,
        corner < count,
    ensures
        noted(order, corner).no_duplicates(),
        forall|k: int|
            0 <= k < noted(order, corner).len() ==> (
            #[trigger] noted(order, corner)[k]) < count,
        noted(order, corner).contains(corner),
        forall|x: u16| #[trigger]
            order.contains(x) ==> noted(order, corner).contains(x),
{
    let next = noted(order, corner);
    if !order.contains(corner) {
        assert(next[order.len() as int] == corner);
        assert forall|x: u16| #[trigger] order.contains(x) implies next.contains(x) by {
            let i = choose|i: int| 0 <= i < order.len() && order[i] == x;
            assert(next[i] == x);
        }
        assert forall|i: int, j: int|
            0 <= i < next.len() && 0 <= j < next.len() && i != j implies next[i] != next[j] by {
            if i < order.len() && j < order.len() {
                assert(order[i] != order[j]);
            } else if i < order.len() {
                assert(order.contains(order[i]));
            } else {
                assert(order.contains(order[j]));
            }
        }
    }
}

/// Triangle `t` is recorded as coming from a model with this sphere and class. Spheres are told apart
/// as numbers.
pub open spec fn recorded(
    components: Seq<MergedComponent>,
    t: int,
    center: [u32; 3],
    radius: u32,
    classification: StaticType,
) -> bool {
    exists|c: int|
        {
            &&& 0 <= c < components.len()
            &&& (#[trigger] components[c]).first_triangle <= t < components[c].first_triangle
                + components[c].triangle_count
            &&& components[c].classification == classification
            &&& line_position(components[c].radius) == line_position(radius)
            &&& forall|lane: int|
                0 <= lane < 3 ==> line_position(#[trigger] components[c].center@[lane])
                    == line_position(center@[lane])
        }
}

/// A component that is added records its triangles, and leaves those of the others as they were.
pub proof fn lemma_component_recorded(
    components: Seq<MergedComponent>,
    first_triangle: u32,
    triangle_count: u32,
    center: [u32; 3],
    radius: u32,
    classification: StaticType,
)
    requires
        first_triangle + triangle_count <= u32::MAX,
        forall|c: int|
            0 <= c < components.len() ==> (#[trigger] components[c]).first_triangle
                + components[c].triangle_count <= first_triangle,
    ensures
        ({
            let after = with_component(
                components,
                first_triangle,
                triangle_count,
                center,
                radius,
                classification,
            );
            &&& forall|t: int|
                first_triangle <= t < first_triangle + triangle_count ==> #[trigger] recorded(
                    after,
                    t,
                    center,
                    radius,
                    classification,
                )
            &&& forall|t: int, x: [u32; 3], r: u32, class: StaticType|
                recorded(components, t, x, r, class) ==> #[trigger] recorded(after, t, x, r, class)
            &&& forall|t: int, x: [u32; 3], r: u32, class: StaticType| #[trigger]
                recorded(after, t, x, r, class) && t < first_triangle ==> recorded(
                    components,
                    t,
                    x,
                    r,
                    class,
                )
            &&& forall|t: int, x: [u32; 3], r: u32, class: StaticType| #[trigger]
                recorded(after, t, x, r, class) ==> t < first_triangle + triangle_count
        }),
{
    let after = with_component(
        components,
        first_triangle,
        triangle_count,
        center,
        radius,
        classification,
    );
    let n = components.len() as int;
    let runs = triangle_count > 0 && continues_run(
        components,
        center,
        radius,
        classification,
        first_triangle,
    );
    assert forall|t: int|
        first_triangle <= t < first_triangle + triangle_count implies #[trigger] recorded(
        after,
        t,
        center,
        radius,
        classification,
    ) by {
        let c = after.len() - 1;
        assert(after[c].first_triangle <= t < after[c].first_triangle + after[c].triangle_count);
        assert forall|lane: int| 0 <= lane < 3 implies line_position(
            #[trigger] after[c].center@[lane],
        ) == line_position(center@[lane]) by {
            assert(lane == 0 || lane == 1 || lane == 2);
        }
    }
    assert forall|t: int, x: [u32; 3], r: u32, class: StaticType|
        recorded(components, t, x, r, class) implies #[trigger] recorded(after, t, x, r, class) by {
        let c = choose|c: int|
            {
                &&& 0 <= c < components.len()
                &&& (#[trigger] components[c]).first_triangle <= t < components[c].first_triangle
                    + components[c].triangle_count
                &&& components[c].classification == class
                &&& line_position(components[c].radius) == line_position(r)
                &&& forall|lane: int|
                    0 <= lane < 3 ==> line_position(#[trigger] components[c].center@[lane])
                        == line_position(x@[lane])
            };
        assert(after[c].center == components[c].center);
        assert(after[c].first_triangle <= t < after[c].first_triangle + after[c].triangle_count);
    }
    assert forall|t: int, x: [u32; 3], r: u32, class: StaticType| #[trigger]
        recorded(after, t, x, r, class) implies t < first_triangle + triangle_count && (t
        < first_triangle ==> recorded(components, t, x, r, class)) by {
        let c = choose|c: int|
            {
                &&& 0 <= c < after.len()
                &&& (#[trigger] after[c]).first_triangle <= t < after[c].first_triangle
                    + after[c].triangle_count
                &&& after[c].classification == class
                &&& line_position(after[c].radius) == line_position(r)
                &&& forall|lane: int|
                    0 <= lane < 3 ==> line_position(#[trigger] after[c].center@[lane])
                        == line_position(x@[lane])
            };
        if c < n {
            assert(after[c].center == components[c].center);
            assert(components[c].first_triangle <= t);
        }
    }
}

} // verus!
