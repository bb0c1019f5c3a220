//! The whole optimization of a static.

use crate::atlas::apply::DistantStatics;
use crate::model::{tiles, Bound, DistantStatic, Subset, Vertex};
use crate::model::bounds::{all_bounds_updated, bounded_by_subsets, bounds_updated, joins};
use crate::model::lod::{can_optimize, is_optimized, lemma_flattened_below, same_besides_geometry};
use crate::model::merge::{
    all_tidy, all_well_kept, corners, lemma_merge_keeps_triangles, lemma_merge_well_kept,
    lemma_tidy_sound, lemma_total_bound, merged_subsets, tidy, triangle_total, views, well_kept,
    with_geometry, SubsetView,
};
use crate::model::optimize::{
    flattened, indices_below, lemma_optimize_keeps_vertices, only_reorders, optimizes,
    write_indices_to_triangles, writes_triangles, OptimizeRun,
};
use crate::model::simplify::simplifiable;
use crate::model::weld::{build_weld_keys, orientation_at, weld_key, QuantizedVertex, WeldKey};
use crate::text_map::TextMap;
use vstd::prelude::*;

verus! {

/// What is measured of a subset before its vertices are welded: each vertex on its grids, and the
/// orientation of the faces around each, for subsets with alpha.
pub struct WeldFacts {
    pub lanes: Vec<QuantizedVertex>,
    pub orientations: Vec<u32>,
}

/// `measure` gives every vertex its place on the grids.
pub open spec fn measures_subsets<M: Fn(&Subset) -> WeldFacts>(measure: M) -> bool {
    &&& forall|subset: Subset| #[trigger] call_requires(measure, (&subset,))
    &&& forall|subset: Subset, facts: WeldFacts| #[trigger]
        call_ensures(measure, (&subset,), facts) ==> facts.lanes@.len() == subset.vertices@.len()
}

/// `simplify` gives, of a tidy subset, the indices of whole triangles, no more than the subset has,
/// whose corners are vertices of the subset, and which its components still tile.
pub open spec fn simplifies_subsets<S: Fn(&Subset) -> Vec<u32>>(simplify: S) -> bool {
    &&& forall|subset: Subset|
        tidy(subset@) ==> #[trigger] call_requires(simplify, (&subset,))
    &&& forall|subset: Subset, indices: Vec<u32>|
        tidy(subset@) && #[trigger] call_ensures(simplify, (&subset,), indices) ==> {
            &&& indices@.len() % 3 == 0
            &&& indices@.len() <= 3 * subset.triangles@.len()
            &&& indices_below(indices@, subset.vertices@.len() as int)
            &&& tiles(subset.components@, indices@.len() as int / 3)
        }
}

/// The weld keys of a subset's vertices.
pub open spec fn weld_keys_of(subset: Subset, facts: WeldFacts) -> Seq<WeldKey> {
    Seq::new(
        subset.vertices@.len(),
        |i: int|
            weld_key(
                subset.vertices@[i],
                facts.lanes@[i],
                subset.has_alpha,
                orientation_at(facts.orientations@, i),
                i,
            ),
    )
}

/// The subset after optimization by the keys of these facts.
pub open spec fn optimized_by<O: Fn(Vec<u32>, &Vec<Vertex>) -> Vec<u32>>(
    overdraw: O,
    before: Subset,
    facts: WeldFacts,
    after: Subset,
) -> bool {
    &&& same_besides_geometry(after, before)
    &&& is_optimized(
        overdraw,
        before,
        weld_keys_of(before, facts),
        flattened(before.triangles@),
        after,
    )
}

/// The subset after optimization. Without geometry it is the one before.
pub open spec fn subset_optimized<
    O: Fn(Vec<u32>, &Vec<Vertex>) -> Vec<u32>,
    M: Fn(&Subset) -> WeldFacts,
>(overdraw: O, measure: M, before: Subset, after: Subset) -> bool {
    if before.vertices@.len() == 0 || before.triangles@.len() == 0 {
        after == before
    } else {
        exists|facts: WeldFacts| #[trigger]
            call_ensures(measure, (&before,), facts) && optimized_by(
                overdraw,
                before,
                facts,
                after,
            )
    }
}

/// Each subset is optimized.
pub open spec fn all_optimized<
    O: Fn(Vec<u32>, &Vec<Vertex>) -> Vec<u32>,
    M: Fn(&Subset) -> WeldFacts,
>(overdraw: O, measure: M, before: Seq<Subset>, after: Seq<Subset>) -> bool {
    &&& after.len() == before.len()
    &&& forall|i: int|
        0 <= i < after.len() ==> subset_optimized(
            overdraw,
            measure,
            #[trigger] before[i],
            after[i],
        )
}

/// The subset after simplification: its triangles are those that `simplify` leaves. With alpha, or
/// without geometry, it is the one before.
pub open spec fn subset_simplified<S: Fn(&Subset) -> Vec<u32>>(
    simplify: S,
    before: Subset,
    after: Subset,
) -> bool {
    if !simplifiable(before) || before.vertices@.len() == 0 || before.triangles@.len() == 0 {
        after == before
    } else {
        &&& same_besides_geometry(after, before)
        &&& after.vertices@ == before.vertices@
        &&& exists|indices: Vec<u32>| #[trigger]
            call_ensures(simplify, (&before,), indices) && writes_triangles(
                indices@,
                after.triangles@,
            )
    }
}

/// Each subset is simplified.
pub open spec fn all_simplified<S: Fn(&Subset) -> Vec<u32>>(
    simplify: S,
    before: Seq<Subset>,
    after: Seq<Subset>,
) -> bool {
    &&& after.len() == before.len()
    &&& forall|i: int|
        0 <= i < after.len() ==> subset_simplified(simplify, #[trigger] before[i], after[i])
}

/// The subsets of a static between the steps of its optimization.
pub struct OptimizeStages {
    pub optimized: Seq<Subset>,
    pub merged: Seq<Subset>,
    pub simplified: Seq<Subset>,
    pub merged_again: Seq<Subset>,
    pub last: Seq<Subset>,
}

/// Every step is as it should be: optimize, merge, simplify, merge, optimize, update bounds.
pub open spec fn static_optimized<
    O: Fn(Vec<u32>, &Vec<Vertex>) -> Vec<u32>,
    M: Fn(&Subset) -> WeldFacts,
    S: Fn(&Subset) -> Vec<u32>,
    J: Fn(Bound, Bound) -> Bound,
    E: Fn(&Vec<Vertex>) -> Bound,
>(
    overdraw: O,
    measure: M,
    simplify: S,
    join: J,
    enclose: E,
    before: DistantStatic,
    stages: OptimizeStages,
    after: DistantStatic,
) -> bool {
    &&& all_optimized(overdraw, measure, before.subsets@, stages.optimized)
    &&& views(stages.merged) == merged_subsets(views(stages.optimized))
    &&& all_simplified(simplify, stages.merged, stages.simplified)
    &&& views(stages.merged_again) == merged_subsets(views(stages.simplified))
    &&& all_optimized(overdraw, measure, stages.merged_again, stages.last)
    &&& all_bounds_updated(
        join,
        enclose,
        with_geometry(views(stages.last), stages.last.len() as int),
        after.subsets@,
    )
    &&& bounded_by_subsets(join, after)
    &&& after.static_type == before.static_type
    &&& after.max_scale == before.max_scale
    &&& after.is_door == before.is_door
    &&& after.horizon_footprint_eligible == before.horizon_footprint_eligible
}

// ---------------------------------------------------------------------------------------------
// What the steps keep
// ---------------------------------------------------------------------------------------------

/// A tidy subset has indices that fit its vertices.
proof fn lemma_tidy_indices(subset: Subset)
    requires
        tidy(subset@),
    ensures
        flattened(subset.triangles@).len() % 3 == 0,
        flattened(subset.triangles@).len() / 3 == subset.triangles@.len(),
        indices_below(flattened(subset.triangles@), subset.vertices@.len() as int),
{
    assert forall|t: int, c: int|
        0 <= t < subset.triangles@.len() && 0 <= c < 3 implies #[trigger] subset.triangles@[t]@[c]
        < subset.vertices@.len() by {
        let corner = corners(subset.triangles@)[t];
        assert(corner == subset@.triangles[t]);
        assert(corner.0 < subset.vertices@.len() && corner.1 < subset.vertices@.len()
            && corner.2 < subset.vertices@.len());
    }
    lemma_flattened_below(subset.triangles@, subset.vertices@.len() as int);
}

/// Optimization keeps a subset tidy, and its palette where that is kept, and its number of triangles.
pub proof fn lemma_optimized_tidy<
    O: Fn(Vec<u32>, &Vec<Vertex>) -> Vec<u32>,
    M: Fn(&Subset) -> WeldFacts,
>(overdraw: O, measure: M, before: Subset, after: Subset)
    requires
        tidy(before@),
        subset_optimized(overdraw, measure, before, after),
    ensures
        tidy(after@),
        well_kept(before@) ==> well_kept(after@),
        after@.triangles.len() == before@.triangles.len(),
{
    if before.vertices@.len() > 0 && before.triangles@.len() > 0 {
        let facts = choose|facts: WeldFacts| #[trigger]
            call_ensures(measure, (&before,), facts) && optimized_by(
                overdraw,
                before,
                facts,
                after,
            );
        let keys = weld_keys_of(before, facts);
        let indices = flattened(before.triangles@);
        let run = choose|run: OptimizeRun| #[trigger]
            optimizes(
                overdraw,
                before.vertices@,
                keys,
                indices,
                before.components@,
                run,
                after.vertices@,
                after.triangles@,
            );
        lemma_tidy_indices(before);
        lemma_optimize_keeps_vertices(
            overdraw,
            before.vertices@,
            keys,
            indices,
            before.components@,
            run,
            after.vertices@,
            after.triangles@,
        );
        assert forall|t: int| 0 <= t < after@.triangles.len() implies (
        #[trigger] after@.triangles[t]).0 < after@.vertices.len() && after@.triangles[t].1
            < after@.vertices.len() && after@.triangles[t].2 < after@.vertices.len() by {
            assert(after.triangles@[t]@[0] < after.vertices@.len());
            assert(after.triangles@[t]@[1] < after.vertices@.len());
            assert(after.triangles@[t]@[2] < after.vertices@.len());
        }
        assert forall|i: int|
            well_kept(before@) && 0 <= i < after@.vertices.len() implies after@.uv_bounds.contains(
            (#[trigger] after@.vertices[i]).uv_bound,
        ) by {
            assert(before.vertices@.contains(after.vertices@[i]));
            let k = choose|k: int|
                0 <= k < before.vertices@.len() && before.vertices@[k] == after.vertices@[i];
            assert(before@.uv_bounds.contains(before@.vertices[k].uv_bound));
        }
    }
}

/// Simplification keeps a subset tidy, and its palette where that is kept, and adds no triangle.
pub proof fn lemma_simplified_tidy<S: Fn(&Subset) -> Vec<u32>>(
    simplify: S,
    before: Subset,
    after: Subset,
)
    requires
        simplifies_subsets(simplify),
        tidy(before@),
        subset_simplified(simplify, before, after),
    ensures
        tidy(after@),
        well_kept(before@) ==> well_kept(after@),
        after@.triangles.len() <= before@.triangles.len(),
{
    if simplifiable(before) && before.vertices@.len() > 0 && before.triangles@.len() > 0 {
        let indices = choose|indices: Vec<u32>| #[trigger]
            call_ensures(simplify, (&before,), indices) && writes_triangles(
                indices@,
                after.triangles@,
            );
        assert forall|t: int| 0 <= t < after@.triangles.len() implies (
        #[trigger] after@.triangles[t]).0 < after@.vertices.len() && after@.triangles[t].1
            < after@.vertices.len() && after@.triangles[t].2 < after@.vertices.len() by {
            assert(indices@[3 * t] < before.vertices@.len());
            assert(indices@[3 * t + 1] < before.vertices@.len());
            assert(indices@[3 * t + 2] < before.vertices@.len());
            assert(after.triangles@[t]@[0] == indices@[3 * t]);
        }
    }
}

proof fn lemma_total_monotone(before: Seq<Subset>, after: Seq<Subset>)
    requires
        after.len() == before.len(),
        forall|i: int|
            0 <= i < after.len() ==> (#[trigger] after[i])@.triangles.len()
                <= before[i]@.triangles.len(),
    ensures
        triangle_total(views(after)) <= triangle_total(views(before)),
    decreases before.len(),
{
    if before.len() > 0 {
        assert(views(after).drop_last() =~= views(after.drop_last()));
        assert(views(before).drop_last() =~= views(before.drop_last()));
        assert(views(after).last() == after.last()@);
        assert(views(before).last() == before.last()@);
        assert(after[after.len() - 1]@.triangles.len() <= before[after.len()
            - 1]@.triangles.len());
        assert forall|i: int| 0 <= i < after.drop_last().len() implies (
        #[trigger] after.drop_last()[i])@.triangles.len()
            <= before.drop_last()[i]@.triangles.len() by {
            assert(after[i]@.triangles.len() <= before[i]@.triangles.len());
        }
        lemma_total_monotone(before.drop_last(), after.drop_last());
    }
}

proof fn lemma_all_optimized_tidy<
    O: Fn(Vec<u32>, &Vec<Vertex>) -> Vec<u32>,
    M: Fn(&Subset) -> WeldFacts,
>(overdraw: O, measure: M, before: Seq<Subset>, after: Seq<Subset>)
    requires
        all_tidy(views(before)),
        all_optimized(overdraw, measure, before, after),
    ensures
        all_tidy(views(after)),
        all_well_kept(views(before)) ==> all_well_kept(views(after)),
        triangle_total(views(after)) <= triangle_total(views(before)),
{
    assert forall|i: int| 0 <= i < after.len() implies tidy(#[trigger] views(after)[i])
        && (well_kept(views(before)[i]) ==> well_kept(views(after)[i]))
        && after[i]@.triangles.len() <= before[i]@.triangles.len() by {
        assert(tidy(views(before)[i]));
        assert(subset_optimized(overdraw, measure, before[i], after[i]));
        lemma_optimized_tidy(overdraw, measure, before[i], after[i]);
    }
    assert forall|i: int| 0 <= i < after.len() implies (#[trigger] after[i])@.triangles.len()
        <= before[i]@.triangles.len() by {
        assert(tidy(views(after)[i]));
    }
    if all_well_kept(views(before)) {
        assert forall|i: int| 0 <= i < after.len() implies well_kept(
            #[trigger] views(after)[i],
        ) by {
            assert(well_kept(views(before)[i]));
        }
    }
    lemma_total_monotone(before, after);
}

proof fn lemma_all_simplified_tidy<S: Fn(&Subset) -> Vec<u32>>(
    simplify: S,
    before: Seq<Subset>,
    after: Seq<Subset>,
)
    requires
        simplifies_subsets(simplify),
        all_tidy(views(before)),
        all_simplified(simplify, before, after),
    ensures
        all_tidy(views(after)),
        all_well_kept(views(before)) ==> all_well_kept(views(after)),
        triangle_total(views(after)) <= triangle_total(views(before)),
{
    assert forall|i: int| 0 <= i < after.len() implies tidy(#[trigger] views(after)[i])
        && (well_kept(views(before)[i]) ==> well_kept(views(after)[i]))
        && after[i]@.triangles.len() <= before[i]@.triangles.len() by {
        assert(tidy(views(before)[i]));
        assert(subset_simplified(simplify, before[i], after[i]));
        lemma_simplified_tidy(simplify, before[i], after[i]);
    }
    assert forall|i: int| 0 <= i < after.len() implies (#[trigger] after[i])@.triangles.len()
        <= before[i]@.triangles.len() by {
        assert(tidy(views(after)[i]));
    }
    if all_well_kept(views(before)) {
        assert forall|i: int| 0 <= i < after.len() implies well_kept(
            #[trigger] views(after)[i],
        ) by {
            assert(well_kept(views(before)[i]));
        }
    }
    lemma_total_monotone(before, after);
}

// ---------------------------------------------------------------------------------------------
// The steps
// ---------------------------------------------------------------------------------------------

/// Optimizes a subset by the keys of its vertices.
fn optimize_subset<O: Fn(Vec<u32>, &Vec<Vertex>) -> Vec<u32>, M: Fn(&Subset) -> WeldFacts>(
    overdraw: &O,
    measure: &M,
    subset: &mut Subset,
)
    requires
        only_reorders(*overdraw),
        measures_subsets(*measure),
        tidy(old(subset)@),
        3 * old(subset).triangles@.len() <= u32::MAX,
    ensures
        subset_optimized(*overdraw, *measure, *old(subset), *final(subset)),
{
    if subset.vertices.len() == 0 || subset.triangles.len() == 0 {
        return;
    }
    let facts = measure(&*subset);
    let (keys, _stats) = build_weld_keys(
        subset.vertices.as_slice(),
        facts.lanes.as_slice(),
        subset.has_alpha,
        facts.orientations.as_slice(),
    );
    proof {
        lemma_tidy_indices(*subset);
        assert(keys@ =~= weld_keys_of(*subset, facts));
        assert(can_optimize(*subset, keys@, flattened(subset.triangles@)));
    }
    subset.optimize_with(overdraw, keys.as_slice());
    assert(call_ensures(*measure, (&*old(subset),), facts) && optimized_by(
        *overdraw,
        *old(subset),
        facts,
        *subset,
    ));
}

/// Optimizes every subset.
fn optimize_subsets<O: Fn(Vec<u32>, &Vec<Vertex>) -> Vec<u32>, M: Fn(&Subset) -> WeldFacts>(
    overdraw: &O,
    measure: &M,
    subsets: &mut Vec<Subset>,
)
    requires
        only_reorders(*overdraw),
        measures_subsets(*measure),
        all_tidy(views(old(subsets)@)),
        3 * triangle_total(views(old(subsets)@)) <= u32::MAX,
    ensures
        all_optimized(*overdraw, *measure, old(subsets)@, final(subsets)@),
{
    let ghost before = subsets@;
    let count: usize = subsets.len();
    let mut i: usize = 0;
    while i < count
        invariant
            i <= count,
            count == subsets@.len(),
            before.len() == count,
            only_reorders(*overdraw),
            measures_subsets(*measure),
            all_tidy(views(before)),
            3 * triangle_total(views(before)) <= u32::MAX,
            forall|k: int|
                0 <= k < i ==> subset_optimized(
                    *overdraw,
                    *measure,
                    #[trigger] before[k],
                    subsets@[k],
                ),
            forall|k: int| i <= k < count ==> #[trigger] subsets@[k] == before[k],
        decreases count - i,
    {
        proof {
            assert(tidy(views(before)[i as int]));
            lemma_total_bound(views(before), i as int);
            assert(views(before)[i as int].triangles.len() == before[i as int].triangles@.len());
        }
        let subset: &mut Subset = &mut subsets[i];
        optimize_subset(overdraw, measure, subset);
        i = i + 1;
    }
}

impl Subset {
    /// Replaces the triangles by those that `simplify` leaves. Alpha-tested subsets skip this, since
    /// their silhouette is in the texture's alpha.
    pub fn simplify_with<S: Fn(&Subset) -> Vec<u32>>(&mut self, simplify: &S)
        requires
            simplifies_subsets(*simplify),
            tidy(old(self)@),
        ensures
            subset_simplified(*simplify, *old(self), *final(self)),
    {
        if !self.allows_simplification() || self.vertices.len() == 0 || self.triangles.len() == 0 {
            return;
        }
        let indices: Vec<u32> = simplify(&*self);
        proof {
            assert(indices_below(indices@, self.vertices@.len() as int));
            assert forall|p: int| 0 <= p < indices@.len() implies #[trigger] indices@[p]
                < 0x1_0000 by {
                assert(indices@[p] < self.vertices@.len());
            }
        }
        self.triangles = write_indices_to_triangles(indices.as_slice());
        assert(call_ensures(*simplify, (&*old(self),), indices) && writes_triangles(
            indices@,
            self.triangles@,
        ));
    }
}

/// Simplifies every subset.
fn simplify_subsets<S: Fn(&Subset) -> Vec<u32>>(simplify: &S, subsets: &mut Vec<Subset>)
    requires
        simplifies_subsets(*simplify),
        all_tidy(views(old(subsets)@)),
    ensures
        all_simplified(*simplify, old(subsets)@, final(subsets)@),
{
    let ghost before = subsets@;
    let count: usize = subsets.len();
    let mut i: usize = 0;
    while i < count
        invariant
            i <= count,
            count == subsets@.len(),
            before.len() == count,
            simplifies_subsets(*simplify),
            all_tidy(views(before)),
            forall|k: int|
                0 <= k < i ==> subset_simplified(*simplify, #[trigger] before[k], subsets@[k]),
            forall|k: int| i <= k < count ==> #[trigger] subsets@[k] == before[k],
        decreases count - i,
    {
        assert(tidy(views(before)[i as int]));
        let subset: &mut Subset = &mut subsets[i];
        subset.simplify_with(simplify);
        i = i + 1;
    }
}

/// The static can be optimized: its subsets are tidy and the corners of their triangles can be
/// counted.
pub open spec fn can_optimize_static(distant_static: DistantStatic) -> bool {
    &&& all_tidy(views(distant_static.subsets@))
    &&& 3 * triangle_total(views(distant_static.subsets@)) <= u32::MAX
}

/// The static is the one before, optimized.
pub open spec fn is_optimized_static<
    O: Fn(Vec<u32>, &Vec<Vertex>) -> Vec<u32>,
    M: Fn(&Subset) -> WeldFacts,
    S: Fn(&Subset) -> Vec<u32>,
    J: Fn(Bound, Bound) -> Bound,
    E: Fn(&Vec<Vertex>) -> Bound,
>(
    overdraw: O,
    measure: M,
    simplify: S,
    join: J,
    enclose: E,
    before: DistantStatic,
    after: DistantStatic,
) -> bool {
    exists|stages: OptimizeStages| #[trigger]
        static_optimized(overdraw, measure, simplify, join, enclose, before, stages, after)
}

/// Optimizes a static: its subsets are optimized, merged, simplified where that is allowed, merged
/// and optimized again, and then the bounds are computed. The order matters.
pub fn optimize_static<
    O: Fn(Vec<u32>, &Vec<Vertex>) -> Vec<u32>,
    M: Fn(&Subset) -> WeldFacts,
    S: Fn(&Subset) -> Vec<u32>,
    J: Fn(Bound, Bound) -> Bound,
    E: Fn(&Vec<Vertex>) -> Bound,
>(
    overdraw: &O,
    measure: &M,
    simplify: &S,
    join: &J,
    enclose: &E,
    distant_static: &mut DistantStatic,
)
    requires
        only_reorders(*overdraw),
        measures_subsets(*measure),
        simplifies_subsets(*simplify),
        joins(*join),
        forall|v: Vec<Vertex>| #[trigger] call_requires(*enclose, (&v,)),
        can_optimize_static(*old(distant_static)),
    ensures
        is_optimized_static(
            *overdraw,
            *measure,
            *simplify,
            *join,
            *enclose,
            *old(distant_static),
            *final(distant_static),
        ),
{
    let ghost before = distant_static.subsets@;
    optimize_subsets(overdraw, measure, &mut distant_static.subsets);
    let ghost optimized = distant_static.subsets@;
    proof {
        lemma_all_optimized_tidy(*overdraw, *measure, before, optimized);
        lemma_tidy_sound(views(optimized));
        lemma_merge_keeps_triangles(views(optimized));
    }
    distant_static.merge_subsets();
    let ghost merged = distant_static.subsets@;
    simplify_subsets(simplify, &mut distant_static.subsets);
    let ghost simplified = distant_static.subsets@;
    proof {
        lemma_all_simplified_tidy(*simplify, merged, simplified);
        lemma_tidy_sound(views(simplified));
        lemma_merge_keeps_triangles(views(simplified));
    }
    distant_static.merge_subsets();
    let ghost merged_again = distant_static.subsets@;
    optimize_subsets(overdraw, measure, &mut distant_static.subsets);
    let ghost last = distant_static.subsets@;
    distant_static.update_bounds(join, enclose);
    proof {
        let stages = OptimizeStages { optimized, merged, simplified, merged_again, last };
        assert(static_optimized(
            *overdraw,
            *measure,
            *simplify,
            *join,
            *enclose,
            *old(distant_static),
            stages,
            *distant_static,
        ));
    }
}

/// Optimization leaves a static's subsets tidy, and their palettes where those are kept, each
/// subset with geometry, and adds no triangle.
pub proof fn lemma_optimized_static_tidy<
    O: Fn(Vec<u32>, &Vec<Vertex>) -> Vec<u32>,
    M: Fn(&Subset) -> WeldFacts,
    S: Fn(&Subset) -> Vec<u32>,
    J: Fn(Bound, Bound) -> Bound,
    E: Fn(&Vec<Vertex>) -> Bound,
>(
    overdraw: O,
    measure: M,
    simplify: S,
    join: J,
    enclose: E,
    before: DistantStatic,
    after: DistantStatic,
)
    requires
        simplifies_subsets(simplify),
        can_optimize_static(before),
        is_optimized_static(overdraw, measure, simplify, join, enclose, before, after),
    ensures
        can_optimize_static(after),
        all_well_kept(views(before.subsets@)) ==> all_well_kept(views(after.subsets@)),
        triangle_total(views(after.subsets@)) <= triangle_total(views(before.subsets@)),
        forall|i: int|
            0 <= i < after.subsets@.len() ==> (#[trigger] after.subsets@[i]).vertices@.len() > 0
                && after.subsets@[i].triangles@.len() > 0,
{
    let stages = choose|stages: OptimizeStages| #[trigger]
        static_optimized(overdraw, measure, simplify, join, enclose, before, stages, after);
    lemma_all_optimized_tidy(overdraw, measure, before.subsets@, stages.optimized);
    lemma_merge_keeps_triangles(views(stages.optimized));
    lemma_all_simplified_tidy(simplify, stages.merged, stages.simplified);
    lemma_merge_keeps_triangles(views(stages.simplified));
    lemma_all_optimized_tidy(overdraw, measure, stages.merged_again, stages.last);
    if all_well_kept(views(before.subsets@)) {
        lemma_merge_well_kept(views(stages.optimized));
        lemma_merge_well_kept(views(stages.simplified));
    }
    let kept = with_geometry(views(stages.last), stages.last.len() as int);
    lemma_kept_subsets(views(stages.last), stages.last.len() as int);
    assert(views(stages.last).take(stages.last.len() as int) =~= views(stages.last));
    let whole = views(after.subsets@);
    assert forall|i: int| 0 <= i < whole.len() implies tidy(#[trigger] whole[i])
        && (well_kept(kept[i]) ==> well_kept(whole[i]))
        && whole[i].triangles == kept[i].triangles && whole[i].vertices == kept[i].vertices by {
        assert(bounds_updated(join, enclose, kept[i], after.subsets@[i]));
        assert(tidy(kept[i]));
    }
    if all_well_kept(views(before.subsets@)) {
        assert forall|i: int| 0 <= i < whole.len() implies well_kept(#[trigger] whole[i]) by {
            assert(well_kept(kept[i]));
        }
    }
    lemma_same_total(kept, whole);
    assert forall|i: int| 0 <= i < after.subsets@.len() implies (
    #[trigger] after.subsets@[i]).vertices@.len() > 0 && after.subsets@[i].triangles@.len() > 0 by {
        assert(whole[i] == after.subsets@[i]@);
        assert(kept[i].vertices.len() > 0 && kept[i].triangles.len() > 0);
    }
}

/// What is kept has geometry, stays tidy, and has no more triangles than all.
proof fn lemma_kept_subsets(subsets: Seq<SubsetView>, end: int)
    requires
        0 <= end <= subsets.len(),
        all_tidy(subsets),
    ensures
        all_tidy(with_geometry(subsets, end)),
        all_well_kept(subsets) ==> all_well_kept(with_geometry(subsets, end)),
        triangle_total(with_geometry(subsets, end)) <= triangle_total(subsets.take(end)),
        forall|i: int|
            0 <= i < with_geometry(subsets, end).len() ==> (
            #[trigger] with_geometry(subsets, end)[i]).vertices.len() > 0 && with_geometry(
                subsets,
                end,
            )[i].triangles.len() > 0,
    decreases end,
{
    if end > 0 {
        lemma_kept_subsets(subsets, end - 1);
        let few = with_geometry(subsets, end - 1);
        let next = subsets[end - 1];
        assert(few.push(next).drop_last() =~= few);
        assert(subsets.take(end).drop_last() =~= subsets.take(end - 1));
        assert(subsets.take(end).last() == next);
    }
}

proof fn lemma_same_total(a: Seq<SubsetView>, b: Seq<SubsetView>)
    requires
        a.len() == b.len(),
        forall|i: int| 0 <= i < b.len() ==> (#[trigger] b[i]).triangles == a[i].triangles,
    ensures
        triangle_total(a) == triangle_total(b),
    decreases a.len(),
{
    if a.len() > 0 {
        assert(b[b.len() - 1].triangles == a[a.len() - 1].triangles);
        assert forall|i: int| 0 <= i < b.drop_last().len() implies (
        #[trigger] b.drop_last()[i]).triangles == a.drop_last()[i].triangles by {
            assert(b[i].triangles == a[i].triangles);
        }
        lemma_same_total(a.drop_last(), b.drop_last());
    }
}

// ---------------------------------------------------------------------------------------------
// All statics
// ---------------------------------------------------------------------------------------------

/// The named statics are optimized; the others, and all names, are as before.
pub open spec fn named_optimized<
    O: Fn(Vec<u32>, &Vec<Vertex>) -> Vec<u32>,
    M: Fn(&Subset) -> WeldFacts,
    S: Fn(&Subset) -> Vec<u32>,
    J: Fn(Bound, Bound) -> Bound,
    E: Fn(&Vec<Vertex>) -> Bound,
>(
    overdraw: O,
    measure: M,
    simplify: S,
    join: J,
    enclose: E,
    chosen: spec_fn(Seq<char>) -> bool,
    before: (String, DistantStatic),
    after: (String, DistantStatic),
) -> bool {
    &&& after.0 == before.0
    &&& if chosen(before.0@) {
        is_optimized_static(overdraw, measure, simplify, join, enclose, before.1, after.1)
    } else {
        after.1 == before.1
    }
}

/// Optimizes the statics that are named in `keys`, and no others.
pub fn optimize_statics_keys<
    O: Fn(Vec<u32>, &Vec<Vertex>) -> Vec<u32>,
    M: Fn(&Subset) -> WeldFacts,
    S: Fn(&Subset) -> Vec<u32>,
    J: Fn(Bound, Bound) -> Bound,
    E: Fn(&Vec<Vertex>) -> Bound,
>(
    overdraw: &O,
    measure: &M,
    simplify: &S,
    join: &J,
    enclose: &E,
    distant_statics: &mut DistantStatics,
    keys: &TextMap<()>,
)
    requires
        only_reorders(*overdraw),
        measures_subsets(*measure),
        simplifies_subsets(*simplify),
        joins(*join),
        forall|v: Vec<Vertex>| #[trigger] call_requires(*enclose, (&v,)),
        keys.wf(),
        forall|i: int|
            0 <= i < old(distant_statics)@.len() && keys@.dom().contains(
                (#[trigger] old(distant_statics)@[i]).0@,
            ) ==> can_optimize_static(old(distant_statics)@[i].1),
    ensures
        final(distant_statics)@.len() == old(distant_statics)@.len(),
        forall|i: int|
            0 <= i < final(distant_statics)@.len() ==> named_optimized(
                *overdraw,
                *measure,
                *simplify,
                *join,
                *enclose,
                |key: Seq<char>| keys@.dom().contains(key),
                #[trigger] old(distant_statics)@[i],
                final(distant_statics)@[i],
            ),
{
    let ghost before = distant_statics@;
    let ghost chosen = |key: Seq<char>| keys@.dom().contains(key);
    let count: usize = distant_statics.len();
    let mut i: usize = 0;
    while i < count
        invariant
            i <= count,
            count == distant_statics@.len(),
            before.len() == count,
            only_reorders(*overdraw),
            measures_subsets(*measure),
            simplifies_subsets(*simplify),
            joins(*join),
            forall|v: Vec<Vertex>| #[trigger] call_requires(*enclose, (&v,)),
            keys.wf(),
            chosen == (|key: Seq<char>| keys@.dom().contains(key)),
            forall|k: int|
                0 <= k < count && keys@.dom().contains((#[trigger] before[k]).0@)
                    ==> can_optimize_static(before[k].1),
            forall|k: int|
                0 <= k < i ==> named_optimized(
                    *overdraw,
                    *measure,
                    *simplify,
                    *join,
                    *enclose,
                    chosen,
                    #[trigger] before[k],
                    distant_statics@[k],
                ),
            forall|k: int| i <= k < count ==> #[trigger] distant_statics@[k] == before[k],
        decreases count - i,
    {
        assert(distant_statics@[i as int] == before[i as int]);
        if keys.contains_key(distant_statics[i].0.as_str()) {
            let entry: &mut (String, DistantStatic) = &mut distant_statics[i];
            optimize_static(overdraw, measure, simplify, join, enclose, &mut entry.1);
        }
        i = i + 1;
    }
}

/// Optimizes every static.
pub fn optimize_statics<
    O: Fn(Vec<u32>, &Vec<Vertex>) -> Vec<u32>,
    M: Fn(&Subset) -> WeldFacts,
    S: Fn(&Subset) -> Vec<u32>,
    J: Fn(Bound, Bound) -> Bound,
    E: Fn(&Vec<Vertex>) -> Bound,
>(
    overdraw: &O,
    measure: &M,
    simplify: &S,
    join: &J,
    enclose: &E,
    distant_statics: &mut DistantStatics,
)
    requires
        only_reorders(*overdraw),
        measures_subsets(*measure),
        simplifies_subsets(*simplify),
        joins(*join),
        forall|v: Vec<Vertex>| #[trigger] call_requires(*enclose, (&v,)),
        forall|i: int|
            0 <= i < old(distant_statics)@.len() ==> can_optimize_static(
                (#[trigger] old(distant_statics)@[i]).1,
            ),
    ensures
        final(distant_statics)@.len() == old(distant_statics)@.len(),
        forall|i: int|
            0 <= i < final(distant_statics)@.len() ==> named_optimized(
                *overdraw,
                *measure,
                *simplify,
                *join,
                *enclose,
                |key: Seq<char>| true,
                #[trigger] old(distant_statics)@[i],
                final(distant_statics)@[i],
            ),
{
    let ghost before = distant_statics@;
    let ghost chosen = |key: Seq<char>| true;
    let count: usize = distant_statics.len();
    let mut i: usize = 0;
    while i < count
        invariant
            i <= count,
            count == distant_statics@.len(),
            before.len() == count,
            only_reorders(*overdraw),
            measures_subsets(*measure),
            simplifies_subsets(*simplify),
            joins(*join),
            forall|v: Vec<Vertex>| #[trigger] call_requires(*enclose, (&v,)),
            chosen == (|key: Seq<char>| true),
            forall|k: int| 0 <= k < count ==> can_optimize_static((#[trigger] before[k]).1),
            forall|k: int|
                0 <= k < i ==> named_optimized(
                    *overdraw,
                    *measure,
                    *simplify,
                    *join,
                    *enclose,
                    chosen,
                    #[trigger] before[k],
                    distant_statics@[k],
                ),
            forall|k: int| i <= k < count ==> #[trigger] distant_statics@[k] == before[k],
        decreases count - i,
    {
        assert(distant_statics@[i as int] == before[i as int]);
        let entry: &mut (String, DistantStatic) = &mut distant_statics[i];
        optimize_static(overdraw, measure, simplify, join, enclose, &mut entry.1);
        i = i + 1;
    }
}

} // verus!
