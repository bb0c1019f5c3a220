//! Laws of merged subsets: which are kept, and in what order they stand.

use crate::model::merge::{
    lemma_first_fit, merge_order, merged_subsets, of_alpha, with_geometry, with_subset,
    with_subsets, SubsetView,
};
use crate::picks::{lemma_pick_next, picks};
use vstd::prelude::*;

verus! {

/// The subsets that take part in a merge are exactly those with vertices and triangles, in order.
pub proof fn lemma_geometry_kept(subsets: Seq<SubsetView>, end: int) -> (list: Seq<int>)
    requires
        0 <= end <= subsets.len(),
    ensures
        picks(
            list,
            end,
            |i: int| subsets[i].vertices.len() > 0 && subsets[i].triangles.len() > 0,
        ),
        with_geometry(subsets, end) == list.map_values(|i: int| subsets[i]),
    decreases end,
{
    let condition = |i: int| subsets[i].vertices.len() > 0 && subsets[i].triangles.len() > 0;
    if end <= 0 {
        assert(with_geometry(subsets, end) =~= Seq::<int>::empty().map_values(
            |i: int| subsets[i],
        ));
        Seq::empty()
    } else {
        let before = lemma_geometry_kept(subsets, end - 1);
        lemma_pick_next(before, end - 1, condition);
        let list = if condition(end - 1) {
            before.push(end - 1)
        } else {
            before
        };
        assert(with_geometry(subsets, end) =~= list.map_values(|i: int| subsets[i]));
        list
    }
}

proof fn lemma_of_alpha(subsets: Seq<SubsetView>, has_alpha: bool, end: int)
    requires
        0 <= end <= subsets.len(),
    ensures
        forall|i: int|
            0 <= i < of_alpha(subsets, has_alpha, end).len() ==> (#[trigger] of_alpha(
                subsets,
                has_alpha,
                end,
            )[i]).has_alpha == has_alpha,
        of_alpha(subsets, true, end).len() + of_alpha(subsets, false, end).len() == end,
    decreases end,
{
    if end > 0 {
        lemma_of_alpha(subsets, has_alpha, end - 1);
        lemma_of_alpha(subsets, !has_alpha, end - 1);
    }
}

/// No subset without alpha stands before one with alpha.
pub open spec fn alpha_first(list: Seq<SubsetView>) -> bool {
    forall|i: int, j: int|
        0 <= i < j < list.len() && (#[trigger] list[j]).has_alpha ==> (#[trigger] list[i]).has_alpha
}

proof fn lemma_alpha_stays_first(order: Seq<SubsetView>, split: int, end: int)
    requires
        0 <= end <= order.len(),
        forall|i: int| 0 <= i < order.len() ==> ((#[trigger] order[i]).has_alpha <==> i < split),
    ensures
        ({
            let list = with_subsets(Seq::empty(), order, end);
            &&& alpha_first(list)
            &&& end <= split ==> forall|i: int|
                0 <= i < list.len() ==> (#[trigger] list[i]).has_alpha
        }),
    decreases end,
{
    if end > 0 {
        lemma_alpha_stays_first(order, split, end - 1);
        let before = with_subsets(Seq::empty(), order, end - 1);
        let after = with_subset(before, order[end - 1]);
        lemma_first_fit(before, order[end - 1], 0);
        assert forall|i: int| 0 <= i < before.len() implies (#[trigger] after[i]).has_alpha
            == before[i].has_alpha by {}
        assert forall|i: int, j: int|
            0 <= i < j < after.len() && (#[trigger] after[j]).has_alpha implies (
        #[trigger] after[i]).has_alpha by {
            if j < before.len() {
                assert(before[j].has_alpha);
                assert(before[i].has_alpha);
            } else {
                assert(after[j] == order[end - 1]);
                assert(end - 1 < split);
                assert(before[i].has_alpha);
            }
        }
    }
}

/// Merged subsets stand with those with alpha first.
pub proof fn lemma_merged_alpha_first(subsets: Seq<SubsetView>)
    requires
        with_geometry(subsets, subsets.len() as int).len() > 1,
    ensures
        alpha_first(merged_subsets(subsets)),
{
    let kept = with_geometry(subsets, subsets.len() as int);
    let k = kept.len() as int;
    let order = merge_order(kept);
    let clear = of_alpha(kept, true, k);
    let solid = of_alpha(kept, false, k);
    lemma_of_alpha(kept, true, k);
    lemma_of_alpha(kept, false, k);
    assert(order =~= clear + solid);
    assert forall|i: int| 0 <= i < order.len() implies ((#[trigger] order[i]).has_alpha <==> i
        < clear.len()) by {
        if i < clear.len() {
            assert(order[i] == clear[i]);
        } else {
            assert(order[i] == solid[i - clear.len()]);
        }
    }
    lemma_alpha_stays_first(order, clear.len() as int, k);
}

} // verus!
