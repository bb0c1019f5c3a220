//! Laws of candidates: which references may be merged, which stay, and which groups are built.

use crate::merge::groups::{
    bags_hold, candidates_in, CellBag, Member, ReferenceFacts, StableRefKey,
};
use crate::merge::plan::{
    group_member, is_merged, selected_groups, unmerged, CellFilter, MergeGroup,
};
use crate::model::DistantStatic;
use crate::picks::{lemma_pick_next, picks};
use vstd::prelude::*;

verus! {

/// The candidates of a cell are exactly its large references that are always visible and of a known
/// static other than grass, in order.
pub proof fn lemma_candidates_picked(
    references: Seq<Member>,
    facts: Seq<ReferenceFacts>,
    statics: Map<Seq<char>, DistantStatic>,
    cell: (i32, i32),
    end: int,
) -> (list: Seq<int>)
    requires
        0 <= end,
    ensures
        picks(
            list,
            end,
            |i: int|
                facts[i].cell.0 == cell.0 && facts[i].cell.1 == cell.1 && facts[i].large
                    && references[i].reference.vis_index == 0 && statics.dom().contains(
                    references[i].reference.id@,
                ) && !(statics[references[i].reference.id@].static_type is StaticGrass),
        ),
        candidates_in(references, facts, statics, cell, end) == list.map_values(|i: int| i as usize),
    decreases end,
{
    let condition = |i: int|
        facts[i].cell.0 == cell.0 && facts[i].cell.1 == cell.1 && facts[i].large
            && references[i].reference.vis_index == 0 && statics.dom().contains(
            references[i].reference.id@,
        ) && !(statics[references[i].reference.id@].static_type is StaticGrass);
    if end <= 0 {
        assert(candidates_in(references, facts, statics, cell, end) =~= Seq::<
            int,
        >::empty().map_values(|i: int| i as usize));
        Seq::empty()
    } else {
        let before = lemma_candidates_picked(references, facts, statics, cell, end - 1);
        lemma_pick_next(before, end - 1, condition);
        let list = if condition(end - 1) {
            before.push(end - 1)
        } else {
            before
        };
        assert(candidates_in(references, facts, statics, cell, end) =~= list.map_values(
            |i: int| i as usize,
        ));
        list
    }
}

/// A reference that stands in a group has its identity in full.
pub open spec fn stands_in(groups: Seq<MergeGroup>, key: StableRefKey, g: int, m: int) -> bool {
    &&& 0 <= g < groups.len()
    &&& 0 <= m < groups[g].members@.len()
    &&& groups[g].members@[m].key.source == key.source
    &&& groups[g].members@[m].key.index == key.index
}

/// The references that stay are exactly those that stand in no group, in order.
pub proof fn lemma_unmerged_picked(
    references: Seq<Member>,
    groups: Seq<MergeGroup>,
    end: int,
) -> (list: Seq<int>)
    requires
        0 <= end,
    ensures
        picks(
            list,
            end,
            |i: int|
                forall|g: int, m: int| !#[trigger] stands_in(groups, references[i].key, g, m),
        ),
        unmerged(references, groups, end) == list.map_values(|i: int| references[i]),
    decreases end,
{
    let condition = |i: int|
        forall|g: int, m: int| !#[trigger] stands_in(groups, references[i].key, g, m);
    if end <= 0 {
        assert(unmerged(references, groups, end) =~= Seq::<int>::empty().map_values(
            |i: int| references[i],
        ));
        Seq::empty()
    } else {
        let before = lemma_unmerged_picked(references, groups, end - 1);
        lemma_pick_next(before, end - 1, condition);
        let key = references[end - 1].key;
        if is_merged(groups, key) {
            let (g, m) = choose|g: int, m: int|
                0 <= g < groups.len() && 0 <= m < groups[g].members@.len()
                    && #[trigger] group_member(groups, g, m).key == key;
            assert(stands_in(groups, key, g, m));
        }
        if !condition(end - 1) {
            let (g, m) = choose|g: int, m: int| #[trigger] stands_in(groups, key, g, m);
            assert(group_member(groups, g, m).key == key);
        }
        let list = if condition(end - 1) {
            before.push(end - 1)
        } else {
            before
        };
        assert(unmerged(references, groups, end) =~= list.map_values(|i: int| references[i]));
        list
    }
}

/// The groups to build are exactly those whose cell is listed, or all, in order.
pub proof fn lemma_groups_selected(
    groups: Seq<MergeGroup>,
    filter: CellFilter,
    end: int,
) -> (list: Seq<int>)
    requires
        0 <= end,
    ensures
        picks(
            list,
            end,
            |i: int|
                filter is All || exists|k: int|
                    0 <= k < filter->Dirty_0@.len() && (#[trigger] filter->Dirty_0@[k]).0
                        == groups[i].cell_x && filter->Dirty_0@[k].1 == groups[i].cell_y,
        ),
        selected_groups(groups, filter, end) == list.map_values(|i: int| i as usize),
    decreases end,
{
    let condition = |i: int|
        filter is All || exists|k: int|
            0 <= k < filter->Dirty_0@.len() && (#[trigger] filter->Dirty_0@[k]).0
                == groups[i].cell_x && filter->Dirty_0@[k].1 == groups[i].cell_y;
    if end <= 0 {
        assert(selected_groups(groups, filter, end) =~= Seq::<int>::empty().map_values(
            |i: int| i as usize,
        ));
        Seq::empty()
    } else {
        let before = lemma_groups_selected(groups, filter, end - 1);
        lemma_pick_next(before, end - 1, condition);
        let cell = (groups[end - 1].cell_x, groups[end - 1].cell_y);
        if filter is Dirty {
            let cells = filter->Dirty_0@;
            if cells.contains(cell) {
                let k = choose|k: int| 0 <= k < cells.len() && cells[k] == cell;
                assert(cells[k].0 == cell.0 && cells[k].1 == cell.1);
                assert(condition(end - 1));
            }
            if condition(end - 1) {
                let k = choose|k: int|
                    0 <= k < cells.len() && (#[trigger] cells[k]).0 == cell.0 && cells[k].1
                        == cell.1;
                assert(cells[k] == cell);
            }
        }
        let list = if condition(end - 1) {
            before.push(end - 1)
        } else {
            before
        };
        assert(selected_groups(groups, filter, end) =~= list.map_values(|i: int| i as usize));
        list
    }
}

/// Two candidates stand in one bag exactly where they stand in one cell.
pub proof fn lemma_bags_by_cell(
    bags: Seq<CellBag>,
    references: Seq<Member>,
    facts: Seq<ReferenceFacts>,
    statics: Map<Seq<char>, DistantStatic>,
    b: int,
    c: int,
    i: usize,
    j: usize,
)
    requires
        bags_hold(bags, references, facts, statics, references.len() as int),
        references.len() <= usize::MAX,
        0 <= b < bags.len(),
        0 <= c < bags.len(),
        bags[b].references@.contains(i),
        bags[c].references@.contains(j),
    ensures
        i < references.len(),
        facts[i as int].large,
        bags[b].cell == facts[i as int].cell,
        b == c <==> facts[i as int].cell == facts[j as int].cell,
{
    let n = references.len() as int;
    let p = lemma_candidates_picked(references, facts, statics, bags[b].cell, n);
    let q = lemma_candidates_picked(references, facts, statics, bags[c].cell, n);
    let x = choose|x: int| 0 <= x < bags[b].references@.len() && bags[b].references@[x] == i;
    assert(p.contains(p[x]));
    assert(p[x] as usize == i);
    let y = choose|y: int| 0 <= y < bags[c].references@.len() && bags[c].references@[y] == j;
    assert(q.contains(q[y]));
    assert(q[y] as usize == j);
}

} // verus!
