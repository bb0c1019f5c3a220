//! Merge groups and their effect on the references.

use crate::id_index::{id_entries, id_index_get, id_index_insert, new_id_index, IdIndex};
use crate::merge::groups::{CellBag, DistantReference, Member, StableRefKey};
use crate::record_key::{merged_key, render_merged, StaticRecordKey};
use crate::sort::{ranked, sort_ranked};
use vstd::prelude::*;

verus! {

/// A spatial hierarchy over the candidates of one cell.
#[derive(Debug)]
pub enum GroupTree {
    /// Candidates that are not told apart any further.
    Leaf { members: Vec<usize> },
    /// Two parts; `near` where their common horizontal extent is within the group radius.
    Split { near: bool, left: Box<GroupTree>, right: Box<GroupTree> },
}

/// All candidates below a node, in order.
pub open spec fn members_of(tree: GroupTree) -> Seq<usize>
    decreases tree,
{
    match tree {
        GroupTree::Leaf { members } => members@,
        GroupTree::Split { near, left, right } => members_of(*left) + members_of(*right),
    }
}

/// The groups that a hierarchy falls into: the largest parts within the group radius.
pub open spec fn groups_of(tree: GroupTree) -> Seq<Seq<usize>>
    decreases tree,
{
    match tree {
        GroupTree::Leaf { members } => one_group(members@),
        GroupTree::Split { near, left, right } => if near {
            one_group(members_of(tree))
        } else {
            groups_of(*left) + groups_of(*right)
        },
    }
}

/// One group, unless it is empty.
pub open spec fn one_group(members: Seq<usize>) -> Seq<Seq<usize>> {
    if members.len() == 0 {
        Seq::empty()
    } else {
        seq![members]
    }
}

/// All groups one after another.
pub open spec fn joined_groups(groups: Seq<Seq<usize>>) -> Seq<usize>
    decreases groups.len(),
{
    if groups.len() == 0 {
        Seq::empty()
    } else {
        joined_groups(groups.drop_last()) + groups.last()
    }
}

proof fn lemma_joined_concat(a: Seq<Seq<usize>>, b: Seq<Seq<usize>>)
    ensures
        joined_groups(a + b) == joined_groups(a) + joined_groups(b),
    decreases b.len(),
{
    if b.len() == 0 {
        assert(a + b =~= a);
        assert(joined_groups(a) + joined_groups(b) =~= joined_groups(a));
    } else {
        assert((a + b).drop_last() =~= a + b.drop_last());
        lemma_joined_concat(a, b.drop_last());
        assert(joined_groups(a + b) =~= joined_groups(a) + joined_groups(b));
    }
}

/// Grouping neither loses, repeats, nor reorders a candidate.
pub proof fn lemma_groups_partition_members(tree: GroupTree)
    ensures
        joined_groups(groups_of(tree)) == members_of(tree),
    decreases tree,
{
    match tree {
        GroupTree::Leaf { members } => {
            lemma_one_group(members@);
        },
        GroupTree::Split { near, left, right } => {
            if near {
                lemma_one_group(members_of(tree));
            } else {
                lemma_groups_partition_members(*left);
                lemma_groups_partition_members(*right);
                lemma_joined_concat(groups_of(*left), groups_of(*right));
            }
        },
    }
}

proof fn lemma_one_group(members: Seq<usize>)
    ensures
        joined_groups(one_group(members)) == members,
{
    if members.len() > 0 {
        let groups = seq![members];
        assert(groups.drop_last() =~= Seq::<Seq<usize>>::empty());
        assert(joined_groups(groups.drop_last()) =~= Seq::<usize>::empty());
        assert(joined_groups(groups) =~= members);
    } else {
        assert(joined_groups(one_group(members)) =~= members);
    }
}

/// The lists as plain values.
pub open spec fn list_views(lists: Seq<Vec<usize>>) -> Seq<Seq<usize>> {
    lists.map_values(|list: Vec<usize>| list@)
}

/// Appends all candidates below a node.
fn collect_indices(tree: &GroupTree, indices: &mut Vec<usize>)
    ensures
        final(indices)@ == old(indices)@ + members_of(*tree),
    decreases *tree,
{
    match tree {
        GroupTree::Leaf { members } => {
            crate::list::push_copies(indices, members.as_slice());
        },
        GroupTree::Split { near: _, left, right } => {
            collect_indices(left, indices);
            collect_indices(right, indices);
            assert(indices@ =~= old(indices)@ + members_of(*tree));
        },
    }
}

/// Partitions a hierarchy into spatially bounded groups.
///
/// Where a node is within the group radius, or is a leaf, all candidates under it form one group.
/// Otherwise both parts are examined.
pub fn collect_merge_groups(tree: &GroupTree, groups: &mut Vec<Vec<usize>>)
    ensures
        list_views(final(groups)@) == list_views(old(groups)@) + groups_of(*tree),
    decreases *tree,
{
    let whole = match tree {
        GroupTree::Leaf { .. } => true,
        GroupTree::Split { near, .. } => *near,
    };
    if whole {
        let mut group: Vec<usize> = Vec::new();
        collect_indices(tree, &mut group);
        assert(group@ =~= members_of(*tree));
        let ghost before = groups@;
        if group.len() > 0 {
            groups.push(group);
        }
        assert(list_views(groups@) =~= list_views(before) + groups_of(*tree));
    } else {
        match tree {
            GroupTree::Leaf { .. } => {},
            GroupTree::Split { near: _, left, right } => {
                collect_merge_groups(left, groups);
                collect_merge_groups(right, groups);
                assert(list_views(groups@) =~= list_views(old(groups)@) + groups_of(*tree));
            },
        }
    }
}

/// One planned merge group: references of one exterior cell that become one synthetic static.
#[derive(Debug)]
pub struct MergeGroup {
    pub cell_x: i32,
    pub cell_y: i32,
    pub group_idx: u32,
    /// Members by ascending identity.
    pub members: Vec<Member>,
}

/// Complete merge grouping in `(cell_x, cell_y, group_idx)` order.
pub struct MergePlan {
    pub groups: Vec<MergeGroup>,
}

/// The groups of several members among the first `end`, in order.
pub open spec fn several(groups: Seq<Seq<usize>>, end: int) -> Seq<Seq<usize>>
    decreases end,
{
    if end <= 0 {
        Seq::empty()
    } else if groups[end - 1].len() > 1 {
        several(groups, end - 1).push(groups[end - 1])
    } else {
        several(groups, end - 1)
    }
}

/// The groups of a cell: those of several members.
pub open spec fn cell_groups(tree: GroupTree) -> Seq<Seq<usize>> {
    several(groups_of(tree), groups_of(tree).len() as int)
}

/// The references that a group picks, through its cell's bag.
pub open spec fn picked(
    references: Seq<Member>,
    bag: Seq<usize>,
    group: Seq<usize>,
) -> Seq<Member> {
    group.map_values(|position: usize| references[bag[position as int] as int])
}

/// The group is number `index` of its cell, and its members are those picked, sorted by identity.
pub open spec fn is_merge_group(
    group: MergeGroup,
    references: Seq<Member>,
    bag: CellBag,
    positions: Seq<usize>,
    index: int,
) -> bool {
    &&& group.cell_x == bag.cell.0
    &&& group.cell_y == bag.cell.1
    &&& group.group_idx == index
    &&& ranked(group.members@)
    &&& group.members@.to_multiset() == picked(
        references,
        bag.references@,
        positions,
    ).to_multiset()
}

/// How many groups the first `end` cells have.
pub open spec fn groups_before(trees: Seq<GroupTree>, end: int) -> nat
    decreases end,
{
    if end <= 0 {
        0
    } else {
        groups_before(trees, end - 1) + cell_groups(trees[end - 1]).len()
    }
}

/// The planned groups are those of the first `end` cells, cell by cell.
pub open spec fn plans_cells(
    groups: Seq<MergeGroup>,
    references: Seq<Member>,
    bags: Seq<CellBag>,
    trees: Seq<GroupTree>,
    end: int,
) -> bool {
    &&& groups.len() == groups_before(trees, end)
    &&& forall|c: int, g: int|
        0 <= c < end && 0 <= g < cell_groups(trees[c]).len() ==> #[trigger] is_merge_group(
            groups[groups_before(trees, c) + g],
            references,
            bags[c],
            cell_groups(trees[c])[g],
            g,
        )
}

/// The hierarchy is over the bag's candidates, and the bag over the references.
pub open spec fn tree_over(tree: GroupTree, bag: CellBag, references: Seq<Member>) -> bool {
    &&& forall|m: int|
        0 <= m < members_of(tree).len() ==> (#[trigger] members_of(tree)[m])
            < bag.references@.len()
    &&& forall|b: int|
        0 <= b < bag.references@.len() ==> (#[trigger] bag.references@[b]) < references.len()
}

/// The members of a group are candidates below the node.
pub proof fn lemma_group_members(tree: GroupTree, g: int)
    requires
        0 <= g < groups_of(tree).len(),
    ensures
        forall|m: int|
            0 <= m < groups_of(tree)[g].len() ==> members_of(tree).contains(
                #[trigger] groups_of(tree)[g][m],
            ),
    decreases tree,
{
    let group = groups_of(tree)[g];
    assert forall|m: int| 0 <= m < group.len() implies members_of(tree).contains(
        #[trigger] group[m],
    ) by {
        match tree {
            GroupTree::Leaf { members } => {
                assert(members_of(tree)[m] == group[m]);
            },
            GroupTree::Split { near, left, right } => {
                if near {
                    assert(members_of(tree)[m] == group[m]);
                } else {
                    let l = groups_of(*left);
                    if g < l.len() {
                        lemma_group_members(*left, g);
                        assert(group == l[g]);
                        let list = members_of(*left);
                        assert(list.contains(l[g][m]));
                        let k = choose|k: int| 0 <= k < list.len() && list[k] == group[m];
                        assert(members_of(tree)[k] == group[m]);
                    } else {
                        let h = g - l.len();
                        lemma_group_members(*right, h);
                        assert(group == groups_of(*right)[h]);
                        let list = members_of(*right);
                        assert(list.contains(groups_of(*right)[h][m]));
                        let k = choose|k: int| 0 <= k < list.len() && list[k] == group[m];
                        assert(members_of(tree)[members_of(*left).len() + k] == group[m]);
                    }
                }
            },
        }
    }
}

/// The members of one group, sorted by identity.
fn gather_members(references: &[Member], bag: &CellBag, positions: &Vec<usize>) -> (r: Vec<Member>)
    requires
        forall|m: int|
            0 <= m < positions@.len() ==> (#[trigger] positions@[m]) < bag.references@.len(),
        forall|b: int|
            0 <= b < bag.references@.len() ==> (#[trigger] bag.references@[b]) < references@.len(),
    ensures
        ranked(r@),
        r@.to_multiset() == picked(references@, bag.references@, positions@).to_multiset(),
{
    let mut members: Vec<Member> = Vec::new();
    let mut m: usize = 0;
    let ghost all = picked(references@, bag.references@, positions@);
    while m < positions.len()
        invariant
            m <= positions@.len(),
            all == picked(references@, bag.references@, positions@),
            members@ == all.take(m as int),
            forall|k: int|
                0 <= k < positions@.len() ==> (#[trigger] positions@[k]) < bag.references@.len(),
            forall|b: int|
                0 <= b < bag.references@.len() ==> (#[trigger] bag.references@[b])
                    < references@.len(),
        decreases positions@.len() - m,
    {
        let position: usize = positions[m];
        assert(bag.references@[position as int] < references@.len());
        let reference: usize = bag.references[position];
        members.push(references[reference].clone());
        m = m + 1;
        assert(members@ =~= all.take(m as int));
    }
    assert(all.take(m as int) =~= all);
    sort_ranked(members)
}

/// Plans the groups of one cell.
fn plan_cell(
    references: &[Member],
    bag: &CellBag,
    tree: &GroupTree,
    plan: &mut Vec<MergeGroup>,
)
    requires
        tree_over(*tree, *bag, references@),
        groups_of(*tree).len() <= u32::MAX,
    ensures
        final(plan)@.len() == old(plan)@.len() + cell_groups(*tree).len(),
        forall|k: int| 0 <= k < old(plan)@.len() ==> #[trigger] final(plan)@[k] == old(plan)@[k],
        forall|g: int|
            0 <= g < cell_groups(*tree).len() ==> #[trigger] is_merge_group(
                final(plan)@[old(plan)@.len() + g],
                references@,
                *bag,
                cell_groups(*tree)[g],
                g,
            ),
{
    let mut groups: Vec<Vec<usize>> = Vec::new();
    collect_merge_groups(tree, &mut groups);
    let ghost all = groups_of(*tree);
    assert(list_views(groups@) =~= all);
    let ghost start = plan@;
    let mut index: u32 = 0;
    let mut i: usize = 0;
    while i < groups.len()
        invariant
            i <= groups@.len(),
            list_views(groups@) == all,
            all == groups_of(*tree),
            all.len() <= u32::MAX,
            start == old(plan)@,
            tree_over(*tree, *bag, references@),
            index <= i,
            index == several(all, i as int).len(),
            plan@.len() == start.len() + index,
            forall|k: int| 0 <= k < start.len() ==> #[trigger] plan@[k] == start[k],
            forall|g: int|
                0 <= g < index ==> #[trigger] is_merge_group(
                    plan@[start.len() + g],
                    references@,
                    *bag,
                    several(all, i as int)[g],
                    g,
                ),
        decreases groups@.len() - i,
    {
        let group = &groups[i];
        let ghost before = plan@;
        let ghost listed = several(all, i as int);
        assert(list_views(groups@)[i as int] == group@);
        proof {
            lemma_group_members(*tree, i as int);
            assert forall|m: int| 0 <= m < group@.len() implies (#[trigger] group@[m])
                < bag.references@.len() by {
                assert(members_of(*tree).contains(all[i as int][m]));
                let list = members_of(*tree);
                let k = choose|k: int| 0 <= k < list.len() && list[k] == group@[m];
                assert(list[k] < bag.references@.len());
            }
        }
        if group.len() > 1 {
            let members = gather_members(references, bag, group);
            plan.push(
                MergeGroup {
                    cell_x: bag.cell.0,
                    cell_y: bag.cell.1,
                    group_idx: index,
                    members,
                },
            );
            index = index + 1;
            proof {
                let now = several(all, i + 1);
                assert(now == listed.push(all[i as int]));
                assert forall|g: int| 0 <= g < index implies #[trigger] is_merge_group(
                    plan@[start.len() + g],
                    references@,
                    *bag,
                    now[g],
                    g,
                ) by {
                    if g < index - 1 {
                        assert(plan@[start.len() + g] == before[start.len() + g]);
                        assert(is_merge_group(
                            before[start.len() + g],
                            references@,
                            *bag,
                            listed[g],
                            g,
                        ));
                    }
                }
            }
        }
        i = i + 1;
    }
}

/// Groups nearby exterior references into synthetic cell-local merge candidates.
///
/// `trees` holds a spatial hierarchy over each bag's candidates. No mesh simplification happens
/// here.
pub fn plan_exterior_merge_groups(
    references: &[Member],
    bags: &[CellBag],
    trees: &[GroupTree],
) -> (r: MergePlan)
    requires
        bags@.len() == trees@.len(),
        forall|c: int|
            0 <= c < trees@.len() ==> tree_over(#[trigger] trees@[c], bags@[c], references@)
                && groups_of(trees@[c]).len() <= u32::MAX,
    ensures
        plans_cells(r.groups@, references@, bags@, trees@, trees@.len() as int),
{
    let mut groups: Vec<MergeGroup> = Vec::new();
    let mut c: usize = 0;
    while c < trees.len()
        invariant
            c <= trees@.len() == bags@.len(),
            forall|k: int|
                0 <= k < trees@.len() ==> tree_over(#[trigger] trees@[k], bags@[k], references@)
                    && groups_of(trees@[k]).len() <= u32::MAX,
            plans_cells(groups@, references@, bags@, trees@, c as int),
        decreases trees@.len() - c,
    {
        let ghost before = groups@;
        plan_cell(references, &bags[c], &trees[c], &mut groups);
        proof {
            assert(before.len() == groups_before(trees@, c as int));
            assert forall|k: int, g: int| 0 <= k < c + 1 && 0 <= g < cell_groups(
                trees@[k],
            ).len() implies #[trigger] is_merge_group(
                groups@[groups_before(trees@, k) + g],
                references@,
                bags@[k],
                cell_groups(trees@[k])[g],
                g,
            ) by {
                if k < c {
                    lemma_groups_before(trees@, k + 1, c as int);
                    assert(is_merge_group(
                        before[groups_before(trees@, k) + g],
                        references@,
                        bags@[k],
                        cell_groups(trees@[k])[g],
                        g,
                    ));
                }
            }
        }
        c = c + 1;
    }
    MergePlan { groups }
}

/// Later cells come after more groups.
pub proof fn lemma_groups_before(trees: Seq<GroupTree>, i: int, j: int)
    requires
        0 <= i <= j,
    ensures
        groups_before(trees, i) <= groups_before(trees, j),
    decreases j,
{
    if i < j {
        lemma_groups_before(trees, i, j - 1);
    }
}

// ---------------------------------------------------------------------------------------------
// Reading a plan
// ---------------------------------------------------------------------------------------------

/// The synthetic record key of a group.
pub open spec fn synthetic_id(group: MergeGroup) -> Seq<char> {
    merged_key(group.cell_x as int, group.cell_y as int, group.group_idx as nat)
}

impl MergeGroup {
    /// Renders the synthetic static id for this group.
    pub fn synthetic_id(&self) -> (r: String)
        ensures
            r@ == synthetic_id(*self),
    {
        render_merged(self.cell_x, self.cell_y, self.group_idx)
    }

    /// The exterior cell of the group.
    pub fn cell(&self) -> (r: (i32, i32))
        ensures
            r == (self.cell_x, self.cell_y),
    {
        (self.cell_x, self.cell_y)
    }
}

/// The ids of the members of the first `end` groups, in order.
pub open spec fn ids_before(groups: Seq<MergeGroup>, end: int) -> Seq<Seq<char>>
    decreases end,
{
    if end <= 0 {
        Seq::empty()
    } else {
        ids_before(groups, end - 1) + groups[end - 1].members@.map_values(
            |member: Member| member.reference.id@,
        )
    }
}

impl MergePlan {
    /// Returns every planned synthetic record key in group order.
    pub fn merged_record_keys(&self) -> (r: Vec<StaticRecordKey>)
        ensures
            r@.len() == self.groups@.len(),
            forall|g: int|
                0 <= g < self.groups@.len() ==> (#[trigger] r@[g]) == (StaticRecordKey::Merged {
                    cell_x: self.groups@[g].cell_x,
                    cell_y: self.groups@[g].cell_y,
                    group_idx: self.groups@[g].group_idx,
                }),
    {
        let mut keys: Vec<StaticRecordKey> = Vec::new();
        let mut g: usize = 0;
        while g < self.groups.len()
            invariant
                g <= self.groups@.len(),
                keys@.len() == g,
                forall|k: int|
                    0 <= k < g ==> (#[trigger] keys@[k]) == (StaticRecordKey::Merged {
                        cell_x: self.groups@[k].cell_x,
                        cell_y: self.groups@[k].cell_y,
                        group_idx: self.groups@[k].group_idx,
                    }),
            decreases self.groups@.len() - g,
        {
            let group = &self.groups[g];
            keys.push(
                StaticRecordKey::Merged {
                    cell_x: group.cell_x,
                    cell_y: group.cell_y,
                    group_idx: group.group_idx,
                },
            );
            g = g + 1;
        }
        keys
    }

    /// How many groups are planned.
    pub fn group_count(&self) -> (r: usize)
        ensures
            r == self.groups@.len(),
    {
        self.groups.len()
    }

    /// Returns every planned member's source-mesh id, in group order.
    pub fn member_ids(&self) -> (r: Vec<String>)
        ensures
            crate::text::texts(r@) == ids_before(self.groups@, self.groups@.len() as int),
    {
        let mut ids: Vec<String> = Vec::new();
        let mut g: usize = 0;
        assert(crate::text::texts(ids@) =~= ids_before(self.groups@, 0));
        while g < self.groups.len()
            invariant
                g <= self.groups@.len(),
                crate::text::texts(ids@) == ids_before(self.groups@, g as int),
            decreases self.groups@.len() - g,
        {
            let members = &self.groups[g].members;
            let ghost names = members@.map_values(|member: Member| member.reference.id@);
            let ghost before = crate::text::texts(ids@);
            let mut m: usize = 0;
            assert(crate::text::texts(ids@) =~= before + names.take(0));
            while m < members.len()
                invariant
                    m <= members@.len(),
                    names == members@.map_values(|member: Member| member.reference.id@),
                    crate::text::texts(ids@) == before + names.take(m as int),
                decreases members@.len() - m,
            {
                let ghost so_far = ids@;
                ids.push(members[m].reference.id.clone());
                proof {
                    assert(crate::text::texts(ids@) =~= crate::text::texts(so_far).push(
                        names[m as int],
                    ));
                    assert(names.take(m + 1) =~= names.take(m as int).push(names[m as int]));
                    assert(crate::text::texts(ids@) =~= before + names.take(m + 1));
                }
                m = m + 1;
            }
            assert(names.take(m as int) =~= names);
            g = g + 1;
        }
        ids
    }
}

// ---------------------------------------------------------------------------------------------
// Usage
// ---------------------------------------------------------------------------------------------

/// Some group has the member.
pub open spec fn is_merged(groups: Seq<MergeGroup>, key: StableRefKey) -> bool {
    exists|g: int, m: int|
        0 <= g < groups.len() && 0 <= m < groups[g].members@.len() && #[trigger] group_member(
            groups,
            g,
            m,
        ).key == key
}

/// Member `m` of group `g`.
pub open spec fn group_member(groups: Seq<MergeGroup>, g: int, m: int) -> Member {
    groups[g].members@[m]
}

/// The references among the first `end` that no group has, in order.
pub open spec fn unmerged(
    references: Seq<Member>,
    groups: Seq<MergeGroup>,
    end: int,
) -> Seq<Member>
    decreases end,
{
    if end <= 0 {
        Seq::empty()
    } else if is_merged(groups, references[end - 1].key) {
        unmerged(references, groups, end - 1)
    } else {
        unmerged(references, groups, end - 1).push(references[end - 1])
    }
}

/// Bit pattern of one.
pub const ONE_BITS: u32 = 0x3f80_0000;

/// The made-up reference of a group: at the members' mean, unrotated and unscaled.
pub open spec fn stands_for(
    member: Member,
    group: MergeGroup,
    center: [u32; 3],
    index: int,
) -> bool {
    &&& member.key == (StableRefKey {
        source: crate::merge::groups::SYNTHETIC_SOURCE,
        index: index as u32,
    })
    &&& member.reference.id@ == synthetic_id(group)
    &&& !member.reference.deleted
    &&& !member.reference.persistent
    &&& member.reference.translation == center
    &&& member.reference.rotation@ == seq![0u32, 0, 0]
    &&& member.reference.scale == ONE_BITS
    &&& member.reference.vis_index == 0
}

/// The key as one number; distinct keys have distinct ones.
pub open spec fn key_number(key: StableRefKey) -> u64 {
    (key.source * 0x1_0000_0000 + key.index) as u64
}

fn key_number_of(key: StableRefKey) -> (r: u64)
    ensures
        r == key_number(key),
{
    key.source as u64 * 0x1_0000_0000 + key.index as u64
}

/// The index holds the members of the first `end` groups, and of group `end` the first `last`.
spec fn indexes_members(
    index: Map<u64, usize>,
    groups: Seq<MergeGroup>,
    end: int,
    last: int,
) -> bool {
    forall|key: StableRefKey| #[trigger]
        index.dom().contains(key_number(key)) <==> exists|g: int, m: int|
            {
                &&& 0 <= g < groups.len()
                &&& 0 <= m < groups[g].members@.len()
                &&& g < end || (g == end && m < last)
                &&& #[trigger] group_member(groups, g, m).key == key
            }
}

/// Indexes the members of the groups by their keys.
fn index_members(groups: &Vec<MergeGroup>) -> (index: IdIndex)
    ensures
        forall|key: StableRefKey| #[trigger]
            id_entries(index).dom().contains(key_number(key)) <==> is_merged(groups@, key),
{
    let mut index = new_id_index();
    let mut g: usize = 0;
    while g < groups.len()
        invariant
            g <= groups@.len(),
            indexes_members(id_entries(index), groups@, g as int, 0),
        decreases groups@.len() - g,
    {
        let members = &groups[g].members;
        let mut m: usize = 0;
        while m < members.len()
            invariant
                m <= members@.len(),
                g < groups@.len(),
                members@ == groups@[g as int].members@,
                indexes_members(id_entries(index), groups@, g as int, m as int),
            decreases members@.len() - m,
        {
            let ghost before = id_entries(index);
            id_index_insert(&mut index, key_number_of(members[m].key), g);
            proof {
                let own = group_member(groups@, g as int, m as int).key;
                let after = id_entries(index);
                assert forall|key: StableRefKey| #[trigger]
                    after.dom().contains(key_number(key)) <==> exists|h: int, k: int|
                    {
                        &&& 0 <= h < groups@.len()
                        &&& 0 <= k < groups@[h].members@.len()
                        &&& h < g || (h == g && k < m + 1)
                        &&& #[trigger] group_member(groups@, h, k).key == key
                    } by {
                    assert(before.dom().contains(key_number(key)) <==> exists|h: int, k: int|
                        {
                            &&& 0 <= h < groups@.len()
                            &&& 0 <= k < groups@[h].members@.len()
                            &&& h < g || (h == g && k < m)
                            &&& #[trigger] group_member(groups@, h, k).key == key
                        });
                    assert(key != own ==> key_number(key) != key_number(own));
                    if key == own {
                        assert(group_member(groups@, g as int, m as int).key == key);
                    }
                }
            }
            m = m + 1;
        }
        g = g + 1;
    }
    index
}

/// Applies a merge plan's effect on the references: removes each group's members and appends one
/// made-up reference per group, in group order.
///
/// This runs for every planned group, also for those whose geometry later proves empty.
pub fn apply_merge_usage(
    plan: &MergePlan,
    centers: &[[u32; 3]],
    next_index: u32,
    references: &mut Vec<Member>,
)
    requires
        centers@.len() == plan.groups@.len(),
        next_index + plan.groups@.len() <= u32::MAX,
    ensures
        ({
            let kept = unmerged(
                old(references)@,
                plan.groups@,
                old(references)@.len() as int,
            );
            &&& final(references)@.len() == kept.len() + plan.groups@.len()
            &&& final(references)@.take(kept.len() as int) == kept
            &&& forall|g: int|
                0 <= g < plan.groups@.len() ==> #[trigger] stands_for(
                    final(references)@[kept.len() + g],
                    plan.groups@[g],
                    centers@[g],
                    next_index + g,
                )
        }),
{
    let ghost all = references@;
    let index = index_members(&plan.groups);
    let total: usize = references.len();
    let mut taken: Vec<Member> = Vec::new();
    std::mem::swap(&mut taken, references);
    let mut rest = crate::list::reversed(taken);
    let mut done: usize = 0;
    assert(references@ =~= unmerged(all, plan.groups@, 0));
    while rest.len() > 0
        invariant
            done + rest@.len() == total,
            total == all.len(),
            rest@.reverse() == all.skip(done as int),
            references@ == unmerged(all, plan.groups@, done as int),
            forall|key: StableRefKey| #[trigger]
                id_entries(index).dom().contains(key_number(key)) <==> is_merged(
                    plan.groups@,
                    key,
                ),
        decreases rest@.len(),
    {
        let ghost queue = rest@.reverse();
        let member = rest.pop().unwrap();
        proof {
            assert(queue[0] == member);
            assert(all[done as int] == member);
            assert(rest@.reverse() =~= queue.drop_first());
            assert(all.skip(done as int).drop_first() =~= all.skip(done + 1));
        }
        if id_index_get(&index, key_number_of(member.key)).is_none() {
            references.push(member);
        }
        done = done + 1;
    }
    let ghost kept = references@;
    let mut g: usize = 0;
    assert(references@.take(kept.len() as int) =~= kept);
    while g < plan.groups.len()
        invariant
            g <= plan.groups@.len(),
            centers@.len() == plan.groups@.len(),
            next_index + plan.groups@.len() <= u32::MAX,
            references@.len() == kept.len() + g,
            references@.take(kept.len() as int) == kept,
            forall|h: int|
                0 <= h < g ==> #[trigger] stands_for(
                    references@[kept.len() + h],
                    plan.groups@[h],
                    centers@[h],
                    next_index + h,
                ),
        decreases plan.groups@.len() - g,
    {
        let ghost before = references@;
        references.push(
            Member {
                key: StableRefKey::synthetic(next_index + g as u32),
                reference: DistantReference {
                    id: plan.groups[g].synthetic_id(),
                    deleted: false,
                    persistent: false,
                    translation: centers[g],
                    rotation: [0, 0, 0],
                    scale: ONE_BITS,
                    vis_index: 0,
                },
            },
        );
        proof {
            assert(references@.take(kept.len() as int) =~= before.take(kept.len() as int));
            assert forall|h: int| 0 <= h < g + 1 implies #[trigger] stands_for(
                references@[kept.len() + h],
                plan.groups@[h],
                centers@[h],
                next_index + h,
            ) by {
                if h < g {
                    assert(references@[kept.len() + h] == before[kept.len() + h]);
                } else {
                    assert(references@[kept.len() + h].reference.rotation@ =~= seq![0u32, 0, 0]);
                }
            }
        }
        g = g + 1;
    }
}

/// No member of a group is left among the references.
pub proof fn lemma_members_removed(
    references: Seq<Member>,
    groups: Seq<MergeGroup>,
    end: int,
)
    requires
        0 <= end <= references.len(),
    ensures
        forall|i: int|
            0 <= i < unmerged(references, groups, end).len() ==> !is_merged(
                groups,
                (#[trigger] unmerged(references, groups, end)[i]).key,
            ),
        forall|i: int|
            0 <= i < end && !is_merged(groups, (#[trigger] references[i]).key) ==> unmerged(
                references,
                groups,
                end,
            ).contains(references[i]),
    decreases end,
{
    if end > 0 {
        lemma_members_removed(references, groups, end - 1);
        let before = unmerged(references, groups, end - 1);
        let now = unmerged(references, groups, end);
        assert forall|i: int| 0 <= i < end && !is_merged(
            groups,
            (#[trigger] references[i]).key,
        ) implies now.contains(references[i]) by {
            if i < end - 1 {
                assert(before.contains(references[i]));
                let k = choose|k: int| 0 <= k < before.len() && before[k] == references[i];
                assert(now[k] == references[i]);
            } else {
                assert(now[before.len() as int] == references[i]);
            }
        }
    }
}

// ---------------------------------------------------------------------------------------------
// Cells
// ---------------------------------------------------------------------------------------------

/// Selects the planned merge cells whose geometry is built.
pub enum CellFilter {
    /// Build every planned group.
    All,
    /// Build only groups whose exterior cell is listed.
    Dirty(Vec<(i32, i32)>),
}

/// The filter lets the cell through.
pub open spec fn lets_through(filter: CellFilter, cell: (i32, i32)) -> bool {
    match filter {
        CellFilter::All => true,
        CellFilter::Dirty(cells) => cells@.contains(cell),
    }
}

impl CellFilter {
    /// Whether the filter lets the cell through.
    pub fn includes(&self, cell: (i32, i32)) -> (r: bool)
        ensures
            r == lets_through(*self, cell),
    {
        match self {
            CellFilter::All => true,
            CellFilter::Dirty(cells) => {
                let mut i: usize = 0;
                while i < cells.len()
                    invariant
                        i <= cells@.len(),
                        *self == CellFilter::Dirty(*cells),
                        forall|k: int| 0 <= k < i ==> #[trigger] cells@[k] != cell,
                    decreases cells@.len() - i,
                {
                    let other: (i32, i32) = cells[i];
                    if other.0 == cell.0 && other.1 == cell.1 {
                        assert(cells@[i as int] == cell);
                        return true;
                    }
                    i = i + 1;
                }
                false
            },
        }
    }
}

/// The groups among the first `end` whose cell is let through, in order.
pub open spec fn selected_groups(
    groups: Seq<MergeGroup>,
    filter: CellFilter,
    end: int,
) -> Seq<usize>
    decreases end,
{
    if end <= 0 {
        Seq::empty()
    } else if lets_through(filter, (groups[end - 1].cell_x, groups[end - 1].cell_y)) {
        selected_groups(groups, filter, end - 1).push((end - 1) as usize)
    } else {
        selected_groups(groups, filter, end - 1)
    }
}

impl MergePlan {
    /// The positions of the groups that a filter selects.
    pub fn work_groups(&self, filter: &CellFilter) -> (r: Vec<usize>)
        ensures
            r@ == selected_groups(self.groups@, *filter, self.groups@.len() as int),
    {
        let mut work: Vec<usize> = Vec::new();
        let mut g: usize = 0;
        while g < self.groups.len()
            invariant
                g <= self.groups@.len(),
                work@ == selected_groups(self.groups@, *filter, g as int),
            decreases self.groups@.len() - g,
        {
            if filter.includes(self.groups[g].cell()) {
                work.push(g);
            }
            g = g + 1;
        }
        work
    }
}

} // verus!
