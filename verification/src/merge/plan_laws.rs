//! Laws of merge planning: no reference is merged twice.

use crate::merge::groups::{candidates_in, cell_lt, cells_ascend, CellBag, Member, ReferenceFacts};
use crate::merge::plan::{
    cell_groups, group_member, groups_before, groups_of, is_merge_group, lemma_group_members,
    lemma_groups_before, members_of, picked, plans_cells, several, tree_over, GroupTree, MergeGroup,
};
use crate::model::DistantStatic;
use crate::sort::{lemma_same_multiset, lemma_same_multiset_distinct, Ranked};
use vstd::prelude::*;

verus! {

/// No two references have the same identity.
pub open spec fn keys_distinct(references: Seq<Member>) -> bool {
    forall|i: int, j: int|
        0 <= i < j < references.len() ==> (#[trigger] references[i]).key != (
        #[trigger] references[j]).key
}

/// The bags hold candidates of their cells, which ascend.
pub open spec fn are_bags(
    bags: Seq<CellBag>,
    references: Seq<Member>,
    facts: Seq<ReferenceFacts>,
    statics: Map<Seq<char>, DistantStatic>,
) -> bool {
    &&& cells_ascend(bags)
    &&& forall|b: int|
        0 <= b < bags.len() ==> (#[trigger] bags[b]).references@ == candidates_in(
            references,
            facts,
            statics,
            bags[b].cell,
            references.len() as int,
        )
}

/// Every hierarchy is over the candidates of its bag, and lists each once.
pub open spec fn are_trees(
    trees: Seq<GroupTree>,
    bags: Seq<CellBag>,
    references: Seq<Member>,
) -> bool {
    &&& trees.len() == bags.len()
    &&& forall|c: int|
        0 <= c < trees.len() ==> tree_over(#[trigger] trees[c], bags[c], references) && members_of(
            trees[c],
        ).no_duplicates()
}

/// Candidates of a cell ascend, and stand in it.
proof fn lemma_candidates(
    references: Seq<Member>,
    facts: Seq<ReferenceFacts>,
    statics: Map<Seq<char>, DistantStatic>,
    cell: (i32, i32),
    end: int,
)
    requires
        end <= usize::MAX,
    ensures
        forall|i: int, j: int|
            0 <= i < j < candidates_in(references, facts, statics, cell, end).len()
                ==> #[trigger] candidates_in(references, facts, statics, cell, end)[i]
                < #[trigger] candidates_in(references, facts, statics, cell, end)[j],
        forall|i: int|
            0 <= i < candidates_in(references, facts, statics, cell, end).len() ==> (
            #[trigger] candidates_in(references, facts, statics, cell, end)[i]) < end
                && facts[candidates_in(references, facts, statics, cell, end)[i] as int].cell
                == cell,
    decreases end,
{
    let found = candidates_in(references, facts, statics, cell, end);
    if end > 0 {
        lemma_candidates(references, facts, statics, cell, end - 1);
        let before = candidates_in(references, facts, statics, cell, end - 1);
        assert forall|i: int| 0 <= i < found.len() implies (#[trigger] found[i]) < end
            && facts[found[i] as int].cell == cell by {
            if i < before.len() {
                assert(found[i] == before[i]);
            }
        }
        assert forall|i: int, j: int| 0 <= i < j < found.len() implies #[trigger] found[i]
            < #[trigger] found[j] by {
            assert(found[i] == before[i]);
            if j < before.len() {
                assert(found[j] == before[j]);
            }
        }
    }
}

/// Where the `g`-th of the groups with several members stands among all.
spec fn several_at(groups: Seq<Seq<usize>>, end: int, g: int) -> int
    decreases end,
{
    if end <= 0 {
        0
    } else if groups[end - 1].len() > 1 && g == several(groups, end - 1).len() {
        end - 1
    } else {
        several_at(groups, end - 1, g)
    }
}

proof fn lemma_several_at(groups: Seq<Seq<usize>>, end: int, g: int)
    requires
        0 <= g < several(groups, end).len(),
    ensures
        0 <= several_at(groups, end, g) < end,
        several(groups, end)[g] == groups[several_at(groups, end, g)],
    decreases end,
{
    if end > 0 && !(groups[end - 1].len() > 1 && g == several(groups, end - 1).len()) {
        lemma_several_at(groups, end - 1, g);
    }
}

proof fn lemma_several_distinct(groups: Seq<Seq<usize>>, end: int, g: int, h: int)
    requires
        0 <= g < h < several(groups, end).len(),
    ensures
        several_at(groups, end, g) < several_at(groups, end, h),
    decreases end,
{
    if end > 0 {
        if groups[end - 1].len() > 1 && h == several(groups, end - 1).len() {
            lemma_several_at(groups, end - 1, g);
        } else {
            lemma_several_distinct(groups, end - 1, g, h);
        }
    }
}

/// The groups of a hierarchy that lists each candidate once share none.
proof fn lemma_tree_groups_apart(tree: GroupTree, g: int, h: int, x: usize)
    requires
        members_of(tree).no_duplicates(),
        0 <= g < groups_of(tree).len(),
        0 <= h < groups_of(tree).len(),
        groups_of(tree)[g].contains(x),
        groups_of(tree)[h].contains(x),
    ensures
        g == h,
        groups_of(tree)[g].no_duplicates(),
    decreases tree,
{
    match tree {
        GroupTree::Leaf { members } => {},
        GroupTree::Split { near, left, right } => {
            if !near {
                let a = members_of(*left);
                let b = members_of(*right);
                let both = a + b;
                let l = groups_of(*left);
                let r = groups_of(*right);
                assert(a.no_duplicates()) by {
                    assert forall|i: int, j: int| 0 <= i < a.len() && 0 <= j < a.len() && i
                        != j implies a[i] != a[j] by {
                        assert(both[i] == a[i] && both[j] == a[j]);
                    }
                }
                assert(b.no_duplicates()) by {
                    assert forall|i: int, j: int| 0 <= i < b.len() && 0 <= j < b.len() && i
                        != j implies b[i] != b[j] by {
                        assert(both[a.len() + i] == b[i] && both[a.len() + j] == b[j]);
                    }
                }
                if g < l.len() && h < l.len() {
                    lemma_tree_groups_apart(*left, g, h, x);
                } else if g >= l.len() && h >= l.len() {
                    lemma_tree_groups_apart(*right, g - l.len(), h - l.len(), x);
                } else {
                    let (near_side, far_side) = if g < l.len() {
                        (g, h - l.len())
                    } else {
                        (h, g - l.len())
                    };
                    lemma_group_members(*left, near_side);
                    lemma_group_members(*right, far_side);
                    let m = choose|m: int| 0 <= m < l[near_side].len() && l[near_side][m] == x;
                    let n = choose|n: int| 0 <= n < r[far_side].len() && r[far_side][n] == x;
                    assert(a.contains(l[near_side][m]));
                    assert(b.contains(r[far_side][n]));
                    let i = choose|i: int| 0 <= i < a.len() && a[i] == x;
                    let j = choose|j: int| 0 <= j < b.len() && b[j] == x;
                    assert(both[i] == x && both[a.len() + j] == x);
                    assert(false);
                }
            }
        },
    }
}

/// The cell and number of a planned group.
proof fn lemma_group_place(trees: Seq<GroupTree>, end: int, a: int) -> (place: (int, int))
    requires
        0 <= end <= trees.len(),
        0 <= a < groups_before(trees, end),
    ensures
        0 <= place.0 < end,
        0 <= place.1 < cell_groups(trees[place.0]).len(),
        a == groups_before(trees, place.0) + place.1,
    decreases end,
{
    if a < groups_before(trees, end - 1) {
        lemma_group_place(trees, end - 1, a)
    } else {
        (end - 1, a - groups_before(trees, end - 1))
    }
}

/// A member of a planned group is one of the references: which candidate of its cell it is.
proof fn lemma_member_source(
    groups: Seq<MergeGroup>,
    references: Seq<Member>,
    bags: Seq<CellBag>,
    trees: Seq<GroupTree>,
    c: int,
    g: int,
    m: int,
) -> (k: int)
    requires
        are_trees(trees, bags, references),
        plans_cells(groups, references, bags, trees, trees.len() as int),
        0 <= c < trees.len(),
        0 <= g < cell_groups(trees[c]).len(),
        0 <= m < groups[groups_before(trees, c) + g].members@.len(),
    ensures
        0 <= k < bags[c].references@.len(),
        cell_groups(trees[c])[g].contains(k as usize),
        bags[c].references@[k] < references.len(),
        groups[groups_before(trees, c) + g].members@[m] == references[bags[c].references@[k] as int],
{
    let group = groups[groups_before(trees, c) + g];
    let positions = cell_groups(trees[c])[g];
    assert(is_merge_group(group, references, bags[c], positions, g));
    assert(tree_over(trees[c], bags[c], references));
    let from = picked(references, bags[c].references@, positions);
    lemma_same_multiset(group.members@, from);
    assert(group.members@.contains(group.members@[m]));
    assert(from.contains(group.members@[m]));
    let i = choose|i: int| 0 <= i < from.len() && from[i] == group.members@[m];
    let all = groups_of(trees[c]);
    lemma_several_at(all, all.len() as int, g);
    let at = several_at(all, all.len() as int, g);
    lemma_group_members(trees[c], at);
    assert(members_of(trees[c]).contains(all[at][i]));
    let list = members_of(trees[c]);
    let n = choose|n: int| 0 <= n < list.len() && list[n] == positions[i];
    assert(list[n] < bags[c].references@.len());
    let k = positions[i] as int;
    assert(positions.contains(positions[i]));
    assert(bags[c].references@[k] < references.len());
    k
}

/// A planned group lists no reference twice.
proof fn lemma_members_distinct(
    groups: Seq<MergeGroup>,
    references: Seq<Member>,
    facts: Seq<ReferenceFacts>,
    statics: Map<Seq<char>, DistantStatic>,
    bags: Seq<CellBag>,
    trees: Seq<GroupTree>,
    c: int,
    g: int,
)
    requires
        references.len() <= usize::MAX,
        keys_distinct(references),
        are_bags(bags, references, facts, statics),
        are_trees(trees, bags, references),
        plans_cells(groups, references, bags, trees, trees.len() as int),
        0 <= c < trees.len(),
        0 <= g < cell_groups(trees[c]).len(),
    ensures
        groups[groups_before(trees, c) + g].members@.no_duplicates(),
{
    let group = groups[groups_before(trees, c) + g];
    let positions = cell_groups(trees[c])[g];
    let bag = bags[c].references@;
    assert(is_merge_group(group, references, bags[c], positions, g));
    assert(tree_over(trees[c], bags[c], references));
    let from = picked(references, bag, positions);
    let all = groups_of(trees[c]);
    let list = members_of(trees[c]);
    lemma_several_at(all, all.len() as int, g);
    let at = several_at(all, all.len() as int, g);
    lemma_group_members(trees[c], at);
    lemma_candidates(references, facts, statics, bags[c].cell, references.len() as int);
    assert forall|i: int, j: int| 0 <= i < from.len() && 0 <= j < from.len() && i != j implies from[i]
        != from[j] by {
        assert(positions.contains(positions[i]));
        lemma_tree_groups_apart(trees[c], at, at, positions[i]);
        assert(positions[i] != positions[j]);
        assert(list.contains(all[at][i]) && list.contains(all[at][j]));
        let n = choose|n: int| 0 <= n < list.len() && list[n] == positions[i];
        let o = choose|o: int| 0 <= o < list.len() && list[o] == positions[j];
        assert(list[n] < bag.len() && list[o] < bag.len());
        let x = bag[positions[i] as int] as int;
        let y = bag[positions[j] as int] as int;
        assert(x != y) by {
            if positions[i] < positions[j] {
                assert(bag[positions[i] as int] < bag[positions[j] as int]);
            } else {
                assert(bag[positions[j] as int] < bag[positions[i] as int]);
            }
        }
        assert(from[i] == references[x] && from[j] == references[y]);
        if x < y {
            assert(references[x].key != references[y].key);
        } else {
            assert(references[y].key != references[x].key);
        }
    }
    assert(from.no_duplicates());
    lemma_same_multiset_distinct(from, group.members@);
}

/// No reference stands in two merge groups, nor twice in one, where every hierarchy lists each
/// candidate of its cell once.
pub proof fn lemma_merged_once(
    groups: Seq<MergeGroup>,
    references: Seq<Member>,
    facts: Seq<ReferenceFacts>,
    statics: Map<Seq<char>, DistantStatic>,
    bags: Seq<CellBag>,
    trees: Seq<GroupTree>,
)
    requires
        references.len() <= usize::MAX,
        keys_distinct(references),
        are_bags(bags, references, facts, statics),
        are_trees(trees, bags, references),
        plans_cells(groups, references, bags, trees, trees.len() as int),
    ensures
        forall|a: int, m: int, b: int, n: int|
            0 <= a < groups.len() && 0 <= m < groups[a].members@.len() && 0 <= b < groups.len()
                && 0 <= n < groups[b].members@.len() && #[trigger] group_member(groups, a, m).key
                == #[trigger] group_member(groups, b, n).key ==> a == b && m == n,
{
    assert forall|a: int, m: int, b: int, n: int|
        0 <= a < groups.len() && 0 <= m < groups[a].members@.len() && 0 <= b < groups.len() && 0
            <= n < groups[b].members@.len() && #[trigger] group_member(groups, a, m).key
            == #[trigger] group_member(groups, b, n).key implies a == b && m == n by {
        let end = trees.len() as int;
        let (c, g) = lemma_group_place(trees, end, a);
        let (d, h) = lemma_group_place(trees, end, b);
        let k = lemma_member_source(groups, references, bags, trees, c, g, m);
        let l = lemma_member_source(groups, references, bags, trees, d, h, n);
        let x = bags[c].references@[k] as int;
        let y = bags[d].references@[l] as int;
        assert(x == y) by {
            if x < y {
                assert(references[x].key != references[y].key);
            }
            if y < x {
                assert(references[y].key != references[x].key);
            }
        }
        lemma_candidates(references, facts, statics, bags[c].cell, references.len() as int);
        lemma_candidates(references, facts, statics, bags[d].cell, references.len() as int);
        assert(facts[x].cell == bags[c].cell);
        assert(facts[y].cell == bags[d].cell);
        if c < d {
            assert(cell_lt(bags[c].cell, bags[d].cell));
        }
        if d < c {
            assert(cell_lt(bags[d].cell, bags[c].cell));
        }
        assert(c == d);
        let bag = bags[c].references@;
        if k < l {
            assert(bag[k] < bag[l]);
        }
        if l < k {
            assert(bag[l] < bag[k]);
        }
        let all = groups_of(trees[c]);
        lemma_several_at(all, all.len() as int, g);
        lemma_several_at(all, all.len() as int, h);
        lemma_tree_groups_apart(
            trees[c],
            several_at(all, all.len() as int, g),
            several_at(all, all.len() as int, h),
            k as usize,
        );
        if g < h {
            lemma_several_distinct(all, all.len() as int, g, h);
        }
        if h < g {
            lemma_several_distinct(all, all.len() as int, h, g);
        }
        lemma_members_distinct(groups, references, facts, statics, bags, trees, c, g);
        assert(groups[a].members@[m] == groups[a].members@[n]);
    }
}

// ---------------------------------------------------------------------------------------------
// Which candidates are merged
// ---------------------------------------------------------------------------------------------

/// The node is the hierarchy itself, or lies below it.
pub open spec fn is_within(node: GroupTree, tree: GroupTree) -> bool
    decreases tree,
{
    ||| node == tree
    ||| tree matches GroupTree::Split { near: _, left, right } && (is_within(node, *left)
        || is_within(node, *right))
}

/// What lies below the node belongs together: it is not told apart, or lies within the group radius.
pub open spec fn holds_together(node: GroupTree) -> bool {
    match node {
        GroupTree::Leaf { .. } => true,
        GroupTree::Split { near, .. } => near,
    }
}

/// The group is all that lies below one node that holds together.
pub open spec fn is_node_group(tree: GroupTree, node: GroupTree, group: Seq<usize>) -> bool {
    is_within(node, tree) && holds_together(node) && group == members_of(node)
}

/// Every group is the candidates of one leaf, or those below one node within the group radius: no
/// group reaches over a split that is wider.
pub proof fn lemma_groups_hold_together(tree: GroupTree, g: int)
    requires
        0 <= g < groups_of(tree).len(),
    ensures
        exists|node: GroupTree| #[trigger] is_node_group(tree, node, groups_of(tree)[g]),
        groups_of(tree)[g].len() > 0,
    decreases tree,
{
    match tree {
        GroupTree::Leaf { members } => {
            assert(is_node_group(tree, tree, groups_of(tree)[g]));
        },
        GroupTree::Split { near, left, right } => {
            if near {
                assert(is_node_group(tree, tree, groups_of(tree)[g]));
            } else {
                let l = groups_of(*left);
                if g < l.len() {
                    lemma_groups_hold_together(*left, g);
                    let node = choose|node: GroupTree| #[trigger] is_node_group(*left, node, l[g]);
                    assert(groups_of(tree)[g] == l[g]);
                    assert(is_node_group(tree, node, groups_of(tree)[g]));
                } else {
                    let r = groups_of(*right);
                    let h = g - l.len();
                    lemma_groups_hold_together(*right, h);
                    let node = choose|node: GroupTree| #[trigger] is_node_group(*right, node, r[h]);
                    assert(groups_of(tree)[g] == r[h]);
                    assert(is_node_group(tree, node, groups_of(tree)[g]));
                }
            }
        },
    }
}

/// All of `part` is in the group.
pub open spec fn has_all(group: Seq<usize>, part: Seq<usize>) -> bool {
    forall|x: usize| #[trigger] part.contains(x) ==> group.contains(x)
}

/// The candidates below a node that holds together come into one group.
pub proof fn lemma_together_stays_together(tree: GroupTree, node: GroupTree)
    requires
        is_within(node, tree),
        holds_together(node),
        members_of(node).len() > 0,
    ensures
        exists|g: int|
            0 <= g < groups_of(tree).len() && has_all(
                #[trigger] groups_of(tree)[g],
                members_of(node),
            ),
    decreases tree,
{
    let all = groups_of(tree);
    match tree {
        GroupTree::Leaf { members } => {
            assert(has_all(all[0], members_of(node)));
        },
        GroupTree::Split { near, left, right } => {
            lemma_within_members(tree, node);
            if near {
                assert(has_all(all[0], members_of(node)));
            } else {
                let l = groups_of(*left);
                if is_within(node, *left) {
                    lemma_together_stays_together(*left, node);
                    let g = choose|g: int| 0 <= g < l.len() && has_all(
                        #[trigger] l[g],
                        members_of(node),
                    );
                    assert(all[g] == l[g]);
                } else {
                    let r = groups_of(*right);
                    lemma_together_stays_together(*right, node);
                    let g = choose|g: int| 0 <= g < r.len() && has_all(
                        #[trigger] r[g],
                        members_of(node),
                    );
                    assert(all[l.len() + g] == r[g]);
                }
            }
        },
    }
}

/// What lies below a node lies below what is above it.
pub proof fn lemma_within_members(tree: GroupTree, node: GroupTree)
    requires
        is_within(node, tree),
    ensures
        has_all(members_of(tree), members_of(node)),
        exists|at: int|
            0 <= at && at + members_of(node).len() <= members_of(tree).len() && members_of(node)
                == #[trigger] members_of(tree).subrange(at, at + members_of(node).len()),
    decreases tree,
{
    let all = members_of(tree);
    let part = members_of(node);
    if node == tree {
        assert(all.subrange(0, 0int + part.len()) =~= part);
    } else if let GroupTree::Split { near: _, left, right } = tree {
        let a = members_of(*left);
        let b = members_of(*right);
        if is_within(node, *left) {
            lemma_within_members(*left, node);
            let at = choose|at: int|
                0 <= at && at + part.len() <= a.len() && part == #[trigger] a.subrange(
                    at,
                    at + part.len(),
                );
            assert(all.subrange(at, at + part.len()) =~= part);
        } else {
            lemma_within_members(*right, node);
            let at = choose|at: int|
                0 <= at && at + part.len() <= b.len() && part == #[trigger] b.subrange(
                    at,
                    at + part.len(),
                );
            let from = a.len() + at;
            assert(all.subrange(from, from + part.len()) =~= part);
        }
    }
    assert forall|x: usize| #[trigger] part.contains(x) implies all.contains(x) by {
        let at = choose|at: int|
            0 <= at && at + part.len() <= all.len() && part == #[trigger] all.subrange(
                at,
                at + part.len(),
            );
        let i = choose|i: int| 0 <= i < part.len() && part[i] == x;
        assert(all[at + i] == x);
    }
}

/// Some leaf within the hierarchy lists the candidate.
pub open spec fn leaf_lists(tree: GroupTree, leaf: GroupTree, x: usize) -> bool {
    is_within(leaf, tree) && (leaf matches GroupTree::Leaf { members } && members@.contains(x))
}

/// The candidates of a hierarchy are those of its leaves: every leaf's list stands in it whole, and
/// nothing else does.
pub proof fn lemma_members_are_of_leaves(tree: GroupTree)
    ensures
        forall|x: usize| #[trigger]
            members_of(tree).contains(x) <==> exists|leaf: GroupTree| #[trigger]
                leaf_lists(tree, leaf, x),
    decreases tree,
{
    assert forall|x: usize| #[trigger]
        members_of(tree).contains(x) <==> exists|leaf: GroupTree| #[trigger]
            leaf_lists(tree, leaf, x) by {
        if exists|leaf: GroupTree| #[trigger] leaf_lists(tree, leaf, x) {
            let leaf = choose|leaf: GroupTree| #[trigger] leaf_lists(tree, leaf, x);
            lemma_within_members(tree, leaf);
            assert(members_of(leaf).contains(x));
        }
        if members_of(tree).contains(x) {
            match tree {
                GroupTree::Leaf { members } => {
                    assert(leaf_lists(tree, tree, x));
                },
                GroupTree::Split { near: _, left, right } => {
                    lemma_members_are_of_leaves(*left);
                    lemma_members_are_of_leaves(*right);
                    let all = members_of(tree);
                    let a = members_of(*left);
                    let i = choose|i: int| 0 <= i < all.len() && all[i] == x;
                    if i < a.len() {
                        assert(a[i] == x);
                        assert(a.contains(x));
                        let leaf = choose|leaf: GroupTree| #[trigger] leaf_lists(*left, leaf, x);
                        assert(leaf_lists(tree, leaf, x));
                    } else {
                        assert(members_of(*right)[i - a.len()] == x);
                        assert(members_of(*right).contains(x));
                        let leaf = choose|leaf: GroupTree| #[trigger] leaf_lists(*right, leaf, x);
                        assert(leaf_lists(tree, leaf, x));
                    }
                },
            }
        }
    }
}

/// The references that the positions name in the bag.
pub open spec fn named_by(
    references: Seq<Member>,
    bag: Seq<usize>,
    positions: Seq<usize>,
) -> Seq<Member> {
    Seq::new(positions.len(), |i: int| references[bag[positions[i] as int] as int])
}

/// The group is of the cell, and its members are the references below a node of the cell's
/// hierarchy that holds together, several of them, by ascending identity.
pub open spec fn merges_node(
    group: MergeGroup,
    references: Seq<Member>,
    bag: CellBag,
    tree: GroupTree,
    node: GroupTree,
) -> bool {
    &&& is_within(node, tree)
    &&& holds_together(node)
    &&& (group.cell_x, group.cell_y) == bag.cell
    &&& group.members@.len() >= 2
    &&& group.members@.to_multiset() == named_by(
        references,
        bag.references@,
        members_of(node),
    ).to_multiset()
    &&& forall|m: int, n: int|
        0 <= m < n < group.members@.len() ==> (#[trigger] group.members@[m]).ranks_le(
            #[trigger] group.members@[n],
        )
}

/// Some node of some cell is what the group merges.
pub open spec fn merges_some_node(
    group: MergeGroup,
    references: Seq<Member>,
    bags: Seq<CellBag>,
    trees: Seq<GroupTree>,
) -> bool {
    exists|c: int, node: GroupTree|
        0 <= c < trees.len() && #[trigger] merges_node(
            group,
            references,
            bags[c],
            trees[c],
            node,
        )
}

/// A planned group merges at least two references, all of one cell, that lie below one node within
/// the group radius or in one leaf.
pub proof fn lemma_planned_groups_hold_together(
    groups: Seq<MergeGroup>,
    references: Seq<Member>,
    bags: Seq<CellBag>,
    trees: Seq<GroupTree>,
    a: int,
)
    requires
        trees.len() == bags.len(),
        plans_cells(groups, references, bags, trees, trees.len() as int),
        0 <= a < groups.len(),
    ensures
        merges_some_node(groups[a], references, bags, trees),
{
    let (c, g) = lemma_group_place(trees, trees.len() as int, a);
    let all = groups_of(trees[c]);
    lemma_several_at(all, all.len() as int, g);
    let at = several_at(all, all.len() as int, g);
    lemma_several_large(all, all.len() as int, g);
    lemma_groups_hold_together(trees[c], at);
    let node = choose|node: GroupTree| #[trigger] is_node_group(trees[c], node, all[at]);
    let positions = cell_groups(trees[c])[g];
    assert(is_merge_group(
        groups[groups_before(trees, c) + g],
        references,
        bags[c],
        positions,
        g,
    ));
    let from = picked(references, bags[c].references@, positions);
    assert(from =~= named_by(references, bags[c].references@, members_of(node)));
    broadcast use vstd::seq_lib::group_to_multiset_ensures;

    assert(groups[a].members@.to_multiset().len() == from.to_multiset().len());
    assert(groups[a].members@.len() == from.len());
    assert(merges_node(groups[a], references, bags[c], trees[c], node));
}

proof fn lemma_several_large(groups: Seq<Seq<usize>>, end: int, g: int)
    requires
        0 <= g < several(groups, end).len(),
    ensures
        several(groups, end)[g].len() >= 2,
    decreases end,
{
    if end > 0 && !(groups[end - 1].len() > 1 && g == several(groups, end - 1).len()) {
        lemma_several_large(groups, end - 1, g);
    }
}

proof fn lemma_several_found(groups: Seq<Seq<usize>>, end: int, at: int) -> (g: int)
    requires
        0 <= at < end,
        groups[at].len() >= 2,
    ensures
        0 <= g < several(groups, end).len(),
        several(groups, end)[g] == groups[at],
    decreases end,
{
    if at == end - 1 {
        several(groups, end).len() - 1
    } else {
        lemma_several_found(groups, end - 1, at)
    }
}

/// The group has every reference that the positions name.
pub open spec fn has_named(
    group: MergeGroup,
    references: Seq<Member>,
    bag: Seq<usize>,
    positions: Seq<usize>,
) -> bool {
    forall|i: int|
        0 <= i < positions.len() ==> group.members@.contains(
            references[bag[#[trigger] positions[i] as int] as int],
        )
}

/// Two or more references of a cell that lie below one node within the group radius, or in one
/// leaf, are planned into one group.
pub proof fn lemma_near_references_merge(
    groups: Seq<MergeGroup>,
    references: Seq<Member>,
    bags: Seq<CellBag>,
    trees: Seq<GroupTree>,
    c: int,
    node: GroupTree,
)
    requires
        trees.len() == bags.len(),
        plans_cells(groups, references, bags, trees, trees.len() as int),
        0 <= c < trees.len(),
        members_of(trees[c]).no_duplicates(),
        is_within(node, trees[c]),
        holds_together(node),
        members_of(node).len() >= 2,
    ensures
        exists|a: int|
            0 <= a < groups.len() && has_named(
                #[trigger] groups[a],
                references,
                bags[c].references@,
                members_of(node),
            ),
{
    let tree = trees[c];
    let part = members_of(node);
    let all = groups_of(tree);
    lemma_together_stays_together(tree, node);
    let at = choose|at: int| 0 <= at < all.len() && has_all(#[trigger] all[at], part);
    lemma_within_members(tree, node);
    assert(part[0] != part[1]) by {
        let list = members_of(tree);
        let from = choose|from: int|
            0 <= from && from + part.len() <= list.len() && part == #[trigger] list.subrange(
                from,
                from + part.len(),
            );
        assert(list[from] == part[0] && list[from + 1] == part[1]);
    }
    assert(part.contains(part[0]) && part.contains(part[1]));
    assert(all[at].contains(part[0]) && all[at].contains(part[1]));
    assert(all[at].len() >= 2);
    let g = lemma_several_found(all, all.len() as int, at);
    let a = groups_before(trees, c) + g;
    lemma_groups_before(trees, c + 1, trees.len() as int);
    let group = groups[a];
    assert(is_merge_group(group, references, bags[c], cell_groups(tree)[g], g));
    let from = picked(references, bags[c].references@, all[at]);
    lemma_same_multiset(group.members@, from);
    assert forall|i: int| 0 <= i < part.len() implies group.members@.contains(
        references[bags[c].references@[#[trigger] part[i] as int] as int],
    ) by {
        assert(part.contains(part[i]));
        assert(all[at].contains(part[i]));
        let j = choose|j: int| 0 <= j < all[at].len() && all[at][j] == part[i];
        assert(from.contains(from[j]));
    }
    assert(has_named(group, references, bags[c].references@, part));
}

} // verus!
