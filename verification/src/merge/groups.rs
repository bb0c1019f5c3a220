//! Grouping nearby exterior references.

use crate::model::{DistantStatic, StaticType};
use crate::sort::Ranked;
use crate::text_map::TextMap;
use vstd::prelude::*;

verus! {

/// Identity of a reference that does not depend on where it stands in a list.
#[derive(Clone, Copy, Debug, PartialEq, Eq, Structural)]
pub struct StableRefKey {
    /// The plugin that the reference comes from.
    pub source: u32,
    /// The reference's number within its source.
    pub index: u32,
}

/// The source of references that merging makes up.
pub const SYNTHETIC_SOURCE: u32 = 0xffff_ffff;

impl StableRefKey {
    /// The key of a made-up reference.
    pub fn synthetic(index: u32) -> (r: Self)
        ensures
            r == (StableRefKey { source: SYNTHETIC_SOURCE, index }),
    {
        StableRefKey { source: SYNTHETIC_SOURCE, index }
    }
}

/// A placed static. Vectors and the scale are IEEE single-precision bit patterns.
#[derive(Debug)]
pub struct DistantReference {
    pub id: String,
    pub deleted: bool,
    pub persistent: bool,
    pub translation: [u32; 3],
    pub rotation: [u32; 3],
    pub scale: u32,
    pub vis_index: u32,
}

impl Clone for DistantReference {
    fn clone(&self) -> (r: Self)
        ensures
            r == *self,
    {
        DistantReference {
            id: self.id.clone(),
            deleted: self.deleted,
            persistent: self.persistent,
            translation: self.translation,
            rotation: self.rotation,
            scale: self.scale,
            vis_index: self.vis_index,
        }
    }
}

/// A reference with its identity.
#[derive(Debug)]
pub struct Member {
    pub key: StableRefKey,
    pub reference: DistantReference,
}

impl Clone for Member {
    fn clone(&self) -> (r: Self)
        ensures
            r == *self,
    {
        Member { key: self.key, reference: self.reference.clone() }
    }
}

/// Members sort by identity.
impl Ranked for Member {
    open spec fn ranks_le(self, other: Self) -> bool {
        self.key.source < other.key.source || (self.key.source == other.key.source
            && self.key.index <= other.key.index)
    }

    proof fn rank_total(a: Self, b: Self) {
    }

    proof fn rank_transitive(a: Self, b: Self, c: Self) {
    }

    fn rank_le(&self, other: &Self) -> (r: bool) {
        self.key.source < other.key.source || (self.key.source == other.key.source
            && self.key.index <= other.key.index)
    }
}

/// What is measured of a reference.
#[derive(Clone, Copy, Debug)]
pub struct ReferenceFacts {
    /// The exterior cell that it stands in.
    pub cell: (i32, i32),
    /// Whether its scaled bounding sphere is large enough to be merged.
    pub large: bool,
}

// ---------------------------------------------------------------------------------------------
// Candidates
// ---------------------------------------------------------------------------------------------

/// A reference may be merged: always visible, of a known static other than grass, and large enough.
pub open spec fn is_candidate(
    member: Member,
    facts: ReferenceFacts,
    statics: Map<Seq<char>, DistantStatic>,
) -> bool {
    let id = member.reference.id@;
    &&& member.reference.vis_index == 0
    &&& statics.dom().contains(id)
    &&& statics[id].static_type != StaticType::StaticGrass
    &&& facts.large
}

/// The candidates of one cell, by position among the references.
#[derive(Debug)]
pub struct CellBag {
    pub cell: (i32, i32),
    pub references: Vec<usize>,
}

/// The candidates in a cell among the first `end` references, in order.
pub open spec fn candidates_in(
    references: Seq<Member>,
    facts: Seq<ReferenceFacts>,
    statics: Map<Seq<char>, DistantStatic>,
    cell: (i32, i32),
    end: int,
) -> Seq<usize>
    decreases end,
{
    if end <= 0 {
        Seq::empty()
    } else {
        let before = candidates_in(references, facts, statics, cell, end - 1);
        if is_candidate(references[end - 1], facts[end - 1], statics) && facts[end - 1].cell
            == cell {
            before.push((end - 1) as usize)
        } else {
            before
        }
    }
}

/// Cell `a` comes before cell `b`.
pub open spec fn cell_lt(a: (i32, i32), b: (i32, i32)) -> bool {
    a.0 < b.0 || (a.0 == b.0 && a.1 < b.1)
}

/// Cells ascend.
pub open spec fn cells_ascend(bags: Seq<CellBag>) -> bool {
    forall|i: int, j: int|
        0 <= i < j < bags.len() ==> cell_lt((#[trigger] bags[i]).cell, (#[trigger] bags[j]).cell)
}

/// Some bag is of the cell.
pub open spec fn has_cell(bags: Seq<CellBag>, cell: (i32, i32)) -> bool {
    exists|b: int| 0 <= b < bags.len() && (#[trigger] bags[b]).cell == cell
}

/// The bags hold the candidates of each cell, as far as the first `end` references go.
pub open spec fn bags_hold(
    bags: Seq<CellBag>,
    references: Seq<Member>,
    facts: Seq<ReferenceFacts>,
    statics: Map<Seq<char>, DistantStatic>,
    end: int,
) -> bool {
    &&& cells_ascend(bags)
    &&& forall|b: int|
        0 <= b < bags.len() ==> (#[trigger] bags[b]).references@ == candidates_in(
            references,
            facts,
            statics,
            bags[b].cell,
            end,
        )
    &&& forall|cell: (i32, i32)| #[trigger]
        candidates_in(references, facts, statics, cell, end).len() > 0 ==> has_cell(bags, cell)
}

/// First position whose cell does not come before `cell`.
fn cell_position(bags: &Vec<CellBag>, cell: (i32, i32)) -> (r: usize)
    requires
        cells_ascend(bags@),
    ensures
        r <= bags@.len(),
        forall|b: int| 0 <= b < r ==> cell_lt((#[trigger] bags@[b]).cell, cell),
        forall|b: int| r <= b < bags@.len() ==> !cell_lt((#[trigger] bags@[b]).cell, cell),
{
    let mut low: usize = 0;
    let mut high: usize = bags.len();
    while low < high
        invariant
            low <= high <= bags@.len(),
            cells_ascend(bags@),
            forall|b: int| 0 <= b < low ==> cell_lt((#[trigger] bags@[b]).cell, cell),
            forall|b: int| high <= b < bags@.len() ==> !cell_lt((#[trigger] bags@[b]).cell, cell),
        decreases high - low,
    {
        let middle: usize = low + (high - low) / 2;
        let other: (i32, i32) = bags[middle].cell;
        if other.0 < cell.0 || (other.0 == cell.0 && other.1 < cell.1) {
            proof {
                assert forall|b: int| 0 <= b < middle + 1 implies cell_lt(
                    (#[trigger] bags@[b]).cell,
                    cell,
                ) by {
                    if b < middle {
                        assert(cell_lt(bags@[b].cell, bags@[middle as int].cell));
                    }
                }
            }
            low = middle + 1;
        } else {
            proof {
                assert forall|b: int| middle <= b < bags@.len() implies !cell_lt(
                    (#[trigger] bags@[b]).cell,
                    cell,
                ) by {
                    if b > middle {
                        assert(cell_lt(bags@[middle as int].cell, bags@[b].cell));
                    }
                }
            }
            high = middle;
        }
    }
    low
}

fn candidate(member: &Member, facts: &ReferenceFacts, statics: &TextMap<DistantStatic>) -> (r: bool)
    requires
        statics.wf(),
    ensures
        r == is_candidate(*member, *facts, statics@),
{
    if member.reference.vis_index != 0 {
        return false;
    }
    match statics.get(member.reference.id.as_str()) {
        Some(distant_static) => {
            let grass = match distant_static.static_type {
                StaticType::StaticGrass => true,
                _ => false,
            };
            !grass && facts.large
        },
        None => false,
    }
}

/// Collects the candidates of every cell.
fn fill_bags(
    references: &[Member],
    facts: &[ReferenceFacts],
    statics: &TextMap<DistantStatic>,
) -> (bags: Vec<CellBag>)
    requires
        statics.wf(),
        references@.len() == facts@.len(),
    ensures
        bags_hold(bags@, references@, facts@, statics@, references@.len() as int),
{
    let mut bags: Vec<CellBag> = Vec::new();
    let mut i: usize = 0;
    while i < references.len()
        invariant
            i <= references@.len(),
            statics.wf(),
            references@.len() == facts@.len(),
            bags_hold(bags@, references@, facts@, statics@, i as int),
        decreases references@.len() - i,
    {
        let ghost before = bags@;
        let ghost all = references@;
        let ghost marks = facts@;
        let ghost map = statics@;
        if candidate(&references[i], &facts[i], statics) {
            let cell: (i32, i32) = facts[i].cell;
            let at: usize = cell_position(&bags, cell);
            if at < bags.len() && bags[at].cell.0 == cell.0 && bags[at].cell.1 == cell.1 {
                let bag: &mut CellBag = &mut bags[at];
                bag.references.push(i);
                proof {
                    let after = bags@;
                    assert forall|b: int| 0 <= b < after.len() implies (
                    #[trigger] after[b]).references@ == candidates_in(
                        all,
                        marks,
                        map,
                        after[b].cell,
                        i + 1,
                    ) by {
                        assert(before[b].references@ == candidates_in(
                            all,
                            marks,
                            map,
                            before[b].cell,
                            i as int,
                        ));
                        if b < at {
                            assert(cell_lt(before[b].cell, before[at as int].cell));
                        } else if b > at {
                            assert(cell_lt(before[at as int].cell, before[b].cell));
                        }
                    }
                    assert forall|other: (i32, i32)| #[trigger]
                        candidates_in(all, marks, map, other, i + 1).len() > 0 implies has_cell(
                        after,
                        other,
                    ) by {
                        if other == cell {
                            assert(after[at as int].cell == other);
                        } else {
                            assert(candidates_in(all, marks, map, other, i as int).len() > 0);
                            let b = choose|b: int|
                                0 <= b < before.len() && (#[trigger] before[b]).cell == other;
                            assert(after[b].cell == other);
                        }
                    }
                    assert forall|x: int, y: int| 0 <= x < y < after.len() implies cell_lt(
                        (#[trigger] after[x]).cell,
                        (#[trigger] after[y]).cell,
                    ) by {
                        assert(cell_lt(before[x].cell, before[y].cell));
                    }
                }
            } else {
                let mut fresh: Vec<usize> = Vec::new();
                fresh.push(i);
                bags.insert(at, CellBag { cell, references: fresh });
                proof {
                    let after = bags@;
                    assert(after =~= before.insert(at as int, after[at as int]));
                    assert(candidates_in(all, marks, map, cell, i as int).len() == 0) by {
                        if candidates_in(all, marks, map, cell, i as int).len() > 0 {
                            let b = choose|b: int|
                                0 <= b < before.len() && (#[trigger] before[b]).cell == cell;
                            if b < at {
                                assert(cell_lt(before[b].cell, cell));
                            } else {
                                assert(!cell_lt(before[at as int].cell, cell));
                                if b > at {
                                    assert(cell_lt(before[at as int].cell, before[b].cell));
                                }
                            }
                        }
                    }
                    assert forall|b: int| 0 <= b < after.len() implies (
                    #[trigger] after[b]).references@ == candidates_in(
                        all,
                        marks,
                        map,
                        after[b].cell,
                        i + 1,
                    ) by {
                        if b < at {
                            assert(after[b] == before[b]);
                            assert(cell_lt(before[b].cell, cell));
                        } else if b > at {
                            assert(after[b] == before[b - 1]);
                            assert(before[b - 1].cell != cell) by {
                                assert(!cell_lt(before[at as int].cell, cell));
                                if b - 1 > at {
                                    assert(cell_lt(before[at as int].cell, before[b - 1].cell));
                                }
                            }
                        } else {
                            assert(candidates_in(all, marks, map, cell, i as int)
                                =~= Seq::empty());
                            assert(after[b].references@ =~= seq![i]);
                        }
                    }
                    assert forall|other: (i32, i32)| #[trigger]
                        candidates_in(all, marks, map, other, i + 1).len() > 0 implies has_cell(
                        after,
                        other,
                    ) by {
                        if other == cell {
                            assert(after[at as int].cell == other);
                        } else {
                            assert(candidates_in(all, marks, map, other, i as int).len() > 0);
                            let b = choose|b: int|
                                0 <= b < before.len() && (#[trigger] before[b]).cell == other;
                            if b < at {
                                assert(after[b].cell == other);
                            } else {
                                assert(after[b + 1].cell == other);
                            }
                        }
                    }
                    assert forall|x: int, y: int| 0 <= x < y < after.len() implies cell_lt(
                        (#[trigger] after[x]).cell,
                        (#[trigger] after[y]).cell,
                    ) by {
                        let px = if x < at { x } else { x - 1 };
                        let py = if y < at { y } else { y - 1 };
                        if x == at {
                            assert(after[y] == before[py]);
                            assert(!cell_lt(before[at as int].cell, cell));
                            if py > at {
                                assert(cell_lt(before[at as int].cell, before[py].cell));
                            }
                        } else if y == at {
                            assert(after[x] == before[px]);
                            assert(cell_lt(before[px].cell, cell));
                        } else {
                            assert(after[x] == before[px]);
                            assert(after[y] == before[py]);
                            assert(cell_lt(before[px].cell, before[py].cell));
                        }
                    }
                }
            }
        } else {
            proof {
                assert forall|b: int| 0 <= b < bags@.len() implies (
                #[trigger] bags@[b]).references@ == candidates_in(
                    all,
                    marks,
                    map,
                    bags@[b].cell,
                    i + 1,
                ) by {
                    assert(before[b].references@ == candidates_in(
                        all,
                        marks,
                        map,
                        before[b].cell,
                        i as int,
                    ));
                }
                assert forall|other: (i32, i32)| #[trigger]
                    candidates_in(all, marks, map, other, i + 1).len() > 0 implies has_cell(
                    bags@,
                    other,
                ) by {
                    assert(candidates_in(all, marks, map, other, i as int).len() > 0);
                }
            }
        }
        i = i + 1;
    }
    bags
}

/// The candidates of the cells that have more than one, by ascending cell.
pub fn merge_candidates(
    references: &[Member],
    facts: &[ReferenceFacts],
    statics: &TextMap<DistantStatic>,
) -> (r: Vec<CellBag>)
    requires
        statics.wf(),
        references@.len() == facts@.len(),
    ensures
        cells_ascend(r@),
        forall|b: int|
            0 <= b < r@.len() ==> (#[trigger] r@[b]).references@ == candidates_in(
                references@,
                facts@,
                statics@,
                r@[b].cell,
                references@.len() as int,
            ) && r@[b].references@.len() > 1,
        forall|cell: (i32, i32)| #[trigger]
            candidates_in(references@, facts@, statics@, cell, references@.len() as int).len() > 1
                ==> has_cell(r@, cell),
{
    let bags = fill_bags(references, facts, statics);
    let ghost all = bags@;
    let total: usize = bags.len();
    let mut rest = crate::list::reversed(bags);
    let mut kept: Vec<CellBag> = Vec::new();
    let mut done: usize = 0;
    while rest.len() > 0
        invariant
            done + rest@.len() == total,
            total == all.len(),
            rest@.reverse() == all.skip(done as int),
            bags_hold(all, references@, facts@, statics@, references@.len() as int),
            cells_ascend(kept@),
            forall|k: int|
                0 <= k < kept@.len() ==> (#[trigger] kept@[k]).references@.len() > 1 && all.take(
                    done as int,
                ).contains(kept@[k]),
            forall|b: int|
                0 <= b < done && (#[trigger] all[b]).references@.len() > 1 ==> has_cell(
                    kept@,
                    all[b].cell,
                ),
        decreases rest@.len(),
    {
        let ghost queue = rest@.reverse();
        let ghost before = kept@;
        let ghost seen = all.take(done as int);
        let ghost now = all.take(done + 1);
        let bag = rest.pop().unwrap();
        proof {
            assert(queue[0] == bag);
            assert(all[done as int] == bag);
            assert(rest@.reverse() =~= queue.drop_first());
            assert(all.skip(done as int).drop_first() =~= all.skip(done + 1));
            assert forall|k: int| 0 <= k < before.len() implies now.contains(
                #[trigger] before[k],
            ) && cell_lt(before[k].cell, bag.cell) by {
                assert(seen.contains(before[k]));
                let p = choose|p: int| 0 <= p < seen.len() && seen[p] == before[k];
                assert(now[p] == before[k]);
                assert(all[p] == before[k]);
                assert(cell_lt(all[p].cell, all[done as int].cell));
            }
            assert(now[done as int] == bag);
            assert(now.contains(bag));
        }
        let several = bag.references.len() > 1;
        if several {
            kept.push(bag);
        }
        proof {
            assert forall|b: int| 0 <= b < done + 1 && (
            #[trigger] all[b]).references@.len() > 1 implies has_cell(kept@, all[b].cell) by {
                if b < done {
                    let k = choose|k: int|
                        0 <= k < before.len() && (#[trigger] before[k]).cell == all[b].cell;
                    assert(kept@[k].cell == all[b].cell);
                } else {
                    assert(kept@[before.len() as int].cell == all[b].cell);
                }
            }
        }
        done = done + 1;
    }
    proof {
        assert(all.take(done as int) =~= all);
        assert forall|b: int| 0 <= b < kept@.len() implies (#[trigger] kept@[b]).references@
            == candidates_in(
            references@,
            facts@,
            statics@,
            kept@[b].cell,
            references@.len() as int,
        ) by {
            assert(all.contains(kept@[b]));
            let p = choose|p: int| 0 <= p < all.len() && all[p] == kept@[b];
            assert(all[p] == kept@[b]);
        }
        assert forall|cell: (i32, i32)| #[trigger]
            candidates_in(references@, facts@, statics@, cell, references@.len() as int).len()
                > 1 implies has_cell(kept@, cell) by {
            let b = choose|b: int| 0 <= b < all.len() && (#[trigger] all[b]).cell == cell;
            assert(all[b].references@.len() > 1);
        }
    }
    kept
}

} // verus!
