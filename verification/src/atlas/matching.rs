//! Matching of current groups to prior slots.

use crate::atlas::error::AtlasError;
use crate::atlas::graph::{
    as_edges, distinct_pairs, follows_flow, is_cheapest_matching, is_first_refused, is_refused,
    is_searched, lemma_searched_once, lists_pairs, min_cost_positive_matching, none_refused,
    pairing_fails, weight_scale, within_counts, MatchEdge,
};
use crate::atlas::group::{overlap_count, shared_count, PreparedAtlasGroup};
use crate::atlas::slot::{reservation_dimensions, reserved_size};
use crate::atlas::types::{
    AtlasSharedConfig, CachedAtlasFamily, CachedAtlasKeySlot, CachedAtlasSlot,
};
use crate::sort::{lemma_same_multiset, lemma_same_multiset_distinct, sort_ranked, Ranked};
use crate::text::{lemma_text_order, lemma_text_transitive, str_le, text_le, texts};
use vstd::prelude::*;

verus! {

/// The paths related to a slot, in relation order.
pub open spec fn paths_in_slot(key_slots: Seq<CachedAtlasKeySlot>, id: u64) -> Seq<String>
    decreases key_slots.len(),
{
    if key_slots.len() == 0 {
        Seq::empty()
    } else {
        let before = paths_in_slot(key_slots.drop_last(), id);
        if key_slots.last().slot_id == id {
            before.push(key_slots.last().path)
        } else {
            before
        }
    }
}

/// An earlier slot has the same identity as slot `s`.
pub open spec fn is_repeated_slot(slots: Seq<CachedAtlasSlot>, s: int) -> bool {
    exists|t: int| 0 <= t < s && (#[trigger] slots[t]).slot_id == slots[s].slot_id
}

/// Slot `s` has paths of its own.
pub open spec fn slot_has_keys(prior: CachedAtlasFamily, s: int) -> bool {
    paths_in_slot(prior.key_slots@, prior.slots@[s].slot_id).len() > 0 && !is_repeated_slot(
        prior.slots@,
        s,
    )
}

/// `keys` lists the logical keys of every slot.
pub open spec fn lists_prior_keys(prior: CachedAtlasFamily, keys: Seq<Vec<String>>) -> bool {
    &&& keys.len() == prior.slots@.len()
    &&& forall|s: int| 0 <= s < keys.len() ==> #[trigger] slot_has_keys(prior, s)
    &&& forall|s: int|
        0 <= s < keys.len() ==> (#[trigger] keys[s])@ == paths_in_slot(
            prior.key_slots@,
            prior.slots@[s].slot_id,
        )
}

fn slot_paths(key_slots: &[CachedAtlasKeySlot], id: u64) -> (paths: Vec<String>)
    ensures
        paths@ == paths_in_slot(key_slots@, id),
{
    let mut paths: Vec<String> = Vec::new();
    let mut i: usize = 0;
    while i < key_slots.len()
        invariant
            i <= key_slots@.len(),
            paths@ == paths_in_slot(key_slots@.take(i as int), id),
        decreases key_slots@.len() - i,
    {
        proof {
            assert(key_slots@.take(i + 1).drop_last() =~= key_slots@.take(i as int));
            assert(key_slots@.take(i + 1).last() == key_slots@[i as int]);
        }
        if key_slots[i].slot_id == id {
            paths.push(key_slots[i].path.clone());
        }
        i = i + 1;
    }
    assert(key_slots@.take(i as int) =~= key_slots@);
    paths
}

fn repeats_slot(slots: &[CachedAtlasSlot], s: usize) -> (r: bool)
    requires
        s < slots@.len(),
    ensures
        r == is_repeated_slot(slots@, s as int),
{
    let mut t: usize = 0;
    while t < s
        invariant
            t <= s < slots@.len(),
            forall|u: int| 0 <= u < t ==> (#[trigger] slots@[u]).slot_id != slots@[s as int].slot_id,
        decreases s - t,
    {
        if slots[t].slot_id == slots[s].slot_id {
            assert(slots@[t as int].slot_id == slots@[s as int].slot_id);
            return true;
        }
        t = t + 1;
    }
    false
}

/// Collects the logical keys of every prior slot.
pub fn prior_groups(prior: &CachedAtlasFamily) -> (r: Result<Vec<Vec<String>>, AtlasError>)
    ensures
        match r {
            Ok(keys) => lists_prior_keys(*prior, keys@),
            Err(e) => e == AtlasError::SlotWithoutKeys && exists|s: int|
                0 <= s < prior.slots@.len() && !#[trigger] slot_has_keys(*prior, s),
        },
{
    let mut keys: Vec<Vec<String>> = Vec::new();
    let mut s: usize = 0;
    while s < prior.slots.len()
        invariant
            s <= prior.slots@.len(),
            keys@.len() == s,
            forall|t: int| 0 <= t < s ==> #[trigger] slot_has_keys(*prior, t),
            forall|t: int|
                0 <= t < s ==> (#[trigger] keys@[t])@ == paths_in_slot(
                    prior.key_slots@,
                    prior.slots@[t].slot_id,
                ),
        decreases prior.slots@.len() - s,
    {
        let paths = slot_paths(&prior.key_slots, prior.slots[s].slot_id);
        if paths.len() == 0 || repeats_slot(&prior.slots, s) {
            assert(!slot_has_keys(*prior, s as int));
            return Err(AtlasError::SlotWithoutKeys);
        }
        keys.push(paths);
        s = s + 1;
    }
    Ok(keys)
}

/// A pair of group and prior slot that share keys, where the group's content fits the
/// reservation; its weight is the number of shared keys.
pub open spec fn is_candidate(
    groups: Seq<PreparedAtlasGroup>,
    slots: Seq<CachedAtlasSlot>,
    prior_keys: Seq<Vec<String>>,
    shared: AtlasSharedConfig,
    edge: MatchEdge,
) -> bool {
    &&& edge.group < groups.len()
    &&& edge.slot < slots.len()
    &&& edge.weight == shared_count(
        texts(groups[edge.group as int].logical_keys@),
        texts(prior_keys[edge.slot as int]@),
    )
    &&& edge.weight > 0
    &&& reserved_size(
        groups[edge.group as int].item.w,
        groups[edge.group as int].item.h,
        shared,
    ) matches Ok((width, height)) && width <= slots[edge.slot as int].reserved_rect.width && height
        <= slots[edge.slot as int].reserved_rect.height
}

/// `edges` holds exactly the candidates, each once.
pub open spec fn lists_candidates(
    groups: Seq<PreparedAtlasGroup>,
    slots: Seq<CachedAtlasSlot>,
    prior_keys: Seq<Vec<String>>,
    shared: AtlasSharedConfig,
    edges: Seq<MatchEdge>,
) -> bool {
    &&& forall|edge: MatchEdge| #[trigger]
        edges.contains(edge) <==> is_candidate(groups, slots, prior_keys, shared, edge)
    &&& distinct_pairs(edges)
}

/// `pairs` lists a matching of candidates that retains the most keys, with ties broken toward
/// early slots and groups, and where that leaves a choice, as the search over the candidates by
/// slot and group comes to it.
pub open spec fn is_best_matching(
    groups: Seq<PreparedAtlasGroup>,
    slots: Seq<CachedAtlasSlot>,
    prior_keys: Seq<Vec<String>>,
    shared: AtlasSharedConfig,
    pairs: Seq<(usize, usize)>,
) -> bool {
    exists|edges: Seq<MatchEdge>, chosen: Seq<MatchEdge>|
        {
            &&& lists_candidates(groups, slots, prior_keys, shared, edges)
            &&& #[trigger] is_cheapest_matching(
                groups.len() as usize,
                slots.len() as usize,
                edges,
                chosen,
            )
            &&& lists_pairs(chosen, pairs)
            &&& is_searched(groups.len() as usize, slots.len() as usize, edges, pairs)
        }
}

/// Group `g` is the first whose reservation cannot be represented.
pub open spec fn is_first_unmeasured(
    groups: Seq<PreparedAtlasGroup>,
    shared: AtlasSharedConfig,
    g: int,
    error: AtlasError,
) -> bool {
    &&& 0 <= g < groups.len()
    &&& reserved_size(groups[g].item.w, groups[g].item.h, shared) == Err::<(u32, u32), AtlasError>(
        error,
    )
    &&& forall|h: int|
        0 <= h < g ==> reserved_size((#[trigger] groups[h]).item.w, groups[h].item.h, shared) is Ok
}

/// Every group's reservation can be represented.
pub open spec fn all_measured(groups: Seq<PreparedAtlasGroup>, shared: AtlasSharedConfig) -> bool {
    forall|h: int|
        0 <= h < groups.len() ==> reserved_size(
            (#[trigger] groups[h]).item.w,
            groups[h].item.h,
            shared,
        ) is Ok
}

/// Matching stops with `error`.
pub open spec fn matching_fails(
    groups: Seq<PreparedAtlasGroup>,
    slots: Seq<CachedAtlasSlot>,
    prior_keys: Seq<Vec<String>>,
    shared: AtlasSharedConfig,
    error: AtlasError,
) -> bool {
    ||| exists|g: int| #[trigger] is_first_unmeasured(groups, shared, g, error)
    ||| {
        &&& all_measured(groups, shared)
        &&& exists|edges: Seq<MatchEdge>|
            lists_candidates(groups, slots, prior_keys, shared, edges) && #[trigger] pairing_fails(
                groups.len() as usize,
                slots.len() as usize,
                edges,
                error,
            )
    }
}

/// A candidate with the keys by which candidates are listed.
pub struct ListedEdge {
    pub slot_id: u64,
    pub group_key: String,
    /// Group, slot, and number of shared keys.
    pub edge: (usize, usize, usize),
}

/// Candidates are listed by slot identity, then by group key.
impl Ranked for ListedEdge {
    open spec fn ranks_le(self, other: Self) -> bool {
        if self.slot_id != other.slot_id {
            self.slot_id < other.slot_id
        } else {
            text_le(self.group_key@, other.group_key@)
        }
    }

    proof fn rank_total(a: Self, b: Self) {
        lemma_text_order(a.group_key@, b.group_key@);
    }

    proof fn rank_transitive(a: Self, b: Self, c: Self) {
        if a.slot_id == b.slot_id && b.slot_id == c.slot_id {
            lemma_text_transitive(a.group_key@, b.group_key@, c.group_key@);
        }
    }

    fn rank_le(&self, other: &Self) -> (r: bool) {
        if self.slot_id != other.slot_id {
            self.slot_id < other.slot_id
        } else {
            str_le(self.group_key.as_str(), other.group_key.as_str())
        }
    }
}

spec fn match_edge(edge: (usize, usize, usize)) -> MatchEdge {
    MatchEdge { group: edge.0, slot: edge.1, weight: edge.2 }
}

/// Some listed entry has the edge.
spec fn lists_edge(listed: Seq<ListedEdge>, edge: MatchEdge) -> bool {
    exists|i: int| 0 <= i < listed.len() && match_edge((#[trigger] listed[i]).edge) == edge
}

/// No two entries join the same group and slot.
spec fn lists_once(listed: Seq<ListedEdge>) -> bool {
    forall|i: int, j: int|
        0 <= i < j < listed.len() ==> (#[trigger] listed[i]).edge.0 != (
        #[trigger] listed[j]).edge.0 || listed[i].edge.1 != listed[j].edge.1
}

fn collect_candidates(
    groups: &[PreparedAtlasGroup],
    slots: &[CachedAtlasSlot],
    prior_keys: &[Vec<String>],
    shared: &AtlasSharedConfig,
) -> (r: Result<Vec<ListedEdge>, AtlasError>)
    requires
        prior_keys@.len() == slots@.len(),
    ensures
        match r {
            Ok(listed) => {
                &&& all_measured(groups@, *shared)
                &&& lists_once(listed@)
                &&& forall|edge: MatchEdge| #[trigger]
                    lists_edge(listed@, edge) <==> is_candidate(
                        groups@,
                        slots@,
                        prior_keys@,
                        *shared,
                        edge,
                    )
            },
            Err(e) => exists|g: int| #[trigger] is_first_unmeasured(groups@, *shared, g, e),
        },
{
    let mut listed: Vec<ListedEdge> = Vec::new();
    let mut g: usize = 0;
    while g < groups.len()
        invariant
            g <= groups@.len(),
            prior_keys@.len() == slots@.len(),
            lists_once(listed@),
            forall|h: int|
                0 <= h < g ==> reserved_size(
                    (#[trigger] groups@[h]).item.w,
                    groups@[h].item.h,
                    *shared,
                ) is Ok,
            forall|edge: MatchEdge| #[trigger]
                lists_edge(listed@, edge) <==> edge.group < g && is_candidate(
                    groups@,
                    slots@,
                    prior_keys@,
                    *shared,
                    edge,
                ),
        decreases groups@.len() - g,
    {
        let group = &groups[g];
        let (required_width, required_height) = match reservation_dimensions(
            group.item.w,
            group.item.h,
            shared,
        ) {
            Ok(size) => size,
            Err(e) => {
                assert(is_first_unmeasured(groups@, *shared, g as int, e));
                return Err(e);
            },
        };
        let mut s: usize = 0;
        while s < slots.len()
            invariant
                g < groups@.len(),
                *group == groups@[g as int],
                s <= slots@.len(),
                prior_keys@.len() == slots@.len(),
                lists_once(listed@),
                reserved_size(group.item.w, group.item.h, *shared) == Ok::<(u32, u32), AtlasError>(
                    (required_width, required_height),
                ),
                forall|edge: MatchEdge| #[trigger]
                    lists_edge(listed@, edge) <==> (edge.group < g || (edge.group == g && edge.slot
                        < s)) && is_candidate(groups@, slots@, prior_keys@, *shared, edge),
            decreases slots@.len() - s,
        {
            let old = &slots[s];
            let weight: usize = overlap_count(&group.logical_keys, &prior_keys[s]);
            let ghost here = MatchEdge { group: g, slot: s, weight };
            let ghost before = listed@;
            proof {
                assert forall|edge: MatchEdge| edge.group == g && edge.slot == s && is_candidate(
                    groups@,
                    slots@,
                    prior_keys@,
                    *shared,
                    edge,
                ) implies edge == here by {}
            }
            if weight > 0 && required_width <= old.reserved_rect.width && required_height
                <= old.reserved_rect.height {
                listed.push(
                    ListedEdge {
                        slot_id: old.slot_id,
                        group_key: group.group_key.clone(),
                        edge: (g, s, weight),
                    },
                );
                proof {
                    assert(is_candidate(groups@, slots@, prior_keys@, *shared, here));
                    assert forall|i: int| 0 <= i < before.len() implies (
                    #[trigger] before[i]).edge.0 != g || before[i].edge.1 != s by {
                        assert(lists_edge(before, match_edge(before[i].edge)));
                    }
                    assert forall|edge: MatchEdge| #[trigger]
                        lists_edge(listed@, edge) <==> lists_edge(before, edge) || edge == here by {
                        if lists_edge(before, edge) {
                            let i = choose|i: int|
                                0 <= i < before.len() && match_edge((#[trigger] before[i]).edge)
                                    == edge;
                            assert(match_edge(listed@[i].edge) == edge);
                        }
                        if edge == here {
                            assert(match_edge(listed@[before.len() as int].edge) == edge);
                        }
                        if lists_edge(listed@, edge) && edge != here {
                            let i = choose|i: int|
                                0 <= i < listed@.len() && match_edge((#[trigger] listed@[i]).edge)
                                    == edge;
                            assert(match_edge(before[i].edge) == edge);
                        }
                    }
                }
            } else {
                assert(!is_candidate(groups@, slots@, prior_keys@, *shared, here));
            }
            s = s + 1;
        }
        g = g + 1;
    }
    Ok(listed)
}

/// Matches groups to prior slots so that the most keys keep their place.
pub fn maximum_weight_matching(
    groups: &[PreparedAtlasGroup],
    slots: &[CachedAtlasSlot],
    prior_keys: &[Vec<String>],
    shared: &AtlasSharedConfig,
) -> (r: Result<Vec<(usize, usize)>, AtlasError>)
    requires
        prior_keys@.len() == slots@.len(),
        groups@.len() + slots@.len() + 2 <= usize::MAX,
    ensures
        match r {
            Ok(pairs) => {
                &&& all_measured(groups@, *shared)
                &&& is_best_matching(groups@, slots@, prior_keys@, *shared, pairs@)
                &&& forall|e: AtlasError| !#[trigger]
                    matching_fails(groups@, slots@, prior_keys@, *shared, e)
            },
            Err(e) => matching_fails(groups@, slots@, prior_keys@, *shared, e),
        },
{
    let collected = match collect_candidates(groups, slots, prior_keys, shared) {
        Ok(listed) => listed,
        Err(e) => {
            return Err(e);
        },
    };
    let ghost source = collected@;
    let listed = sort_ranked(collected);
    let mut edges: Vec<(usize, usize, usize)> = Vec::new();
    let mut i: usize = 0;
    while i < listed.len()
        invariant
            i <= listed@.len(),
            edges@.len() == i,
            forall|k: int| 0 <= k < i ==> #[trigger] edges@[k] == listed@[k].edge,
        decreases listed@.len() - i,
    {
        edges.push(listed[i].edge);
        i = i + 1;
    }
    let ghost set = as_edges(edges@);
    proof {
        assert forall|edge: MatchEdge| #[trigger]
            set.contains(edge) <==> is_candidate(groups@, slots@, prior_keys@, *shared, edge) by {
            if set.contains(edge) {
                let k = choose|k: int| 0 <= k < set.len() && set[k] == edge;
                assert(listed@.contains(listed@[k]));
                assert(source.contains(listed@[k]));
                let j = choose|j: int| 0 <= j < source.len() && source[j] == listed@[k];
                assert(match_edge(source[j].edge) == edge);
                assert(lists_edge(source, edge));
            }
            if is_candidate(groups@, slots@, prior_keys@, *shared, edge) {
                assert(lists_edge(source, edge));
                let j = choose|j: int|
                    0 <= j < source.len() && match_edge((#[trigger] source[j]).edge) == edge;
                assert(source.contains(source[j]));
                assert(listed@.contains(source[j]));
                let k = choose|k: int| 0 <= k < listed@.len() && listed@[k] == source[j];
                assert(set[k] == edge);
            }
        }
        assert(distinct_pairs(set)) by {
            lemma_listed_distinct(source, listed@);
            assert forall|i: int, j: int| 0 <= i < j < set.len() implies (#[trigger] set[i]).group
                != (#[trigger] set[j]).group || set[i].slot != set[j].slot by {
                assert(listed@[i].edge == edges@[i] && listed@[j].edge == edges@[j]);
            }
        }
        assert(lists_candidates(groups@, slots@, prior_keys@, *shared, set));
        assert(within_counts(groups@.len() as usize, slots@.len() as usize, edges@)) by {
            assert forall|k: int| 0 <= k < edges@.len() implies (#[trigger] edges@[k]).0
                < groups@.len() && edges@[k].1 < slots@.len() by {
                assert(set.contains(set[k]));
            }
        }
    }
    let r = min_cost_positive_matching(groups.len(), slots.len(), &edges);
    proof {
        lemma_pairing_decided(groups@, slots@, prior_keys@, *shared, set, r);
        if r is Ok {
            let pairs = r->Ok_0;
            let chosen = choose|chosen: Seq<MatchEdge>|
                {
                    &&& #[trigger] is_cheapest_matching(
                        groups@.len() as usize,
                        slots@.len() as usize,
                        set,
                        chosen,
                    )
                    &&& lists_pairs(chosen, pairs@)
                };
            assert(is_searched(groups@.len() as usize, slots@.len() as usize, set, pairs@));
            assert(is_best_matching(groups@, slots@, prior_keys@, *shared, pairs@));
        } else {
            let e = r->Err_0;
            assert(pairing_fails(groups@.len() as usize, slots@.len() as usize, set, e));
            assert(matching_fails(groups@, slots@, prior_keys@, *shared, e));
        }
    }
    r
}

/// Sorting keeps entries distinct.
proof fn lemma_listed_distinct(source: Seq<ListedEdge>, sorted: Seq<ListedEdge>)
    requires
        lists_once(source),
        sorted.to_multiset() == source.to_multiset(),
    ensures
        lists_once(sorted),
{
    assert(source.no_duplicates());
    lemma_same_multiset_distinct(source, sorted);
    lemma_same_multiset(sorted, source);
    assert forall|i: int, j: int| 0 <= i < j < sorted.len() implies (#[trigger] sorted[i]).edge.0
        != (#[trigger] sorted[j]).edge.0 || sorted[i].edge.1 != sorted[j].edge.1 by {
        assert(sorted.contains(sorted[i]) && sorted.contains(sorted[j]));
        assert(source.contains(sorted[i]) && source.contains(sorted[j]));
        let a = choose|a: int| 0 <= a < source.len() && source[a] == sorted[i];
        let b = choose|b: int| 0 <= b < source.len() && source[b] == sorted[j];
        if a < b {
            assert(source[a].edge.0 != source[b].edge.0 || source[a].edge.1 != source[b].edge.1);
        } else if b < a {
            assert(source[b].edge.0 != source[a].edge.0 || source[b].edge.1 != source[a].edge.1);
        }
    }
}

/// Candidates are the same, in whatever order they are listed.
pub proof fn lemma_candidates_same(
    groups: Seq<PreparedAtlasGroup>,
    slots: Seq<CachedAtlasSlot>,
    prior_keys: Seq<Vec<String>>,
    shared: AtlasSharedConfig,
    a: Seq<MatchEdge>,
    b: Seq<MatchEdge>,
)
    requires
        lists_candidates(groups, slots, prior_keys, shared, a),
        lists_candidates(groups, slots, prior_keys, shared, b),
    ensures
        a.to_multiset() == b.to_multiset(),
{
    broadcast use vstd::seq_lib::group_to_multiset_ensures;

    assert(a.no_duplicates());
    assert(b.no_duplicates());
    a.lemma_multiset_has_no_duplicates();
    b.lemma_multiset_has_no_duplicates();
    assert forall|edge: MatchEdge| a.to_multiset().count(edge) == b.to_multiset().count(edge) by {
        assert(a.contains(edge) <==> b.contains(edge));
        if a.contains(edge) {
            assert(a.to_multiset().contains(edge));
            assert(b.to_multiset().contains(edge));
        }
    }
    assert(a.to_multiset() =~= b.to_multiset());
}

/// What matching came to is told by the candidates.
proof fn lemma_pairing_decided(
    groups: Seq<PreparedAtlasGroup>,
    slots: Seq<CachedAtlasSlot>,
    prior_keys: Seq<Vec<String>>,
    shared: AtlasSharedConfig,
    edges: Seq<MatchEdge>,
    r: Result<Vec<(usize, usize)>, AtlasError>,
)
    requires
        all_measured(groups, shared),
        lists_candidates(groups, slots, prior_keys, shared, edges),
        weight_scale(groups.len() as usize, slots.len() as usize) <= i128::MAX || r == Err::<
            Vec<(usize, usize)>,
            AtlasError,
        >(AtlasError::MatchingScoreOverflow),
        r is Ok ==> weight_scale(groups.len() as usize, slots.len() as usize) <= i128::MAX
            && none_refused(groups.len() as usize, slots.len() as usize, edges),
        follows_flow(groups.len() as usize, slots.len() as usize, edges, r),
    ensures
        r is Ok ==> forall|e: AtlasError| !#[trigger]
            matching_fails(groups, slots, prior_keys, shared, e),
{
    if r is Ok {
        let g = groups.len() as usize;
        let s = slots.len() as usize;
        assert forall|e: AtlasError| !#[trigger]
            matching_fails(groups, slots, prior_keys, shared, e) by {
            if matching_fails(groups, slots, prior_keys, shared, e) {
                assert(!exists|h: int| #[trigger] is_first_unmeasured(groups, shared, h, e));
                let other = choose|other: Seq<MatchEdge>|
                    lists_candidates(groups, slots, prior_keys, shared, other)
                        && #[trigger] pairing_fails(g, s, other, e);
                lemma_candidates_same(groups, slots, prior_keys, shared, edges, other);
                lemma_searched_once(g, s, edges, other, r->Ok_0@);
                if exists|i: int| #[trigger] is_first_refused(g, s, other, i) {
                    let i = choose|i: int| #[trigger] is_first_refused(g, s, other, i);
                    assert(other.contains(other[i]));
                    assert(edges.contains(other[i]));
                    let j = choose|j: int| 0 <= j < edges.len() && edges[j] == other[i];
                    assert(!is_refused(g, s, edges[j]));
                }
            }
        }
    }
}

/// Which groups keep which slots is determined.
pub proof fn lemma_matching_determined(
    groups: Seq<PreparedAtlasGroup>,
    slots: Seq<CachedAtlasSlot>,
    prior_keys: Seq<Vec<String>>,
    shared: AtlasSharedConfig,
    x: Seq<(usize, usize)>,
    y: Seq<(usize, usize)>,
)
    requires
        is_best_matching(groups, slots, prior_keys, shared, x),
        is_best_matching(groups, slots, prior_keys, shared, y),
    ensures
        x == y,
{
    let g = groups.len() as usize;
    let s = slots.len() as usize;
    let (a, _) = choose|edges: Seq<MatchEdge>, chosen: Seq<MatchEdge>|
        {
            &&& lists_candidates(groups, slots, prior_keys, shared, edges)
            &&& #[trigger] is_cheapest_matching(g, s, edges, chosen)
            &&& lists_pairs(chosen, x)
            &&& is_searched(g, s, edges, x)
        };
    let (b, _) = choose|edges: Seq<MatchEdge>, chosen: Seq<MatchEdge>|
        {
            &&& lists_candidates(groups, slots, prior_keys, shared, edges)
            &&& #[trigger] is_cheapest_matching(g, s, edges, chosen)
            &&& lists_pairs(chosen, y)
            &&& is_searched(g, s, edges, y)
        };
    lemma_candidates_same(groups, slots, prior_keys, shared, a, b);
    lemma_searched_once(g, s, a, b, x);
}

/// Each group's slot, where the matching gives it one.
pub open spec fn claims_of(group_count: int, pairs: Seq<(usize, usize)>, claims: Seq<Option<usize>>) -> bool {
    &&& claims.len() == group_count
    &&& forall|g: int, s: usize|
        0 <= g < group_count ==> ((#[trigger] claims[g]) == Some(s) <==> #[trigger] pairs.contains(
            (g as usize, s),
        ))
}

/// Spreads a matching over the groups.
pub fn spread_matching(group_count: usize, pairs: &[(usize, usize)]) -> (claims: Vec<Option<usize>>)
    requires
        forall|i: int| 0 <= i < pairs@.len() ==> (#[trigger] pairs@[i]).0 < group_count,
        forall|i: int, j: int|
            0 <= i < j < pairs@.len() ==> (#[trigger] pairs@[i]).0 < (#[trigger] pairs@[j]).0,
    ensures
        claims_of(group_count as int, pairs@, claims@),
{
    let mut claims: Vec<Option<usize>> = Vec::new();
    let mut next: usize = 0;
    let mut g: usize = 0;
    while g < group_count
        invariant
            g <= group_count,
            next <= pairs@.len(),
            claims@.len() == g,
            forall|i: int| 0 <= i < pairs@.len() ==> (#[trigger] pairs@[i]).0 < group_count,
            forall|i: int, j: int|
                0 <= i < j < pairs@.len() ==> (#[trigger] pairs@[i]).0 < (#[trigger] pairs@[j]).0,
            forall|i: int| 0 <= i < next ==> (#[trigger] pairs@[i]).0 < g,
            forall|i: int| next <= i < pairs@.len() ==> (#[trigger] pairs@[i]).0 >= g,
            forall|h: int, s: usize|
                0 <= h < g ==> ((#[trigger] claims@[h]) == Some(s) <==> #[trigger] pairs@.contains(
                    (h as usize, s),
                )),
        decreases group_count - g,
    {
        if next < pairs.len() && pairs[next].0 == g {
            let pair = pairs[next];
            claims.push(Some(pair.1));
            proof {
                assert forall|s: usize| claims@[g as int] == Some(s) <==> #[trigger] pairs@.contains(
                    (g, s),
                ) by {
                    if s == pair.1 {
                        assert(pairs@[next as int] == (g, s));
                    }
                    if pairs@.contains((g, s)) {
                        let i = choose|i: int| 0 <= i < pairs@.len() && pairs@[i] == (g, s);
                        if i < next {
                            assert(pairs@[i].0 < g);
                        } else if i > next {
                            assert(pairs@[next as int].0 < pairs@[i].0);
                        }
                    }
                }
            }
            next = next + 1;
        } else {
            claims.push(None);
            proof {
                assert forall|s: usize| !#[trigger] pairs@.contains((g, s)) by {
                    if pairs@.contains((g, s)) {
                        let i = choose|i: int| 0 <= i < pairs@.len() && pairs@[i] == (g, s);
                        if i < next {
                            assert(pairs@[i].0 < g);
                        } else if i > next {
                            assert(pairs@[next as int].0 < pairs@[i].0);
                            assert(pairs@[next as int].0 >= g);
                        }
                    }
                }
            }
        }
        g = g + 1;
    }
    claims
}

} // verus!
