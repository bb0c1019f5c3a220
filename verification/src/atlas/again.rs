//! Reconciling again: a family that already stands for its groups is left as it is.

use crate::atlas::allocate::{
    active_total, describes_pages, is_marked, reserved_total, stats_of, AllocatedAtlasFamily,
};
use crate::atlas::cache::{ids_valid, lemma_bindings_determined, relations_valid, single_valued};
use crate::atlas::error::AtlasError;
use crate::atlas::fresh::page_sizes;
use crate::atlas::graph::{
    edge_cost, edge_tie, is_cheapest_matching, is_matching, lists_pairs, matching_cost,
    pair_bound, scores_fit, tie_bound, weight_scale, MatchEdge,
};
use crate::atlas::group::{
    groups_partition, is_group, lemma_shared_count, lists_text, shared_count,
    PreparedAtlasGroup,
};
use crate::atlas::matching::{
    is_candidate, lists_candidates, lists_prior_keys, matching_fails, paths_in_slot,
    slot_has_keys,
};
use crate::atlas::packer::{filled_item, frame_view, item_view, placed_record};
use crate::atlas::placement::{
    group_of_item, group_relates, places_group, relates, relates_groups, relation_paths,
};
use crate::atlas::reconcile::{
    all_owners, all_pages, all_slots, is_changed_page, is_reconciled, is_run, keeps_matched,
    marks_changes, matches_prior, page_used, places_unmatched, reconcile_fails, records_run,
    run_fails, Reconciliation,
};
use crate::atlas::reconcile_laws::{
    holds_content, ids_below, is_ready_run, lemma_recorded_ids, lemma_recorded_interiors,
    lemma_recorded_origin, lemma_recorded_placed, lemma_recorded_relations,
    lemma_retained_continues, lemma_run_ids, slot_placed,
};
use crate::atlas::rect::{interior, CachedAtlasRect};
use crate::atlas::retain::{
    as_ints, claimed_groups, is_first_unretained, is_redrawn, is_retained_slot, promoted_before,
    redraws_page,
};
use crate::atlas::slot::{destination_within, reserved_size, slot_failure};
use crate::atlas::spots::{occupied_on, seeding_fails, seeding_pages_fails};
use crate::atlas::types::{
    AtlasSharedConfig, CachedAtlasFamily, CachedAtlasKeySlot, CachedAtlasSlot, UvBound,
};
use crate::atlas::uv::{
    binds_relation, binds_relations, is_last_relation, lemma_slot_position, relates_path,
    relation_resolves, slot_position,
};
use crate::sort::lemma_same_multiset;
use crate::text::{ascending, lemma_ascending_unique, text_lt, texts};
use vstd::prelude::*;

verus! {

/// The slot shows the content of the group.
pub open spec fn shows_group(slot: CachedAtlasSlot, group: PreparedAtlasGroup) -> bool {
    &&& slot.destination.width == group.item.w
    &&& slot.destination.height == group.item.h
    &&& slot.content_fingerprint == group.content_fingerprint
}

/// Slot `s` has the identity of the group and shows its content.
pub open spec fn is_slot_of(
    family: CachedAtlasFamily,
    groups: Seq<PreparedAtlasGroup>,
    ids: Seq<u64>,
    g: int,
    s: int,
) -> bool {
    &&& 0 <= s < family.slots@.len()
    &&& family.slots@[s].slot_id == ids[g]
    &&& shows_group(family.slots@[s], groups[g])
}

/// Some slot is that of the group.
pub open spec fn has_slot_of(
    family: CachedAtlasFamily,
    groups: Seq<PreparedAtlasGroup>,
    ids: Seq<u64>,
    g: int,
) -> bool {
    exists|s: int| #[trigger] is_slot_of(family, groups, ids, g, s)
}

/// The slots are in order: their identities ascend, they lie on pages with an interior, the last of
/// which is in use, their content stands where it belongs, and each holds its own provider.
pub open spec fn slots_in_order(family: CachedAtlasFamily, shared: AtlasSharedConfig) -> bool {
    &&& ids_valid(family.slots@, family.next_slot_id)
    &&& relations_valid(family.slots@, family.key_slots@)
    &&& family.pages@.len() == 0 || page_used(family.slots@, family.pages@.len() - 1)
    &&& forall|p: int|
        0 <= p < family.pages@.len() ==> interior(
            (#[trigger] family.pages@[p]).width,
            family.pages@[p].height,
            shared.border_padding,
        ) is Ok
    &&& forall|s: int|
        0 <= s < family.slots@.len() ==> slot_placed(
            #[trigger] family.slots@[s],
            family.pages@,
            shared,
        ) && holds_content(family.slots@[s], shared)
}

/// The items of all groups tell their source.
pub open spec fn all_sourced(groups: Seq<PreparedAtlasGroup>) -> bool {
    forall|g: int|
        0 <= g < groups.len() ==> (#[trigger] groups[g]).item.source is Some
            && groups[g].item.source_size is Some
}

/// The family stands for the groups: each has a slot of its own that shows its content, there are
/// no other slots, and the logical keys lead to the slots of their groups.
pub open spec fn stands_for(
    family: CachedAtlasFamily,
    groups: Seq<PreparedAtlasGroup>,
    shared: AtlasSharedConfig,
    ids: Seq<u64>,
) -> bool {
    &&& slots_in_order(family, shared)
    &&& ids.len() == groups.len()
    &&& ids.no_duplicates()
    &&& family.slots@.len() == groups.len()
    &&& forall|g: int| 0 <= g < groups.len() ==> #[trigger] has_slot_of(family, groups, ids, g)
    &&& relates_groups(groups, ids, family.key_slots@)
}

/// The slot of the group.
pub open spec fn slot_of(
    family: CachedAtlasFamily,
    groups: Seq<PreparedAtlasGroup>,
    ids: Seq<u64>,
    g: int,
) -> int {
    choose|s: int| #[trigger] is_slot_of(family, groups, ids, g, s)
}

/// A slot with the identity of the group is the slot of the group.
proof fn lemma_slot_of(
    family: CachedAtlasFamily,
    groups: Seq<PreparedAtlasGroup>,
    shared: AtlasSharedConfig,
    ids: Seq<u64>,
    g: int,
)
    requires
        stands_for(family, groups, shared, ids),
        0 <= g < groups.len(),
    ensures
        is_slot_of(family, groups, ids, g, slot_of(family, groups, ids, g)),
        forall|s: int|
            0 <= s < family.slots@.len() && (#[trigger] family.slots@[s]).slot_id == ids[g] ==> s
                == slot_of(family, groups, ids, g),
{
    assert(has_slot_of(family, groups, ids, g));
    let t = slot_of(family, groups, ids, g);
    assert forall|s: int|
        0 <= s < family.slots@.len() && (#[trigger] family.slots@[s]).slot_id == ids[g] implies s
        == t by {
        if s < t {
            assert(family.slots@[s].slot_id < family.slots@[t].slot_id);
        }
        if t < s {
            assert(family.slots@[t].slot_id < family.slots@[s].slot_id);
        }
    }
}

/// The paths of a slot ascend, and are those that are related to it.
proof fn lemma_slot_paths(key_slots: Seq<CachedAtlasKeySlot>, id: u64)
    requires
        ascending(relation_paths(key_slots)),
    ensures
        ascending(texts(paths_in_slot(key_slots, id))),
        forall|path: Seq<char>| #[trigger]
            texts(paths_in_slot(key_slots, id)).contains(path) <==> relates(key_slots, path, id),
    decreases key_slots.len(),
{
    let found = texts(paths_in_slot(key_slots, id));
    if key_slots.len() > 0 {
        let rest = key_slots.drop_last();
        let last = key_slots.last();
        let count = key_slots.len() - 1;
        assert forall|i: int, j: int| 0 <= i < j < rest.len() implies text_lt(
            #[trigger] relation_paths(rest)[i],
            #[trigger] relation_paths(rest)[j],
        ) by {
            assert(relation_paths(key_slots)[i] == relation_paths(rest)[i]);
            assert(relation_paths(key_slots)[j] == relation_paths(rest)[j]);
        }
        lemma_slot_paths(rest, id);
        let before = texts(paths_in_slot(rest, id));
        if last.slot_id == id {
            assert(found =~= before.push(last.path@));
            assert forall|i: int, j: int| 0 <= i < j < found.len() implies text_lt(
                #[trigger] found[i],
                #[trigger] found[j],
            ) by {
                if j == before.len() {
                    assert(before[i] == found[i]);
                    assert(before.contains(found[i]));
                    assert(relates(rest, found[i], id));
                    let k = choose|k: int|
                        0 <= k < rest.len() && (#[trigger] rest[k]).path@ == found[i]
                            && rest[k].slot_id == id;
                    assert(relation_paths(key_slots)[k] == found[i]);
                    assert(relation_paths(key_slots)[count] == last.path@);
                } else {
                    assert(before[i] == found[i] && before[j] == found[j]);
                }
            }
        } else {
            assert(found =~= before);
        }
        assert forall|path: Seq<char>| #[trigger] found.contains(path) <==> relates(
            key_slots,
            path,
            id,
        ) by {
            assert(before.contains(path) <==> relates(rest, path, id));
            if relates(rest, path, id) {
                let k = choose|k: int|
                    0 <= k < rest.len() && (#[trigger] rest[k]).path@ == path && rest[k].slot_id
                        == id;
                assert(key_slots[k].path@ == path);
                let i = choose|i: int| 0 <= i < before.len() && before[i] == path;
                assert(found[i] == path);
            }
            if last.slot_id == id && last.path@ == path {
                assert(key_slots[count].path@ == path);
                assert(found[before.len() as int] == path);
            }
            if relates(key_slots, path, id) && !(last.slot_id == id && last.path@ == path) {
                let k = choose|k: int|
                    0 <= k < key_slots.len() && (#[trigger] key_slots[k]).path@ == path
                        && key_slots[k].slot_id == id;
                assert(rest[k].path@ == path);
            }
            if found.contains(path) && !before.contains(path) {
                let i = choose|i: int| 0 <= i < found.len() && found[i] == path;
                assert(i == before.len());
            }
        }
    }
}

/// The paths of a group's slot are the logical keys of the group.
proof fn lemma_own_paths(
    family: CachedAtlasFamily,
    groups: Seq<PreparedAtlasGroup>,
    shared: AtlasSharedConfig,
    ids: Seq<u64>,
    g: int,
    h: int,
)
    requires
        groups_partition(groups),
        stands_for(family, groups, shared, ids),
        0 <= g < groups.len(),
        0 <= h < groups.len(),
    ensures
        ({
            let keys = texts(groups[g].logical_keys@);
            let paths = texts(paths_in_slot(family.key_slots@, ids[h]));
            &&& shared_count(keys, paths) <= keys.len()
            &&& shared_count(keys, paths) > 0 <==> g == h
        }),
{
    let keys = texts(groups[g].logical_keys@);
    let paths = texts(paths_in_slot(family.key_slots@, ids[h]));
    assert(is_group(groups[g]));
    lemma_slot_paths(family.key_slots@, ids[h]);
    lemma_shared_count(keys, paths);
    let both = keys.to_set().intersect(paths.to_set());
    keys.lemma_cardinality_of_set();
    vstd::set_lib::lemma_len_intersect(keys.to_set(), paths.to_set());
    if g == h {
        let key = keys[0];
        assert(groups[g].logical_keys@[0]@ == key);
        assert(lists_text(groups[g].logical_keys@, key));
        assert(group_relates(groups, ids, key, ids[g]));
        assert(relates(family.key_slots@, key, ids[g]));
        assert(paths.contains(key));
        assert(keys.contains(key));
        assert(both.contains(key));
        if both.len() == 0 {
            assert(both =~= Set::empty());
        }
    } else {
        assert forall|key: Seq<char>| !both.contains(key) by {
            if both.contains(key) {
                assert(keys.contains(key));
                assert(paths.contains(key));
                assert(relates(family.key_slots@, key, ids[h]));
                assert(group_relates(groups, ids, key, ids[h]));
                let o = choose|o: int|
                    0 <= o < groups.len() && lists_text(
                        (#[trigger] groups[o]).logical_keys@,
                        key,
                    ) && ids[o] == ids[h];
                assert(o == h);
                let i = choose|i: int| 0 <= i < keys.len() && keys[i] == key;
                assert(groups[g].logical_keys@[i]@ == key);
                assert(lists_text(groups[g].logical_keys@, key));
                assert(lists_text(groups[h].logical_keys@, key));
            }
        }
        assert(both =~= Set::empty());
    }
}

/// With as many slots as groups, an edge that retains a key is worth taking.
proof fn lemma_edge_pays(count: usize, edge: MatchEdge)
    requires
        edge.group < count,
        edge.slot < count,
        edge.weight > 0,
    ensures
        edge_cost(count, count, edge) < 0,
{
    let g = count as int;
    let scale = weight_scale(count, count);
    let tie = edge_tie(count, edge);
    assert(edge.slot * (g + 1) <= (g - 1) * (g + 1)) by (nonlinear_arith)
        requires
            edge.slot <= g - 1,
            g >= 1,
    ;
    assert((g - 1) * (g + 1) == g * (g + 1) - (g + 1)) by (nonlinear_arith);
    assert(tie < g * (g + 1));
    let bound = tie_bound(count, count);
    assert(pair_bound(count, count) == g);
    assert(g * (g + 1) <= (bound + 1) * g) by (nonlinear_arith)
        requires
            bound >= g,
            g >= 1,
    ;
    assert(scale > tie);
    assert(edge.weight * scale >= scale) by (nonlinear_arith)
        requires
            edge.weight >= 1,
            scale >= 0,
    ;
}

/// The edge from a group to its own slot.
spec fn own_edge(
    family: CachedAtlasFamily,
    groups: Seq<PreparedAtlasGroup>,
    ids: Seq<u64>,
    g: int,
) -> MatchEdge {
    MatchEdge {
        group: g as usize,
        slot: slot_of(family, groups, ids, g) as usize,
        weight: shared_count(
            texts(groups[g].logical_keys@),
            texts(paths_in_slot(family.key_slots@, ids[g])),
        ) as usize,
    }
}

/// The candidates are the groups with their own slots.
proof fn lemma_own_candidates(
    family: CachedAtlasFamily,
    groups: Seq<PreparedAtlasGroup>,
    shared: AtlasSharedConfig,
    ids: Seq<u64>,
    run: Reconciliation,
)
    requires
        groups.len() <= usize::MAX,
        groups_partition(groups),
        stands_for(family, groups, shared, ids),
        matches_prior(family, groups, shared, run),
    ensures
        forall|g: int|
            0 <= g < groups.len() ==> is_candidate(
                groups,
                family.slots@,
                run.prior_keys,
                shared,
                #[trigger] own_edge(family, groups, ids, g),
            ),
        forall|edge: MatchEdge| #[trigger]
            is_candidate(groups, family.slots@, run.prior_keys, shared, edge) ==> edge.slot
                == slot_of(family, groups, ids, edge.group as int),
{
    let slots = family.slots@;
    assert forall|g: int| 0 <= g < groups.len() implies is_candidate(
        groups,
        slots,
        run.prior_keys,
        shared,
        #[trigger] own_edge(family, groups, ids, g),
    ) by {
        lemma_slot_of(family, groups, shared, ids, g);
        lemma_own_paths(family, groups, shared, ids, g, g);
        let s = slot_of(family, groups, ids, g);
        assert(run.prior_keys[s]@ == paths_in_slot(family.key_slots@, slots[s].slot_id));
        assert(texts(groups[g].logical_keys@).len() == groups[g].logical_keys.len());
        assert(holds_content(slots[s], shared));
        assert(reserved_size(groups[g].item.w, groups[g].item.h, shared) is Ok);
    }
    assert forall|edge: MatchEdge| #[trigger]
        is_candidate(groups, slots, run.prior_keys, shared, edge) implies edge.slot == slot_of(
        family,
        groups,
        ids,
        edge.group as int,
    ) by {
        let s = edge.slot as int;
        let h = lemma_group_of_slot(family, groups, shared, ids, s);
        assert(run.prior_keys[s]@ == paths_in_slot(family.key_slots@, slots[s].slot_id));
        lemma_own_paths(family, groups, shared, ids, edge.group as int, h);
        lemma_slot_of(family, groups, shared, ids, h);
    }
}

/// Every slot is that of a group.
proof fn lemma_group_of_slot(
    family: CachedAtlasFamily,
    groups: Seq<PreparedAtlasGroup>,
    shared: AtlasSharedConfig,
    ids: Seq<u64>,
    s: int,
) -> (g: int)
    requires
        stands_for(family, groups, shared, ids),
        0 <= s < family.slots@.len(),
    ensures
        0 <= g < groups.len(),
        ids[g] == family.slots@[s].slot_id,
        lists_text(groups[g].logical_keys@, family.slots@[s].provider_key@),
{
    let slot = family.slots@[s];
    assert(relates(family.key_slots@, slot.provider_key@, slot.slot_id));
    assert(group_relates(groups, ids, slot.provider_key@, slot.slot_id));
    choose|g: int|
        0 <= g < groups.len() && lists_text(
            (#[trigger] groups[g]).logical_keys@,
            slot.provider_key@,
        ) && ids[g] == slot.slot_id
}

/// Matched again, every group gets the slot that it has.
pub proof fn lemma_again_claims_own(
    family: CachedAtlasFamily,
    groups: Seq<PreparedAtlasGroup>,
    shared: AtlasSharedConfig,
    ids: Seq<u64>,
    run: Reconciliation,
)
    requires
        groups.len() <= usize::MAX,
        groups_partition(groups),
        stands_for(family, groups, shared, ids),
        matches_prior(family, groups, shared, run),
    ensures
        forall|g: int|
            0 <= g < groups.len() ==> #[trigger] run.claims[g] == Some(
                slot_of(family, groups, ids, g) as usize,
            ),
{
    lemma_own_candidates(family, groups, shared, ids, run);
    let slots = family.slots@;
    let count = groups.len() as usize;
    let (edges, chosen) = choose|edges: Seq<MatchEdge>, chosen: Seq<MatchEdge>|
        {
            &&& lists_candidates(groups, slots, run.prior_keys, shared, edges)
            &&& #[trigger] is_cheapest_matching(
                groups.len() as usize,
                slots.len() as usize,
                edges,
                chosen,
            )
            &&& lists_pairs(chosen, run.pairs)
        };
    assert forall|g: int| 0 <= g < groups.len() implies #[trigger] run.claims[g] == Some(
        slot_of(family, groups, ids, g) as usize,
    ) by {
        let own = own_edge(family, groups, ids, g);
        assert(is_candidate(groups, slots, run.prior_keys, shared, own));
        assert(edges.contains(own));
        lemma_slot_of(family, groups, shared, ids, g);
        if forall|k: int| 0 <= k < chosen.len() ==> (#[trigger] chosen[k]).group != g {
            let other = chosen.push(own);
            assert forall|i: int| 0 <= i < other.len() implies edges.contains(
                #[trigger] other[i],
            ) by {
                if i < chosen.len() {
                    assert(other[i] == chosen[i]);
                }
            }
            assert forall|i: int, j: int| 0 <= i < j < other.len() implies (
            #[trigger] other[i]).group != (#[trigger] other[j]).group && other[i].slot
                != other[j].slot by {
                assert(other[i] == chosen[i]);
                if j < chosen.len() {
                    assert(other[j] == chosen[j]);
                } else {
                    assert(edges.contains(chosen[i]));
                    assert(is_candidate(groups, slots, run.prior_keys, shared, chosen[i]));
                    let h = chosen[i].group as int;
                    lemma_slot_of(family, groups, shared, ids, h);
                    assert(h != g);
                    assert(ids[h] != ids[g]);
                }
            }
            assert(is_matching(edges, other));
            assert(other.drop_last() =~= chosen);
            lemma_edge_pays(count, own);
            assert(matching_cost(count, count, other) < matching_cost(count, count, chosen));
        }
        let k = choose|k: int| 0 <= k < chosen.len() && (#[trigger] chosen[k]).group == g;
        assert(edges.contains(chosen[k]));
        assert(is_candidate(groups, slots, run.prior_keys, shared, chosen[k]));
        assert(run.pairs.contains((chosen[k].group, chosen[k].slot)));
        assert(run.pairs.contains((g as usize, chosen[k].slot)));
    }
}

// ---------------------------------------------------------------------------------------------
// What reconciling leaves
// ---------------------------------------------------------------------------------------------

/// A slot of a run shows the content of the group that owns it.
proof fn lemma_run_shows(
    prior: CachedAtlasFamily,
    groups: Seq<PreparedAtlasGroup>,
    shared: AtlasSharedConfig,
    run: Reconciliation,
    i: int,
)
    requires
        groups.len() <= usize::MAX,
        is_run(prior, groups, shared, run),
        0 <= i < all_slots(run).len(),
    ensures
        0 <= all_owners(groups, run)[i] < groups.len(),
        shows_group(all_slots(run)[i], groups[all_owners(groups, run)[i]]),
{
    let a = run.retained.slots@.len() as int;
    let b = a + run.filled.slots@.len();
    let owners = all_owners(groups, run);
    assert(owners.contains(owners[i]));
    if i < a {
        assert(all_slots(run)[i] == run.retained.slots@[i]);
        lemma_retained_continues(prior, groups, shared, run, i);
    } else if i < b {
        assert(all_slots(run)[i] == run.filled.slots@[i - a]);
        assert(owners[i] == run.filled.taken@[i - a].0);
    } else {
        let k = i - b;
        assert(all_slots(run)[i] == run.appended.slots[k]);
        let g = group_of_item(groups, run.appended.captured[k].frame.key@);
        assert(owners[i] == g);
        assert(places_group(run.appended.captured, groups, k, g));
        let frame = run.appended.captured[k].frame;
        let record = placed_record(frame_view(frame));
        assert(record == filled_item(item_view(groups[g].item)));
        assert(record.w == groups[g].item.w && record.h == groups[g].item.h);
    }
}

/// A reconciled family stands for its groups.
pub proof fn lemma_reconciled_stands_for<F: Fn(u32, u32) -> u32>(
    ratio: F,
    prior: CachedAtlasFamily,
    groups: Seq<PreparedAtlasGroup>,
    shared: AtlasSharedConfig,
    run: Reconciliation,
    family: CachedAtlasFamily,
    bindings: Map<Seq<char>, (usize, UvBound)>,
)
    requires
        is_ready_run(prior, groups, shared, run),
        ids_below(prior),
        records_run(ratio, prior, groups, run, family, bindings),
    ensures
        stands_for(family, groups, shared, run.ids),
{
    lemma_recorded_ids(ratio, prior, groups, shared, run, family, bindings);
    lemma_recorded_relations(ratio, prior, groups, shared, run, family, bindings);
    lemma_recorded_placed(ratio, prior, groups, shared, run, family, bindings);
    lemma_recorded_interiors(ratio, prior, groups, shared, run, family, bindings);
    let ids = run.ids;
    let owners = all_owners(groups, run);
    let all = all_slots(run);
    let slots = family.slots@;
    lemma_same_multiset(slots, all);
    owners.unique_seq_to_set();
    let numbers = vstd::set_lib::set_int_range(0, groups.len() as int);
    vstd::set_lib::lemma_int_range(0, groups.len() as int);
    assert(owners.to_set() =~= numbers) by {
        assert forall|g: int| owners.to_set().contains(g) <==> numbers.contains(g) by {
            assert(owners.contains(g) <==> 0 <= g < groups.len());
        }
    }
    assert forall|g: int, h: int| 0 <= g < h < ids.len() implies ids[g] != ids[h] by {
        assert(owners.contains(g) && owners.contains(h));
        let i = choose|i: int| 0 <= i < owners.len() && owners[i] == g;
        let j = choose|j: int| 0 <= j < owners.len() && owners[j] == h;
        if i < j {
            lemma_run_ids(prior, groups, shared, run, family.next_slot_id, i, j);
        } else {
            lemma_run_ids(prior, groups, shared, run, family.next_slot_id, j, i);
        }
    }
    assert forall|g: int| 0 <= g < groups.len() implies #[trigger] has_slot_of(
        family,
        groups,
        ids,
        g,
    ) by {
        assert(owners.contains(g));
        let i = choose|i: int| 0 <= i < owners.len() && owners[i] == g;
        lemma_run_shows(prior, groups, shared, run, i);
        assert(all.contains(all[i]));
        assert(slots.contains(all[i]));
        let s = choose|s: int| 0 <= s < slots.len() && slots[s] == all[i];
        assert(is_slot_of(family, groups, ids, g, s));
    }
}

// ---------------------------------------------------------------------------------------------
// Reconciling again
// ---------------------------------------------------------------------------------------------

/// Strictly ascending numbers of the same length, all of the one among the other, are the same.
proof fn lemma_ascending_numbers(a: Seq<u64>, b: Seq<u64>)
    requires
        a.len() == b.len(),
        forall|i: int, j: int| 0 <= i < j < a.len() ==> #[trigger] a[i] < #[trigger] a[j],
        forall|i: int, j: int| 0 <= i < j < b.len() ==> #[trigger] b[i] < #[trigger] b[j],
        forall|i: int| 0 <= i < a.len() ==> b.contains(#[trigger] a[i]),
    ensures
        a == b,
    decreases a.len(),
{
    if a.len() > 0 {
        let n = a.len() - 1;
        let x = a.drop_last();
        let y = b.drop_last();
        assert(b.contains(a[n]));
        let last = choose|j: int| 0 <= j < b.len() && b[j] == a[n];
        assert forall|i: int| 0 <= i < x.len() implies y.contains(#[trigger] x[i]) by {
            assert(b.contains(a[i]));
            let j = choose|j: int| 0 <= j < b.len() && b[j] == a[i];
            assert(a[i] < a[n]);
            if j == n {
                if last < n {
                    assert(b[last] < b[n]);
                }
            }
            assert(y[j] == x[i]);
        }
        lemma_ascending_numbers(x, y);
        if last < n {
            assert(x[last] == y[last]);
            assert(a[last] < a[n]);
        }
        assert(last == n);
        assert forall|i: int| 0 <= i < a.len() implies a[i] == b[i] by {
            if i < n {
                assert(x[i] == y[i]);
            }
        }
        assert(a =~= b);
    }
}

/// The slot is where the other is, and shows what it shows.
pub open spec fn same_place(a: CachedAtlasSlot, b: CachedAtlasSlot) -> bool {
    &&& a.slot_id == b.slot_id
    &&& a.page_id == b.page_id
    &&& a.reserved_rect == b.reserved_rect
    &&& a.destination == b.destination
    &&& a.provider_key@ == b.provider_key@
    &&& a.content_fingerprint == b.content_fingerprint
}

/// A second run keeps every slot, where it is and with what it shows.
proof fn lemma_again_keeps(
    family: CachedAtlasFamily,
    groups: Seq<PreparedAtlasGroup>,
    shared: AtlasSharedConfig,
    ids: Seq<u64>,
    run: Reconciliation,
)
    requires
        groups.len() <= usize::MAX,
        groups_partition(groups),
        stands_for(family, groups, shared, ids),
        matches_prior(family, groups, shared, run),
        keeps_matched(family, groups, shared, run),
    ensures
        run.retained.slots@.len() == groups.len(),
        run.retained.kept@.len() == groups.len(),
        forall|g: int| 0 <= g < groups.len() ==> #[trigger] run.retained.kept@[g] == g,
        forall|g: int|
            0 <= g < groups.len() ==> same_place(
                #[trigger] run.retained.slots@[g],
                family.slots@[slot_of(family, groups, ids, g)],
            ) && !is_redrawn(
                family.slots@[slot_of(family, groups, ids, g)],
                run.retained.slots@[g],
            ) && lists_text(
                groups[g].logical_keys@,
                family.slots@[slot_of(family, groups, ids, g)].provider_key@,
            ),
{
    lemma_again_claims_own(family, groups, shared, ids, run);
    lemma_all_claimed(run.claims, groups.len() as int);
    let kept = run.retained.kept@;
    let all = Seq::new(groups.len(), |g: int| g);
    assert(as_ints(kept) == all);
    assert(as_ints(kept).len() == kept.len());
    assert forall|g: int| 0 <= g < kept.len() implies #[trigger] kept[g] == g by {
        assert(as_ints(kept)[g] == all[g]);
    }
    let slots = run.retained.slots@;
    assert forall|g: int| 0 <= g < groups.len() implies same_place(
        #[trigger] slots[g],
        family.slots@[slot_of(family, groups, ids, g)],
    ) && !is_redrawn(family.slots@[slot_of(family, groups, ids, g)], slots[g]) && lists_text(
        groups[g].logical_keys@,
        family.slots@[slot_of(family, groups, ids, g)].provider_key@,
    ) by {
        let s = slot_of(family, groups, ids, g);
        lemma_slot_of(family, groups, shared, ids, g);
        let old = family.slots@[s];
        assert(run.claims[kept[g] as int] == Some(s as usize));
        assert(is_retained_slot(old, groups[g], shared, slots[g]));
        let h = lemma_group_of_slot(family, groups, shared, ids, s);
        assert(h == g);
        assert(holds_content(old, shared));
        assert(destination_within(old.reserved_rect, groups[g].item.w, groups[g].item.h, shared)
            == Ok::<CachedAtlasRect, AtlasError>(slots[g].destination));
        assert(slots[g].destination == old.destination);
    }
}

/// A second run retains every slot, where it is and with what it shows, and makes no new one.
proof fn lemma_again_retains(
    family: CachedAtlasFamily,
    groups: Seq<PreparedAtlasGroup>,
    shared: AtlasSharedConfig,
    ids: Seq<u64>,
    run: Reconciliation,
)
    requires
        groups.len() <= usize::MAX,
        groups_partition(groups),
        stands_for(family, groups, shared, ids),
        is_run(family, groups, shared, run),
    ensures
        run.order.len() == 0,
        run.filled.slots@.len() == 0,
        run.appended.slots.len() == 0,
        run.appended.pages.len() == 0,
        run.retained.slots@.len() == groups.len(),
        all_slots(run) == run.retained.slots@,
        run.retained.touched@.len() == 0,
        run.retained.promoted == 0,
        run.ids == ids,
        forall|g: int|
            0 <= g < groups.len() ==> same_place(
                #[trigger] run.retained.slots@[g],
                family.slots@[slot_of(family, groups, ids, g)],
            ),
{
    lemma_again_claims_own(family, groups, shared, ids, run);
    if run.order.len() > 0 {
        assert(run.order.contains(run.order[0]));
        assert(run.claims[run.order[0] as int] is None);
    }
    assert(run.filled.taken@.len() == 0);
    assert(run.filled.unplaced@.len() == 0);
    lemma_again_keeps(family, groups, shared, ids, run);
    let kept = run.retained.kept@;
    let slots = run.retained.slots@;
    assert forall|g: int| 0 <= g < groups.len() implies ((#[trigger] run.claims[g]) matches Some(
        s,
    ) ==> lists_text(groups[g].logical_keys@, family.slots@[s as int].provider_key@)) by {
        lemma_slot_of(family, groups, shared, ids, g);
        assert(same_place(slots[g], family.slots@[slot_of(family, groups, ids, g)]));
    }
    lemma_none_promoted(family.slots@, groups, run.claims, groups.len() as int);
    if run.retained.touched@.len() > 0 {
        let page = run.retained.touched@[0];
        assert(run.retained.touched@.contains(page));
        assert(redraws_page(family.slots@, run.claims, kept, slots, page));
        let i = choose|i: int|
            {
                &&& 0 <= i < slots.len()
                &&& (#[trigger] slots[i]).page_id == page
                &&& is_redrawn(family.slots@[run.claims[kept[i] as int]->0 as int], slots[i])
            };
        assert(kept[i] == i);
        lemma_slot_of(family, groups, shared, ids, i);
        let s = slot_of(family, groups, ids, i);
        assert(run.claims[i] == Some(s as usize));
        assert(same_place(slots[i], family.slots@[s]));
        assert(!is_redrawn(family.slots@[s], slots[i]));
    }
    assert(all_slots(run) =~= slots);
    let owners = all_owners(groups, run);
    assert forall|g: int| 0 <= g < ids.len() implies run.ids[g] == #[trigger] ids[g] by {
        assert(owners[g] == kept[g] as int);
        assert(run.ids[owners[g]] == all_slots(run)[g].slot_id);
        lemma_slot_of(family, groups, shared, ids, g);
        assert(same_place(slots[g], family.slots@[slot_of(family, groups, ids, g)]));
    }
    assert(run.ids =~= ids);
}

proof fn lemma_all_claimed(claims: Seq<Option<usize>>, end: int)
    requires
        0 <= end <= claims.len(),
        forall|g: int| 0 <= g < end ==> (#[trigger] claims[g]) is Some,
    ensures
        claimed_groups(claims, end) == Seq::new(end as nat, |g: int| g),
    decreases end,
{
    if end > 0 {
        lemma_all_claimed(claims, end - 1);
    }
    assert(claimed_groups(claims, end) =~= Seq::new(end as nat, |g: int| g));
}

proof fn lemma_none_promoted(
    slots: Seq<CachedAtlasSlot>,
    groups: Seq<PreparedAtlasGroup>,
    claims: Seq<Option<usize>>,
    end: int,
)
    requires
        forall|g: int|
            0 <= g < end ==> ((#[trigger] claims[g]) matches Some(s) ==> lists_text(
                groups[g].logical_keys@,
                slots[s as int].provider_key@,
            )),
    ensures
        promoted_before(slots, groups, claims, end) == 0,
    decreases end,
{
    if end > 0 {
        lemma_none_promoted(slots, groups, claims, end - 1);
    }
}

/// Ascending identities lie below the next one.
proof fn lemma_ids_below(family: CachedAtlasFamily)
    requires
        ids_valid(family.slots@, family.next_slot_id),
    ensures
        ids_below(family),
{
    assert forall|s: int| 0 <= s < family.slots@.len() implies (
    #[trigger] family.slots@[s]).slot_id < family.next_slot_id by {
        let last = family.slots@.len() - 1;
        if s < last {
            assert(family.slots@[s].slot_id < family.slots@[last].slot_id);
        }
    }
}

/// What a second run records has the pages of the family, and its slots one for one.
proof fn lemma_again_records<F: Fn(u32, u32) -> u32>(
    ratio: F,
    family: CachedAtlasFamily,
    groups: Seq<PreparedAtlasGroup>,
    shared: AtlasSharedConfig,
    ids: Seq<u64>,
    run: Reconciliation,
    cache: CachedAtlasFamily,
    bindings: Map<Seq<char>, (usize, UvBound)>,
)
    requires
        groups.len() <= usize::MAX,
        groups_partition(groups),
        stands_for(family, groups, shared, ids),
        is_run(family, groups, shared, run),
        records_run(ratio, family, groups, run, cache, bindings),
    ensures
        cache.pages@ == family.pages@,
        cache.slots@.len() == family.slots@.len(),
        forall|s: int|
            0 <= s < family.slots@.len() ==> same_place(
                #[trigger] cache.slots@[s],
                family.slots@[s],
            ),
{
    lemma_again_retains(family, groups, shared, ids, run);
    let slots = cache.slots@;
    assert(family.pages@.len() == family.pages.len());
    assert(page_sizes(run.appended.pages) =~= Seq::empty());
    assert(all_pages(family, run) =~= family.pages@);
    lemma_ids_below(family);
    lemma_recorded_ids(ratio, family, groups, shared, run, cache, bindings);
    lemma_same_multiset(slots, all_slots(run));
    // The slots are the old ones, one for one.
    assert forall|s: int| 0 <= s < slots.len() implies has_old_slot(
        family,
        #[trigger] slots[s],
    ) by {
        let g = lemma_recorded_origin(ratio, family, groups, shared, run, cache, bindings, s);
        lemma_slot_of(family, groups, shared, ids, g);
        let t = slot_of(family, groups, ids, g);
        assert(same_place(run.retained.slots@[g], family.slots@[t]));
        assert(same_place(slots[s], family.slots@[t]));
    }
    let a = Seq::new(slots.len(), |s: int| slots[s].slot_id);
    let b = Seq::new(family.slots@.len(), |s: int| family.slots@[s].slot_id);
    assert forall|i: int| 0 <= i < a.len() implies b.contains(#[trigger] a[i]) by {
        assert(has_old_slot(family, slots[i]));
        let t = choose|t: int|
            0 <= t < family.slots@.len() && same_place(slots[i], #[trigger] family.slots@[t]);
        assert(b[t] == a[i]);
    }
    lemma_ascending_numbers(a, b);
    assert forall|s: int| 0 <= s < family.slots@.len() implies same_place(
        #[trigger] slots[s],
        family.slots@[s],
    ) by {
        assert(has_old_slot(family, slots[s]));
        let t = choose|t: int|
            0 <= t < family.slots@.len() && same_place(slots[s], #[trigger] family.slots@[t]);
        assert(a[s] == b[s]);
        if t < s {
            assert(family.slots@[t].slot_id < family.slots@[s].slot_id);
        }
        if s < t {
            assert(family.slots@[s].slot_id < family.slots@[t].slot_id);
        }
    }
    // The last page is still in use.
    if cache.pages@.len() < family.pages@.len() {
        let last = family.pages@.len() - 1;
        assert(page_used(family.slots@, last));
        let s = choose|s: int|
            0 <= s < family.slots@.len() && (#[trigger] family.slots@[s]).page_id == last;
        assert(same_place(slots[s], family.slots@[s]));
        assert(slots[s].page_id == last);
        assert(page_used(slots, last));
    }
    assert(cache.pages@ =~= family.pages@);
}

/// The family is left as it is: every slot is retained where it is, none is made, freed or moved, no
/// page is composed, appended or dropped, and the keys lead where they led.
pub open spec fn leaves_as_is(
    family: CachedAtlasFamily,
    groups: Seq<PreparedAtlasGroup>,
    again: AllocatedAtlasFamily,
) -> bool {
    let stats = again.stats;
    let cache = again.cache;
    &&& stats.retained_slots == groups.len()
    &&& stats.allocated_slots == 0
    &&& stats.freed_slots == 0
    &&& stats.relocated_slots == 0
    &&& stats.provider_promoted_slots == 0
    &&& stats.appended_pages == 0
    &&& stats.truncated_pages == 0
    &&& forall|p: int| 0 <= p < again.pages@.len() ==> !(#[trigger] again.pages@[p]).dirty
    &&& cache.pages@ == family.pages@
    &&& cache.next_slot_id == family.next_slot_id
    &&& cache.slots@.len() == family.slots@.len()
    &&& forall|s: int|
        0 <= s < family.slots@.len() ==> same_place(
            #[trigger] cache.slots@[s],
            family.slots@[s],
        )
    &&& relation_paths(cache.key_slots@) == relation_paths(family.key_slots@)
    &&& cache.key_slots@.len() == family.key_slots@.len()
    &&& forall|k: int|
        0 <= k < family.key_slots@.len() ==> (#[trigger] cache.key_slots@[k]).slot_id
            == family.key_slots@[k].slot_id
}

/// Reconciling a family again with the groups that it stands for changes nothing: every slot is
/// retained where it is, none is made, freed or moved, no page is composed, appended or dropped, and
/// the keys lead and are bound where they were.
pub proof fn lemma_reconcile_again<F: Fn(u32, u32) -> u32>(
    ratio: F,
    family: CachedAtlasFamily,
    groups: Seq<PreparedAtlasGroup>,
    shared: AtlasSharedConfig,
    ids: Seq<u64>,
    run: Reconciliation,
    again: AllocatedAtlasFamily,
)
    requires
        groups.len() <= usize::MAX,
        groups_partition(groups),
        stands_for(family, groups, shared, ids),
        is_reconciled(ratio, family, groups, shared, run, again),
    ensures
        leaves_as_is(family, groups, again),
        binds_relations(
            ratio,
            family.pages@,
            family.slots@,
            family.key_slots@,
            again.bindings@,
        ),
        forall|bindings: Map<Seq<char>, (usize, UvBound)>|
            single_valued(ratio) && #[trigger] binds_relations(
                ratio,
                family.pages@,
                family.slots@,
                family.key_slots@,
                bindings,
            ) ==> again.bindings@ == bindings,
{
    lemma_again_retains(family, groups, shared, ids, run);
    let cache = again.cache;
    lemma_again_records(ratio, family, groups, shared, ids, run, cache, again.bindings@);
    // No page changed.
    let marks = choose|marks: Seq<bool>|
        {
            &&& marks.len() == cache.pages@.len()
            &&& #[trigger] marks_changes(
                run.retained.touched@,
                run.filled.slots@,
                run.appended.slots,
                marks,
            )
            &&& describes_pages(cache, marks, again.pages@)
        };
    assert forall|p: int| 0 <= p < again.pages@.len() implies !(#[trigger] again.pages@[p]).dirty by {
        assert(as_ints(run.retained.touched@).len() == 0);
        assert(!is_changed_page(
            run.retained.touched@,
            run.filled.slots@,
            run.appended.slots,
            p,
        ));
        assert(again.pages@[p].dirty == is_marked(marks, p));
    }
    lemma_same_relations(groups, ids, cache.key_slots@, family.key_slots@);
    lemma_same_bindings(ratio, cache, family, again.bindings@);
    assert forall|bindings: Map<Seq<char>, (usize, UvBound)>|
        single_valued(ratio) && #[trigger] binds_relations(
            ratio,
            family.pages@,
            family.slots@,
            family.key_slots@,
            bindings,
        ) implies again.bindings@ == bindings by {
        lemma_bindings_determined(
            ratio,
            family.pages@,
            family.slots@,
            family.key_slots@,
            again.bindings@,
            bindings,
        );
    }
}

/// Bindings rest on the identities, pages and destinations of the slots alone.
proof fn lemma_same_bindings<F: Fn(u32, u32) -> u32>(
    ratio: F,
    a: CachedAtlasFamily,
    b: CachedAtlasFamily,
    bindings: Map<Seq<char>, (usize, UvBound)>,
)
    requires
        binds_relations(ratio, a.pages@, a.slots@, a.key_slots@, bindings),
        a.pages@ == b.pages@,
        a.slots@.len() == b.slots@.len(),
        forall|s: int| 0 <= s < b.slots@.len() ==> same_place(#[trigger] a.slots@[s], b.slots@[s]),
        relation_paths(a.key_slots@) == relation_paths(b.key_slots@),
        a.key_slots@.len() == b.key_slots@.len(),
        forall|k: int|
            0 <= k < b.key_slots@.len() ==> (#[trigger] a.key_slots@[k]).slot_id
                == b.key_slots@[k].slot_id,
    ensures
        binds_relations(ratio, b.pages@, b.slots@, b.key_slots@, bindings),
{
    let x = a.key_slots@;
    let y = b.key_slots@;
    assert forall|k: int| 0 <= k < y.len() implies (#[trigger] x[k]).path@ == y[k].path@ by {
        assert(relation_paths(x)[k] == relation_paths(y)[k]);
    }
    assert forall|path: Seq<char>| #[trigger] relates_path(x, path) <==> relates_path(y, path) by {
        if relates_path(x, path) {
            let k = choose|k: int| 0 <= k < x.len() && (#[trigger] x[k]).path@ == path;
            assert(y[k].path@ == path);
        }
        if relates_path(y, path) {
            let k = choose|k: int| 0 <= k < y.len() && (#[trigger] y[k]).path@ == path;
            assert(x[k].path@ == path);
        }
    }
    assert forall|path: Seq<char>| #[trigger] bindings.dom().contains(path) <==> relates_path(
        y,
        path,
    ) by {
        assert(relates_path(x, path) <==> relates_path(y, path));
    }
    assert forall|k: int| 0 <= k < y.len() implies relation_resolves(
        b.pages@,
        b.slots@,
        #[trigger] y[k],
    ) by {
        assert(relation_resolves(a.pages@, a.slots@, x[k]));
        lemma_same_position(a.slots@, b.slots@, y[k].slot_id);
        lemma_slot_position(b.slots@, y[k].slot_id);
    }
    assert forall|k: int| 0 <= k < y.len() && is_last_relation(y, k) implies binds_relation(
        ratio,
        b.pages@,
        b.slots@,
        #[trigger] y[k],
        bindings[y[k].path@],
    ) by {
        assert(x[k].path@ == y[k].path@);
        assert(is_last_relation(x, k)) by {
            assert forall|j: int| k < j < x.len() implies (#[trigger] x[j]).path@ != x[k].path@ by {
                assert(y[j].path@ != y[k].path@);
            }
        }
        assert(relation_resolves(a.pages@, a.slots@, x[k]));
        assert(binds_relation(ratio, a.pages@, a.slots@, x[k], bindings[x[k].path@]));
        lemma_same_position(a.slots@, b.slots@, y[k].slot_id);
        lemma_slot_position(b.slots@, y[k].slot_id);
    }
}

proof fn lemma_same_position(a: Seq<CachedAtlasSlot>, b: Seq<CachedAtlasSlot>, id: u64)
    requires
        a.len() == b.len(),
        forall|s: int| 0 <= s < b.len() ==> same_place(#[trigger] a[s], b[s]),
    ensures
        slot_position(a, id) == slot_position(b, id),
    decreases a.len(),
{
    if a.len() > 0 {
        assert(same_place(a[a.len() - 1], b[a.len() - 1]));
        assert forall|s: int| 0 <= s < b.drop_last().len() implies same_place(
            #[trigger] a.drop_last()[s],
            b.drop_last()[s],
        ) by {
            assert(same_place(a[s], b[s]));
        }
        lemma_same_position(a.drop_last(), b.drop_last(), id);
    }
}

/// The slot is where some slot of the family is.
spec fn has_old_slot(family: CachedAtlasFamily, slot: CachedAtlasSlot) -> bool {
    exists|t: int| 0 <= t < family.slots@.len() && same_place(slot, #[trigger] family.slots@[t])
}

/// Groups with identities give one relation.
proof fn lemma_same_relations(
    groups: Seq<PreparedAtlasGroup>,
    ids: Seq<u64>,
    a: Seq<CachedAtlasKeySlot>,
    b: Seq<CachedAtlasKeySlot>,
)
    requires
        relates_groups(groups, ids, a),
        relates_groups(groups, ids, b),
    ensures
        relation_paths(a) == relation_paths(b),
        a.len() == b.len(),
        forall|k: int| 0 <= k < b.len() ==> (#[trigger] a[k]).slot_id == b[k].slot_id,
{
    let x = relation_paths(a);
    let y = relation_paths(b);
    assert forall|path: Seq<char>| #[trigger] x.contains(path) <==> y.contains(path) by {
        if x.contains(path) {
            let k = choose|k: int| 0 <= k < x.len() && x[k] == path;
            assert(relates(a, path, a[k].slot_id));
            assert(group_relates(groups, ids, path, a[k].slot_id));
            assert(relates(b, path, a[k].slot_id));
            let j = choose|j: int|
                0 <= j < b.len() && (#[trigger] b[j]).path@ == path && b[j].slot_id
                    == a[k].slot_id;
            assert(y[j] == path);
        }
        if y.contains(path) {
            let k = choose|k: int| 0 <= k < y.len() && y[k] == path;
            assert(relates(b, path, b[k].slot_id));
            assert(group_relates(groups, ids, path, b[k].slot_id));
            assert(relates(a, path, b[k].slot_id));
            let j = choose|j: int|
                0 <= j < a.len() && (#[trigger] a[j]).path@ == path && a[j].slot_id
                    == b[k].slot_id;
            assert(x[j] == path);
        }
    }
    lemma_ascending_unique(x, y);
    assert(x.len() == a.len() && y.len() == b.len());
    assert forall|k: int| 0 <= k < b.len() implies (#[trigger] a[k]).slot_id == b[k].slot_id by {
        assert(x[k] == a[k].path@ && y[k] == b[k].path@);
        assert(relates(a, a[k].path@, a[k].slot_id));
        assert(group_relates(groups, ids, a[k].path@, a[k].slot_id));
        assert(relates(b, a[k].path@, a[k].slot_id));
        let j = choose|j: int|
            0 <= j < b.len() && (#[trigger] b[j]).path@ == a[k].path@ && b[j].slot_id
                == a[k].slot_id;
        assert(y[j] == y[k]);
        if j < k {
            assert(text_lt(y[j], y[k]));
        }
        if k < j {
            assert(text_lt(y[k], y[j]));
        }
    }
}

// ---------------------------------------------------------------------------------------------
// No failure
// ---------------------------------------------------------------------------------------------

/// The scores by which the groups are matched with as many slots can be represented.
pub open spec fn can_score(groups: Seq<PreparedAtlasGroup>) -> bool {
    let count = groups.len() as usize;
    let scale = weight_scale(count, count);
    &&& count * (count + 1) <= usize::MAX
    &&& scale <= i128::MAX
    &&& forall|g: int|
        0 <= g < groups.len() ==> (count + count + 2) * (
        (#[trigger] groups[g]).logical_keys@.len() * scale + tie_bound(count, count)) < i128::MAX
}

/// The groups are measured, and what they share with their slots can be scored.
proof fn lemma_again_scores(
    family: CachedAtlasFamily,
    groups: Seq<PreparedAtlasGroup>,
    shared: AtlasSharedConfig,
    ids: Seq<u64>,
    prior_keys: Seq<Vec<String>>,
    error: AtlasError,
)
    requires
        groups.len() <= usize::MAX,
        groups_partition(groups),
        can_score(groups),
        stands_for(family, groups, shared, ids),
        lists_prior_keys(family, prior_keys),
    ensures
        !matching_fails(groups, family.slots@, prior_keys, shared, error),
{
    let slots = family.slots@;
    let count = groups.len() as usize;
    let scale = weight_scale(count, count);
    assert forall|g: int| 0 <= g < groups.len() implies reserved_size(
        (#[trigger] groups[g]).item.w,
        groups[g].item.h,
        shared,
    ) is Ok by {
        lemma_slot_of(family, groups, shared, ids, g);
        assert(holds_content(slots[slot_of(family, groups, ids, g)], shared));
    }
    assert forall|edges: Seq<MatchEdge>|
        lists_candidates(groups, slots, prior_keys, shared, edges) implies #[trigger] scores_fit(
        count,
        slots.len() as usize,
        edges,
    ) by {
        assert forall|i: int| 0 <= i < edges.len() implies edge_tie(count, #[trigger] edges[i])
            <= usize::MAX && (count + count + 2) * (edges[i].weight * scale + tie_bound(
            count,
            count,
        )) < i128::MAX by {
            let edge = edges[i];
            assert(edges.contains(edge));
            assert(is_candidate(groups, slots, prior_keys, shared, edge));
            let g = edge.group as int;
            let s = edge.slot as int;
            let h = lemma_group_of_slot(family, groups, shared, ids, s);
            assert(slot_has_keys(family, s));
            assert(prior_keys[s]@ == paths_in_slot(family.key_slots@, slots[s].slot_id));
            lemma_own_paths(family, groups, shared, ids, g, h);
            let most = groups[g].logical_keys@.len();
            assert(texts(groups[g].logical_keys@).len() == most);
            assert(edge.weight <= most);
            assert(s * (count + 1) + g <= count * (count + 1)) by (nonlinear_arith)
                requires
                    s + 1 <= count,
                    0 <= g < count,
            ;
            let tie = tie_bound(count, count);
            assert(scale >= 0) by {
                assert((tie + 1) * pair_bound(count, count) >= 0) by (nonlinear_arith)
                    requires
                        tie >= 0,
                        pair_bound(count, count) >= 0,
                ;
            }
            assert((count + count + 2) * (edge.weight * scale + tie) <= (count + count + 2) * (most
                * scale + tie)) by (nonlinear_arith)
                requires
                    0 <= edge.weight <= most,
                    scale >= 0,
                    count >= 0,
            ;
        }
    }
}

/// The retained slots leave every page its interior.
proof fn lemma_again_seeds(
    family: CachedAtlasFamily,
    groups: Seq<PreparedAtlasGroup>,
    shared: AtlasSharedConfig,
    ids: Seq<u64>,
    run: Reconciliation,
    error: AtlasError,
)
    requires
        groups.len() <= usize::MAX,
        groups_partition(groups),
        stands_for(family, groups, shared, ids),
        matches_prior(family, groups, shared, run),
        keeps_matched(family, groups, shared, run),
    ensures
        !seeding_pages_fails(
            family.pages@,
            run.retained.slots@,
            shared.border_padding,
            error,
        ),
{
    lemma_again_keeps(family, groups, shared, ids, run);
    let kept = run.retained.slots@;
    assert forall|p: int| 0 <= p < family.pages@.len() implies !seeding_fails(
        #[trigger] family.pages@[p],
        shared.border_padding,
        occupied_on(kept, p),
        error,
    ) by {
        let page = family.pages@[p];
        let usable = interior(page.width, page.height, shared.border_padding)->Ok_0;
        let occupied = occupied_on(kept, p);
        assert forall|i: int| 0 <= i < occupied.len() implies (#[trigger] occupied[i]).1.fits()
            && usable.encloses(occupied[i].1) by {
            let g = lemma_occupied_origin(kept, p, i);
            let s = slot_of(family, groups, ids, g);
            lemma_slot_of(family, groups, shared, ids, g);
            assert(same_place(kept[g], family.slots@[s]));
            assert(slot_placed(family.slots@[s], family.pages@, shared));
        }
    }
}

/// An occupied area of a page is that of a slot on it.
proof fn lemma_occupied_origin(slots: Seq<CachedAtlasSlot>, page_id: int, i: int) -> (s: int)
    requires
        0 <= i < occupied_on(slots, page_id).len(),
    ensures
        0 <= s < slots.len(),
        slots[s].page_id == page_id,
        occupied_on(slots, page_id)[i] == (slots[s].slot_id, slots[s].reserved_rect),
    decreases slots.len(),
{
    let before = occupied_on(slots.drop_last(), page_id);
    if i < before.len() {
        lemma_occupied_origin(slots.drop_last(), page_id, i)
    } else {
        slots.len() - 1
    }
}

/// Totals rest on the areas of the slots alone.
proof fn lemma_same_totals(a: Seq<CachedAtlasSlot>, b: Seq<CachedAtlasSlot>)
    requires
        a.len() == b.len(),
        forall|s: int| 0 <= s < b.len() ==> same_place(#[trigger] a[s], b[s]),
    ensures
        active_total(a) == active_total(b),
        reserved_total(a) == reserved_total(b),
    decreases a.len(),
{
    if a.len() > 0 {
        assert(same_place(a[a.len() - 1], b[a.len() - 1]));
        assert forall|s: int| 0 <= s < b.drop_last().len() implies same_place(
            #[trigger] a.drop_last()[s],
            b.drop_last()[s],
        ) by {
            assert(same_place(a[s], b[s]));
        }
        lemma_same_totals(a.drop_last(), b.drop_last());
    }
}

/// No step of a second run fails.
proof fn lemma_again_run_goes_on(
    family: CachedAtlasFamily,
    groups: Seq<PreparedAtlasGroup>,
    shared: AtlasSharedConfig,
    ids: Seq<u64>,
    run: Reconciliation,
    error: AtlasError,
)
    requires
        groups.len() <= usize::MAX,
        groups_partition(groups),
        all_sourced(groups),
        can_score(groups),
        stands_for(family, groups, shared, ids),
    ensures
        !run_fails(family, groups, shared, run, error),
{
    let slots = family.slots@;
    let matched = matches_prior(family, groups, shared, run);
    let kept = matched && keeps_matched(family, groups, shared, run);
    assert forall|s: int| 0 <= s < slots.len() implies #[trigger] slot_has_keys(family, s) by {
        lemma_slot_paths(family.key_slots@, slots[s].slot_id);
        assert(relates(family.key_slots@, slots[s].provider_key@, slots[s].slot_id));
        let paths = texts(paths_in_slot(family.key_slots@, slots[s].slot_id));
        assert(paths.contains(slots[s].provider_key@));
        assert(paths.len() > 0);
    }
    if lists_prior_keys(family, run.prior_keys) {
        lemma_again_scores(family, groups, shared, ids, run.prior_keys, error);
    }
    if matched {
        lemma_again_claims_own(family, groups, shared, ids, run);
        assert forall|g: int| !#[trigger] is_first_unretained(
            slots,
            groups,
            run.claims,
            shared,
            g,
            error,
        ) by {
            if 0 <= g < groups.len() {
                lemma_slot_of(family, groups, shared, ids, g);
                let slot = slots[slot_of(family, groups, ids, g)];
                assert(holds_content(slot, shared));
                assert(groups[g].item.source is Some);
                assert(run.claims[g] == Some(slot_of(family, groups, ids, g) as usize));
                assert(slot_failure(slot.reserved_rect, groups[g].item, shared) is None);
            }
        }
    }
    if kept {
        lemma_again_seeds(family, groups, shared, ids, run, error);
    }
    if kept && places_unmatched(family, groups, shared, run) {
        if run.order.len() > 0 {
            assert(run.order.contains(run.order[0]));
            assert(run.claims[run.order[0] as int] is None);
        }
    }
}

/// Reconciling a family again with the groups that it stands for does not fail, unless the scores
/// cannot be represented or the areas never could be totalled.
pub proof fn lemma_again_never_fails<F: Fn(u32, u32) -> u32>(
    ratio: F,
    family: CachedAtlasFamily,
    groups: Seq<PreparedAtlasGroup>,
    shared: AtlasSharedConfig,
    ids: Seq<u64>,
    error: AtlasError,
)
    requires
        groups.len() <= usize::MAX,
        groups_partition(groups),
        all_sourced(groups),
        can_score(groups),
        stands_for(family, groups, shared, ids),
        stats_of(family, shared) is Ok,
    ensures
        !reconcile_fails(ratio, family, groups, shared, error),
{
    assert forall|run: Reconciliation| !#[trigger] run_fails(
        family,
        groups,
        shared,
        run,
        error,
    ) by {
        lemma_again_run_goes_on(family, groups, shared, ids, run, error);
    }
    assert forall|
        run: Reconciliation,
        cache: CachedAtlasFamily,
        bindings: Map<Seq<char>, (usize, UvBound)>,
    |
        is_run(family, groups, shared, run) && #[trigger] records_run(
            ratio,
            family,
            groups,
            run,
            cache,
            bindings,
        ) implies stats_of(cache, shared) is Ok by {
        lemma_again_records(ratio, family, groups, shared, ids, run, cache, bindings);
        lemma_same_totals(cache.slots@, family.slots@);
    }
}

/// What reconciling gives, reconciled again with the same groups, stays as it is, bindings and all;
/// and reconciling again does not fail, unless the scores cannot be represented or an item does not
/// tell its source.
pub proof fn lemma_reconciled_twice<F: Fn(u32, u32) -> u32>(
    ratio: F,
    prior: CachedAtlasFamily,
    groups: Seq<PreparedAtlasGroup>,
    shared: AtlasSharedConfig,
    run: Reconciliation,
    first: AllocatedAtlasFamily,
)
    requires
        single_valued(ratio),
        is_ready_run(prior, groups, shared, run),
        ids_below(prior),
        is_reconciled(ratio, prior, groups, shared, run, first),
    ensures
        forall|next: Reconciliation, again: AllocatedAtlasFamily| #[trigger]
            is_reconciled(ratio, first.cache, groups, shared, next, again) ==> leaves_as_is(
                first.cache,
                groups,
                again,
            ) && again.bindings@ == first.bindings@,
        can_score(groups) && all_sourced(groups) ==> forall|error: AtlasError| !#[trigger]
            reconcile_fails(ratio, first.cache, groups, shared, error),
{
    let family = first.cache;
    let bindings = first.bindings@;
    lemma_reconciled_stands_for(ratio, prior, groups, shared, run, family, bindings);
    assert forall|next: Reconciliation, again: AllocatedAtlasFamily| #[trigger]
        is_reconciled(ratio, family, groups, shared, next, again) implies leaves_as_is(
        family,
        groups,
        again,
    ) && again.bindings@ == bindings by {
        lemma_reconcile_again(ratio, family, groups, shared, run.ids, next, again);
    }
    if can_score(groups) && all_sourced(groups) {
        assert forall|error: AtlasError| !#[trigger]
            reconcile_fails(ratio, family, groups, shared, error) by {
            lemma_again_never_fails(ratio, family, groups, shared, run.ids, error);
        }
    }
}

} // verus!
