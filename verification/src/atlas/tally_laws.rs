//! Laws of tallies: which pages, groups and renames a reconciliation counts.

use crate::atlas::group::{lemma_shared_count, lists_text, shared_count, PreparedAtlasGroup};
use crate::atlas::reconcile::{relocated_before, unused_before, was_placed};
use crate::atlas::retain::{kept_provider, renames_before};
use crate::atlas::types::CachedAtlasSlot;
use crate::picks::{lemma_pick_next, picks};
use crate::text::{ascending, texts};
use vstd::prelude::*;

verus! {

/// The empty pages are exactly those on which no slot lies.
pub proof fn lemma_empty_pages_counted(slots: Seq<CachedAtlasSlot>, end: int) -> (list: Seq<int>)
    requires
        0 <= end,
    ensures
        picks(
            list,
            end,
            |p: int|
                forall|s: int| 0 <= s < slots.len() ==> (#[trigger] slots[s]).page_id != p,
        ),
        unused_before(slots, end) == list.len(),
    decreases end,
{
    let condition = |p: int|
        forall|s: int| 0 <= s < slots.len() ==> (#[trigger] slots[s]).page_id != p;
    if end <= 0 {
        Seq::empty()
    } else {
        let before = lemma_empty_pages_counted(slots, end - 1);
        lemma_pick_next(before, end - 1, condition);
        if condition(end - 1) {
            before.push(end - 1)
        } else {
            before
        }
    }
}

/// Some key of the group was in some prior slot.
pub open spec fn had_place(group: PreparedAtlasGroup, prior_keys: Seq<Vec<String>>) -> bool {
    exists|s: int, key: Seq<char>|
        0 <= s < prior_keys.len() && texts(group.logical_keys@).contains(key) && #[trigger] texts(
            prior_keys[s]@,
        ).contains(key)
}

proof fn lemma_common_key(a: Seq<Seq<char>>, b: Seq<Seq<char>>)
    requires
        ascending(a),
        ascending(b),
    ensures
        shared_count(a, b) > 0 <==> exists|key: Seq<char>| #[trigger]
            a.contains(key) && b.contains(key),
{
    lemma_shared_count(a, b);
    let both = a.to_set().intersect(b.to_set());
    vstd::seq_lib::seq_to_set_is_finite(a);
    if both.len() > 0 {
        let key = both.choose();
        assert(both.contains(key));
        assert(a.contains(key) && b.contains(key));
    }
    if exists|key: Seq<char>| #[trigger] a.contains(key) && b.contains(key) {
        let key = choose|key: Seq<char>| #[trigger] a.contains(key) && b.contains(key);
        assert(both.contains(key));
        if both.len() == 0 {
            assert(both =~= Set::empty());
        }
    }
}

/// The relocated groups are exactly those of the order that had a place before.
pub proof fn lemma_relocated_counted(
    groups: Seq<PreparedAtlasGroup>,
    prior_keys: Seq<Vec<String>>,
    order: Seq<usize>,
    end: int,
) -> (list: Seq<int>)
    requires
        0 <= end <= order.len(),
        forall|i: int| 0 <= i < order.len() ==> #[trigger] order[i] < groups.len(),
        forall|g: int|
            0 <= g < groups.len() ==> ascending(texts((#[trigger] groups[g]).logical_keys@)),
        forall|s: int| 0 <= s < prior_keys.len() ==> ascending(texts((#[trigger] prior_keys[s])@)),
    ensures
        picks(list, end, |i: int| had_place(groups[order[i] as int], prior_keys)),
        relocated_before(groups, prior_keys, order, end) == list.len(),
    decreases end,
{
    let condition = |i: int| had_place(groups[order[i] as int], prior_keys);
    if end <= 0 {
        Seq::empty()
    } else {
        let before = lemma_relocated_counted(groups, prior_keys, order, end - 1);
        lemma_pick_next(before, end - 1, condition);
        let group = groups[order[end - 1] as int];
        let own = texts(group.logical_keys@);
        assert(order[end - 1] < groups.len());
        assert(ascending(own));
        if was_placed(group, prior_keys) {
            let s = choose|s: int|
                0 <= s < prior_keys.len() && shared_count(own, texts((#[trigger] prior_keys[s])@))
                    > 0;
            let theirs = texts(prior_keys[s]@);
            lemma_common_key(own, theirs);
            let key = choose|key: Seq<char>| #[trigger]
                own.contains(key) && theirs.contains(key);
            assert(texts(prior_keys[s]@).contains(key));
        }
        if condition(end - 1) {
            let (s, key) = choose|s: int, key: Seq<char>|
                0 <= s < prior_keys.len() && own.contains(key) && #[trigger] texts(
                    prior_keys[s]@,
                ).contains(key);
            assert(own.contains(key) && texts(prior_keys[s]@).contains(key));
            lemma_common_key(own, texts(prior_keys[s]@));
        }
        if condition(end - 1) {
            before.push(end - 1)
        } else {
            before
        }
    }
}

/// A group that keeps a slot takes the image under the slot's provider where it still has that key,
/// and under its own first key otherwise.
pub open spec fn image_name(group: PreparedAtlasGroup, slot: CachedAtlasSlot) -> Seq<char> {
    if exists|k: int|
        0 <= k < group.logical_keys@.len() && (#[trigger] group.logical_keys@[k])@
            == slot.provider_key@ {
        slot.provider_key@
    } else {
        group.logical_keys@[0]@
    }
}

/// Exactly the groups that keep a slot, and whose image was prepared under another name, are renamed,
/// in order.
pub proof fn lemma_renames_called_for(
    slots: Seq<CachedAtlasSlot>,
    groups: Seq<PreparedAtlasGroup>,
    claims: Seq<Option<usize>>,
    end: int,
) -> (list: Seq<int>)
    requires
        0 <= end,
    ensures
        picks(
            list,
            end,
            |g: int|
                claims[g] is Some && image_name(groups[g], slots[claims[g]->0 as int])
                    != groups[g].item.key@,
        ),
        renames_before(slots, groups, claims, end) == list.map_values(
            |g: int| (groups[g].item.key@, image_name(groups[g], slots[claims[g]->0 as int])),
        ),
    decreases end,
{
    let condition = |g: int|
        claims[g] is Some && image_name(groups[g], slots[claims[g]->0 as int])
            != groups[g].item.key@;
    let rename = |g: int|
        (groups[g].item.key@, image_name(groups[g], slots[claims[g]->0 as int]));
    if end <= 0 {
        assert(renames_before(slots, groups, claims, end) =~= Seq::<int>::empty().map_values(
            rename,
        ));
        Seq::empty()
    } else {
        let before = lemma_renames_called_for(slots, groups, claims, end - 1);
        lemma_pick_next(before, end - 1, condition);
        let group = groups[end - 1];
        if claims[end - 1] is Some {
            let slot = slots[claims[end - 1]->0 as int];
            assert(lists_text(group.logical_keys@, slot.provider_key@) <==> exists|k: int|
                0 <= k < group.logical_keys@.len() && (#[trigger] group.logical_keys@[k])@
                    == slot.provider_key@);
            assert(kept_provider(group, slot) == image_name(group, slot));
        }
        let list = if condition(end - 1) {
            before.push(end - 1)
        } else {
            before
        };
        assert(renames_before(slots, groups, claims, end) =~= list.map_values(rename));
        list
    }
}

} // verus!
