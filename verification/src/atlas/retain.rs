//! Prior slots that keep their place.

use crate::atlas::error::AtlasError;
use crate::atlas::group::{holds_text, lists_text, PreparedAtlasGroup};
use crate::atlas::slot::{fill_slot, slot_failure, slot_holds_item};
use crate::atlas::types::{digest_eq, AtlasSharedConfig, CachedAtlasSlot};
use crate::text::str_eq;
use vstd::prelude::*;

verus! {

/// The provider of a retained slot: the prior one where the group still has it, else the group's
/// first key.
pub open spec fn kept_provider(group: PreparedAtlasGroup, old: CachedAtlasSlot) -> Seq<char> {
    if lists_text(group.logical_keys@, old.provider_key@) {
        old.provider_key@
    } else {
        group.logical_keys@[0]@
    }
}

/// `slot` keeps the identity, page, and reservation of `old` and holds the group's content.
pub open spec fn is_retained_slot(
    old: CachedAtlasSlot,
    group: PreparedAtlasGroup,
    shared: AtlasSharedConfig,
    slot: CachedAtlasSlot,
) -> bool {
    &&& slot.slot_id == old.slot_id
    &&& slot.page_id == old.page_id
    &&& slot_holds_item(
        slot,
        old.reserved_rect,
        group.item,
        kept_provider(group, old),
        group.content_fingerprint,
        shared,
    )
}

/// The groups before `end` that have a prior slot, in order.
pub open spec fn claimed_groups(claims: Seq<Option<usize>>, end: int) -> Seq<int>
    decreases end,
{
    if end <= 0 {
        Seq::empty()
    } else {
        let before = claimed_groups(claims, end - 1);
        if claims[end - 1] is Some {
            before.push(end - 1)
        } else {
            before
        }
    }
}

/// Renames of prepared images that retention calls for, as prepared key and provider.
pub open spec fn renames_before(
    slots: Seq<CachedAtlasSlot>,
    groups: Seq<PreparedAtlasGroup>,
    claims: Seq<Option<usize>>,
    end: int,
) -> Seq<(Seq<char>, Seq<char>)>
    decreases end,
{
    if end <= 0 {
        Seq::empty()
    } else {
        let before = renames_before(slots, groups, claims, end - 1);
        let group = groups[end - 1];
        match claims[end - 1] {
            Some(s) => {
                let provider = kept_provider(group, slots[s as int]);
                if provider != group.item.key@ {
                    before.push((group.item.key@, provider))
                } else {
                    before
                }
            },
            None => before,
        }
    }
}

/// Number of retained slots whose provider had to change.
pub open spec fn promoted_before(
    slots: Seq<CachedAtlasSlot>,
    groups: Seq<PreparedAtlasGroup>,
    claims: Seq<Option<usize>>,
    end: int,
) -> int
    decreases end,
{
    if end <= 0 {
        0
    } else {
        let before = promoted_before(slots, groups, claims, end - 1);
        match claims[end - 1] {
            Some(s) => if lists_text(
                groups[end - 1].logical_keys@,
                slots[s as int].provider_key@,
            ) {
                before
            } else {
                before + 1
            },
            None => before,
        }
    }
}

/// What retention yields.
pub struct Retained {
    /// The groups with a prior slot, in order.
    pub kept: Vec<usize>,
    /// Their slots.
    pub slots: Vec<CachedAtlasSlot>,
    pub renames: Vec<(String, String)>,
    pub promoted: usize,
    /// Pages on which a retained slot shows other content or shows it elsewhere.
    pub touched: Vec<usize>,
}

/// The slot shows other content than before, or shows it elsewhere.
pub open spec fn is_redrawn(old: CachedAtlasSlot, slot: CachedAtlasSlot) -> bool {
    old.destination != slot.destination || old.content_fingerprint@ != slot.content_fingerprint@
}

/// Some retained slot on the page is redrawn.
pub open spec fn redraws_page(
    slots: Seq<CachedAtlasSlot>,
    claims: Seq<Option<usize>>,
    kept: Seq<usize>,
    retained: Seq<CachedAtlasSlot>,
    page_id: usize,
) -> bool {
    exists|i: int|
        {
            &&& 0 <= i < retained.len()
            &&& (#[trigger] retained[i]).page_id == page_id
            &&& is_redrawn(slots[claims[kept[i] as int]->0 as int], retained[i])
        }
}

/// Renames as plain texts.
pub open spec fn rename_texts(renames: Seq<(String, String)>) -> Seq<(Seq<char>, Seq<char>)> {
    renames.map_values(|rename: (String, String)| (rename.0@, rename.1@))
}

/// Group indices as integers.
pub open spec fn as_ints(indices: Seq<usize>) -> Seq<int> {
    indices.map_values(|index: usize| index as int)
}

/// Every claim names a slot.
pub open spec fn claims_name_slots(
    claims: Seq<Option<usize>>,
    slots: Seq<CachedAtlasSlot>,
) -> bool {
    forall|g: int|
        0 <= g < claims.len() ==> ((#[trigger] claims[g]) matches Some(s) ==> s < slots.len())
}

/// Every kept group's slot is retained.
pub open spec fn retains_slots(
    slots: Seq<CachedAtlasSlot>,
    groups: Seq<PreparedAtlasGroup>,
    claims: Seq<Option<usize>>,
    shared: AtlasSharedConfig,
    kept: Seq<usize>,
    retained: Seq<CachedAtlasSlot>,
) -> bool {
    &&& retained.len() == kept.len()
    &&& forall|i: int|
        0 <= i < retained.len() ==> is_retained_slot(
            slots[claims[kept[i] as int]->0 as int],
            groups[kept[i] as int],
            shared,
            #[trigger] retained[i],
        )
}

/// `result` retains the claimed slots of the groups before `end`.
pub open spec fn is_retained(
    slots: Seq<CachedAtlasSlot>,
    groups: Seq<PreparedAtlasGroup>,
    claims: Seq<Option<usize>>,
    shared: AtlasSharedConfig,
    end: int,
    result: Retained,
) -> bool {
    &&& as_ints(result.kept@) == claimed_groups(claims, end)
    &&& retains_slots(slots, groups, claims, shared, result.kept@, result.slots@)
    &&& rename_texts(result.renames@) == renames_before(slots, groups, claims, end)
    &&& result.promoted == promoted_before(slots, groups, claims, end)
    &&& forall|page_id: usize| #[trigger]
        result.touched@.contains(page_id) <==> redraws_page(
            slots,
            claims,
            result.kept@,
            result.slots@,
            page_id,
        )
}

/// Group `g` is the first whose content cannot fill its prior slot.
pub open spec fn is_first_unretained(
    slots: Seq<CachedAtlasSlot>,
    groups: Seq<PreparedAtlasGroup>,
    claims: Seq<Option<usize>>,
    shared: AtlasSharedConfig,
    g: int,
    error: AtlasError,
) -> bool {
    &&& 0 <= g < groups.len()
    &&& claims[g] is Some
    &&& slot_failure(slots[claims[g]->0 as int].reserved_rect, groups[g].item, shared) == Some(
        error,
    )
    &&& forall|h: int|
        0 <= h < g && (#[trigger] claims[h]) is Some ==> slot_failure(
            slots[claims[h]->0 as int].reserved_rect,
            groups[h].item,
            shared,
        ) is None
}

/// Groups before `end` are claimed exactly where listed.
pub proof fn lemma_claimed_groups(claims: Seq<Option<usize>>, end: int)
    requires
        0 <= end <= claims.len(),
    ensures
        claimed_groups(claims, end).len() <= end,
        forall|i: int|
            0 <= i < claimed_groups(claims, end).len() ==> 0 <= #[trigger] claimed_groups(
                claims,
                end,
            )[i] < end && claims[claimed_groups(claims, end)[i]] is Some,
        forall|g: int| #[trigger]
            claimed_groups(claims, end).contains(g) <==> 0 <= g < end && claims[g] is Some,
        forall|i: int, j: int|
            0 <= i < j < claimed_groups(claims, end).len() ==> #[trigger] claimed_groups(
                claims,
                end,
            )[i] < #[trigger] claimed_groups(claims, end)[j],
    decreases end,
{
    if end > 0 {
        lemma_claimed_groups(claims, end - 1);
        let before = claimed_groups(claims, end - 1);
        let now = claimed_groups(claims, end);
        assert forall|g: int| #[trigger] now.contains(g) <==> 0 <= g < end && claims[g] is Some by {
            assert(before.contains(g) <==> 0 <= g < end - 1 && claims[g] is Some);
            if before.contains(g) {
                let i = choose|i: int| 0 <= i < before.len() && before[i] == g;
                assert(now[i] == g);
            }
            if g == end - 1 && claims[g] is Some {
                assert(now[now.len() - 1] == g);
            }
            if now.contains(g) {
                let i = choose|i: int| 0 <= i < now.len() && now[i] == g;
                if i < before.len() {
                    assert(before[i] == g);
                    assert(before.contains(g));
                }
            }
        }
    }
}

/// Keeps every claimed slot, with the group's current content in it.
pub fn retain_slots(
    slots: &[CachedAtlasSlot],
    groups: &[PreparedAtlasGroup],
    claims: &[Option<usize>],
    shared: &AtlasSharedConfig,
) -> (r: Result<Retained, AtlasError>)
    requires
        claims@.len() == groups@.len(),
        claims_name_slots(claims@, slots@),
        forall|g: int| 0 <= g < groups@.len() ==> (#[trigger] groups@[g]).logical_keys@.len() > 0,
    ensures
        match r {
            Ok(result) => is_retained(
                slots@,
                groups@,
                claims@,
                *shared,
                groups@.len() as int,
                result,
            ),
            Err(e) => exists|g: int| #[trigger]
                is_first_unretained(slots@, groups@, claims@, *shared, g, e),
        },
{
    let mut result = Retained {
        kept: Vec::new(),
        slots: Vec::new(),
        renames: Vec::new(),
        promoted: 0,
        touched: Vec::new(),
    };
    let mut g: usize = 0;
    proof {
        assert(as_ints(result.kept@) =~= Seq::empty());
        assert(rename_texts(result.renames@) =~= Seq::empty());
    }
    while g < groups.len()
        invariant
            g <= groups@.len(),
            claims@.len() == groups@.len(),
            claims_name_slots(claims@, slots@),
            forall|h: int|
                0 <= h < groups@.len() ==> (#[trigger] groups@[h]).logical_keys@.len() > 0,
            is_retained(slots@, groups@, claims@, *shared, g as int, result),
            result.promoted <= g,
            forall|h: int|
                0 <= h < g && (#[trigger] claims@[h]) is Some ==> slot_failure(
                    slots@[claims@[h]->0 as int].reserved_rect,
                    groups@[h].item,
                    *shared,
                ) is None,
        decreases groups@.len() - g,
    {
        let ghost before = result;
        match claims[g] {
            None => {},
            Some(s) => {
                assert(claims@[g as int] == Some(s));
                let group = &groups[g];
                let old = &slots[s];
                let held = holds_text(&group.logical_keys, old.provider_key.as_str());
                let provider: String = if held {
                    old.provider_key.clone()
                } else {
                    group.logical_keys[0].clone()
                };
                assert(provider@ == kept_provider(*group, *old));
                let copy = provider.clone();
                let slot = match fill_slot(
                    old.slot_id,
                    old.page_id,
                    old.reserved_rect,
                    &group.item,
                    provider,
                    group.content_fingerprint,
                    shared,
                ) {
                    Ok(slot) => slot,
                    Err(e) => {
                        assert(is_first_unretained(
                            slots@,
                            groups@,
                            claims@,
                            *shared,
                            g as int,
                            e,
                        ));
                        return Err(e);
                    },
                };
                if !held {
                    result.promoted = result.promoted + 1;
                }
                if !str_eq(copy.as_str(), group.item.key.as_str()) {
                    result.renames.push((group.item.key.clone(), copy));
                }
                let redrawn = old.destination != slot.destination || !digest_eq(
                    &old.content_fingerprint,
                    &slot.content_fingerprint,
                );
                if redrawn {
                    result.touched.push(slot.page_id as usize);
                }
                result.kept.push(g);
                result.slots.push(slot);
                proof {
                    assert(as_ints(result.kept@) =~= as_ints(before.kept@).push(g as int));
                    if copy@ != group.item.key@ {
                        assert(rename_texts(result.renames@) =~= rename_texts(
                            before.renames@,
                        ).push((group.item.key@, copy@)));
                    } else {
                        assert(result.renames@ == before.renames@);
                    }
                    assert(rename_texts(result.renames@) == renames_before(
                        slots@,
                        groups@,
                        claims@,
                        g + 1,
                    ));
                    assert(retains_slots(
                        slots@,
                        groups@,
                        claims@,
                        *shared,
                        result.kept@,
                        result.slots@,
                    )) by {
                        assert forall|i: int| 0 <= i < result.slots@.len() implies is_retained_slot(
                            slots@[claims@[result.kept@[i] as int]->0 as int],
                            groups@[result.kept@[i] as int],
                            *shared,
                            #[trigger] result.slots@[i],
                        ) by {
                            if i < before.slots@.len() {
                                assert(result.slots@[i] == before.slots@[i]);
                                assert(result.kept@[i] == before.kept@[i]);
                            }
                        }
                    }
                    lemma_touched_step(
                        slots@,
                        claims@,
                        before,
                        result,
                        slot,
                        g,
                        redrawn,
                    );
                }
            },
        }
        g = g + 1;
    }
    Ok(result)
}

proof fn lemma_touched_step(
    slots: Seq<CachedAtlasSlot>,
    claims: Seq<Option<usize>>,
    before: Retained,
    result: Retained,
    slot: CachedAtlasSlot,
    g: usize,
    redrawn: bool,
)
    requires
        before.kept@.len() == before.slots@.len(),
        result.kept@ == before.kept@.push(g),
        result.slots@ == before.slots@.push(slot),
        result.touched@ == if redrawn {
            before.touched@.push(slot.page_id as usize)
        } else {
            before.touched@
        },
        redrawn == is_redrawn(slots[claims[g as int]->0 as int], slot),
        forall|page_id: usize| #[trigger]
            before.touched@.contains(page_id) <==> redraws_page(
                slots,
                claims,
                before.kept@,
                before.slots@,
                page_id,
            ),
    ensures
        forall|page_id: usize| #[trigger]
            result.touched@.contains(page_id) <==> redraws_page(
                slots,
                claims,
                result.kept@,
                result.slots@,
                page_id,
            ),
{
    assert forall|page_id: usize| #[trigger]
        result.touched@.contains(page_id) <==> redraws_page(
            slots,
            claims,
            result.kept@,
            result.slots@,
            page_id,
        ) by {
        assert(before.touched@.contains(page_id) <==> redraws_page(
            slots,
            claims,
            before.kept@,
            before.slots@,
            page_id,
        ));
        let last = before.slots@.len() as int;
        if result.touched@.contains(page_id) {
            let i = choose|i: int| 0 <= i < result.touched@.len() && result.touched@[i] == page_id;
            if i < before.touched@.len() {
                assert(before.touched@[i] == page_id);
                assert(before.touched@.contains(page_id));
                let k = choose|k: int|
                    {
                        &&& 0 <= k < before.slots@.len()
                        &&& (#[trigger] before.slots@[k]).page_id == page_id
                        &&& is_redrawn(
                            slots[claims[before.kept@[k] as int]->0 as int],
                            before.slots@[k],
                        )
                    };
                assert(result.slots@[k] == before.slots@[k]);
                assert(result.kept@[k] == before.kept@[k]);
            } else {
                assert(result.slots@[last].page_id == page_id);
            }
        }
        if redraws_page(slots, claims, result.kept@, result.slots@, page_id) {
            let k = choose|k: int|
                {
                    &&& 0 <= k < result.slots@.len()
                    &&& (#[trigger] result.slots@[k]).page_id == page_id
                    &&& is_redrawn(
                        slots[claims[result.kept@[k] as int]->0 as int],
                        result.slots@[k],
                    )
                };
            if k < last {
                assert(before.slots@[k].page_id == page_id);
                assert(result.kept@[k] == before.kept@[k]);
                assert(before.touched@.contains(page_id));
                let i = choose|i: int|
                    0 <= i < before.touched@.len() && before.touched@[i] == page_id;
                assert(result.touched@[i] == page_id);
            } else {
                assert(result.touched@[before.touched@.len() as int] == page_id);
            }
        }
    }
}

} // verus!
