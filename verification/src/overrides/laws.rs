//! The tables of dynamic-visibility groups stay in step with the groups.

use crate::overrides::builder::{empty_merge, text_label, with_source, with_vis, Merge};
use crate::overrides::lines::{
    content, directed, is_header, line_says, lines_of, next_section, read_line, read_lines,
    read_texts, Said, Section,
};
use crate::overrides::{
    group_number, group_place, keys_distinct, lemma_group_place, lemma_groups_stay_distinct,
    Overrides, VisKind,
};
use vstd::prelude::*;

verus! {

/// Number of groups from which on numbers in 16 bits come round again.
pub const NUMBERED_GROUPS: usize = 0xffff;

/// The table leads to a group with its number.
pub open spec fn leads_to_group(groups: Seq<VisKind>, number: u16, unique: bool) -> bool {
    &&& 1 <= number <= groups.len()
    &&& (groups[number - 1] is UniqueObject) == unique
}

/// Object `k` that is linked to group `g` is in the table.
pub open spec fn links_back(overrides: Overrides, g: int, k: int) -> bool {
    overrides.unique_objects.dom().contains(overrides.groups[g]->UniqueObject_1[k])
}

/// Groups are distinct; every object that is linked to a group is in the table of objects; and as
/// long as the groups can be numbered, the table of scripts leads to groups that a script decides
/// on, and the table of objects to groups that an object decides on.
pub open spec fn tables_in_step(overrides: Overrides) -> bool {
    &&& keys_distinct(overrides.groups)
    &&& forall|g: int, k: int|
        0 <= g < overrides.groups.len() && overrides.groups[g] is UniqueObject && 0 <= k
            < overrides.groups[g]->UniqueObject_1.len() ==> #[trigger] links_back(overrides, g, k)
    &&& overrides.groups.len() <= NUMBERED_GROUPS ==> {
        &&& forall|key: Seq<char>| #[trigger]
            overrides.scripts.dom().contains(key) ==> leads_to_group(
                overrides.groups,
                overrides.scripts[key],
                false,
            )
        &&& forall|key: Seq<char>| #[trigger]
            overrides.unique_objects.dom().contains(key) ==> leads_to_group(
                overrides.groups,
                overrides.unique_objects[key],
                true,
            )
    }
}

/// A group that joins the others keeps the tables in step.
pub proof fn lemma_vis_keeps_tables(m: Merge, key: Seq<char>, kind: VisKind)
    requires
        tables_in_step(m.overrides),
    ensures
        tables_in_step(with_vis(m, key, kind).overrides),
{
    let before = m.overrides;
    let after = with_vis(m, key, kind).overrides;
    let place = group_place(before.groups, kind) as int;
    lemma_group_place(before.groups, kind);
    lemma_groups_stay_distinct(before.groups, kind);
    assert(place < after.groups.len());
    if place < before.groups.len() {
        assert(vis_kinds_match(before.groups[place], kind));
    }
    assert(after.groups[place] is UniqueObject == kind is UniqueObject);
    assert forall|g: int| 0 <= g < after.groups.len() && g != place implies #[trigger] after.groups[g]
        == before.groups[g] by {}
    assert forall|g: int, k: int|
        0 <= g < after.groups.len() && after.groups[g] is UniqueObject && 0 <= k
            < after.groups[g]->UniqueObject_1.len() implies #[trigger] links_back(after, g, k) by {
        if g == place {
            assert(after.groups[place]->UniqueObject_1.contains(
                after.groups[place]->UniqueObject_1[k],
            ));
        } else {
            assert(links_back(before, g, k));
        }
    }
    if after.groups.len() <= NUMBERED_GROUPS {
        assert(group_number(place) == place + 1);
        assert(leads_to_group(after.groups, group_number(place), kind is UniqueObject));
        assert forall|other: Seq<char>| #[trigger] after.scripts.dom().contains(
            other,
        ) implies leads_to_group(after.groups, after.scripts[other], false) by {
            if kind is UniqueObject || other != key {
                assert(before.scripts.dom().contains(other));
                assert(leads_to_group(before.groups, before.scripts[other], false));
            }
        }
        assert forall|other: Seq<char>| #[trigger] after.unique_objects.dom().contains(
            other,
        ) implies leads_to_group(after.groups, after.unique_objects[other], true) by {
            if !(kind is UniqueObject) || !after.groups[place]->UniqueObject_1.contains(other) {
                assert(before.unique_objects.dom().contains(other));
                assert(leads_to_group(before.groups, before.unique_objects[other], true));
            }
        }
    }
}

/// Groups with the same key are of the same kind.
spec fn vis_kinds_match(a: VisKind, b: VisKind) -> bool {
    (a is UniqueObject) == (b is UniqueObject)
}

/// A directive keeps the tables in step.
pub proof fn lemma_directive_keeps_tables(m: Merge, directive: Option<Said>)
    requires
        tables_in_step(m.overrides),
    ensures
        tables_in_step(directed(m, directive).overrides),
{
    let after = directed(m, directive).overrides;
    if let Some(Said::Vis(key, kind)) = directive {
        lemma_vis_keeps_tables(m, key, kind);
    } else {
        assert(after.groups == m.overrides.groups);
        assert(after.scripts == m.overrides.scripts);
        assert(after.unique_objects == m.overrides.unique_objects);
        assert forall|g: int, k: int|
            0 <= g < after.groups.len() && after.groups[g] is UniqueObject && 0 <= k
                < after.groups[g]->UniqueObject_1.len() implies #[trigger] links_back(
            after,
            g,
            k,
        ) by {
            assert(links_back(m.overrides, g, k));
        }
    }
}

proof fn lemma_lines_keep_tables(m: Merge, section: Section, lines: Seq<Seq<u8>>)
    requires
        tables_in_step(m.overrides),
    ensures
        tables_in_step(read_lines(m, section, lines).overrides),
    decreases lines.len(),
{
    if lines.len() > 0 {
        let text = content(section, lines[0]);
        if text.len() > 0 && !is_header(text) {
            lemma_directive_keeps_tables(m, line_says(section, text));
        }
        lemma_lines_keep_tables(
            read_line(m, section, lines[0]),
            next_section(section, lines[0]),
            lines.skip(1),
        );
    }
}

/// After any override texts the tables are in step with the groups.
pub proof fn lemma_texts_keep_tables(parts: Seq<Seq<u8>>)
    ensures
        tables_in_step(read_texts(empty_merge(), parts).overrides),
    decreases parts.len(),
{
    if parts.len() > 0 {
        lemma_texts_keep_tables(parts.drop_last());
        let m = read_texts(empty_merge(), parts.drop_last());
        let begun = with_source(m, text_label(m.sources.len() + 1));
        assert(begun.overrides == m.overrides);
        lemma_lines_keep_tables(begun, Section::Default, lines_of(parts.last()));
    }
}

} // verus!
