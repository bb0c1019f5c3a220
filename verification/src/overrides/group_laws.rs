//! Laws of lines and groups: what ends a key, what each word starts, and where a script or an object
//! leads.

use crate::byte_text::{fields_of, lower_text, trimmed};
use crate::overrides::builder::{with_vis, Merge};
use crate::overrides::keys::mesh_key;
use crate::overrides::keyword_laws::lemma_word_bytes;
use crate::overrides::laws::NUMBERED_GROUPS;
use crate::overrides::lines::{
    header_section, mesh_line, token_texts, vis_line, vis_of, Said, Section, EQUALS,
};
use crate::overrides::merge_laws::{lemma_first_behind, lemma_ids_joined, lemma_last_before};
use crate::overrides::parse::{is_word, keywords_of, ranges_of, unescaped_text};
use crate::overrides::{group_place, joined_ids, lemma_group_place, vis_key, VisKind};
use crate::picks::{lemma_pick_next, picks};
use vstd::prelude::*;
use vstd::utf8::{decode_utf8, valid_utf8};

verus! {

/// Each section starts at the header of its name, in any case of letters; a header of another name
/// starts none.
pub proof fn lemma_headers_start_sections(section: Section, name: Seq<u8>)
    ensures
        is_word(name, "names"@) ==> header_section(section, name) is Names,
        is_word(name, "interiors"@) ==> header_section(section, name) is Interiors,
        is_word(name, "dynamic_vis"@) ==> header_section(section, name) is DynamicVis,
        !is_word(name, "names"@) && !is_word(name, "interiors"@) && !is_word(name, "dynamic_vis"@)
            ==> header_section(section, name) == section,
{
    reveal_strlit("names");
    reveal_strlit("interiors");
    reveal_strlit("dynamic_vis");
    if is_word(name, "names"@) {
        lemma_word_bytes(name, "names"@);
    }
    if is_word(name, "interiors"@) {
        lemma_word_bytes(name, "interiors"@);
    }
    if is_word(name, "dynamic_vis"@) {
        lemma_word_bytes(name, "dynamic_vis"@);
    }
}

/// The last `=` of a line on a mesh ends the path; what follows are its keywords.
pub proof fn lemma_mesh_line_means(path: Seq<u8>, value: Seq<u8>)
    requires
        !value.contains(EQUALS),
        trimmed(path).len() > 0,
        valid_utf8(trimmed(path)),
    ensures
        mesh_line(path + seq![EQUALS] + value) == Some(
            Said::Mesh(mesh_key(decode_utf8(trimmed(path))), keywords_of(trimmed(value))),
        ),
        mesh_line(value) is None,
{
    lemma_last_before(path, value, EQUALS);
    let line = path + seq![EQUALS] + value;
    let pos = path.len() as int;
    assert(line.take(pos) =~= path);
    assert(line.skip(pos + 1) =~= value);
}

/// The first `=` of a line on a group ends the key; what follows describes the group.
pub proof fn lemma_vis_line_means(name: Seq<u8>, value: Seq<u8>)
    requires
        !name.contains(EQUALS),
        unescaped_text(trimmed(name)).len() > 0,
        trimmed(value).len() > 0,
    ensures
        ({
            let key = lower_text(unescaped_text(trimmed(name)));
            let kind = vis_of(key, fields_of(trimmed(value)));
            let line = vis_line(name + seq![EQUALS] + value);
            &&& kind is None ==> line is None
            &&& kind is Some ==> line == Some(Said::Vis(key, kind->0))
            &&& vis_line(name) is None
        }),
{
    lemma_first_behind(name, value, EQUALS);
    let line = name + seq![EQUALS] + value;
    let pos = name.len() as int;
    assert(line.take(pos) =~= name);
    assert(line.skip(pos + 1) =~= value);
    assert(lower_text(unescaped_text(trimmed(name))).len() == unescaped_text(trimmed(name)).len());
}

/// The objects of a group are those tokens that are texts, in order.
proof fn lemma_texts_picked(tokens: Seq<Seq<u8>>) -> (list: Seq<int>)
    ensures
        picks(list, tokens.len() as int, |i: int| valid_utf8(tokens[i])),
        token_texts(tokens) == list.map_values(|i: int| lower_text(decode_utf8(tokens[i]))),
    decreases tokens.len(),
{
    if tokens.len() == 0 {
        assert(token_texts(tokens) =~= Seq::<int>::empty().map_values(
            |i: int| lower_text(decode_utf8(tokens[i])),
        ));
        Seq::empty()
    } else {
        let front = tokens.drop_last();
        let before = lemma_texts_picked(front);
        let end = front.len() as int;
        let condition = |i: int| valid_utf8(tokens[i]);
        assert(picks(before, end, condition)) by {
            assert forall|k: int| #[trigger] before.contains(k) <==> 0 <= k < end && condition(
                k,
            ) by {
                if 0 <= k < end {
                    assert(front[k] == tokens[k]);
                }
            }
        }
        lemma_pick_next(before, end, condition);
        let list = if condition(end) {
            before.push(end)
        } else {
            before
        };
        assert forall|k: int| 0 <= k < before.len() implies front[#[trigger] before[k]]
            == tokens[before[k]] by {
            assert(before.contains(before[k]));
        }
        assert(token_texts(tokens) =~= list.map_values(
            |i: int| lower_text(decode_utf8(tokens[i])),
        ));
        list
    }
}

/// The first word says what a group tests: a journal or a global that the second names, within the
/// ranges that follow, or an object, to which those that follow are linked beside itself.
pub proof fn lemma_first_word_decides(key: Seq<char>, tokens: Seq<Seq<u8>>) -> (list: Seq<int>)
    requires
        tokens.len() > 0,
    ensures
        ({
            let kind = vis_of(key, tokens);
            let named = tokens.len() >= 2 && valid_utf8(tokens[1]);
            let rest = tokens.skip(2);
            &&& is_word(tokens[0], "journal"@) ==> if named {
                kind == Some(VisKind::Journal(lower_text(decode_utf8(tokens[1])), ranges_of(rest)))
            } else {
                kind is None
            }
            &&& is_word(tokens[0], "global"@) ==> if named {
                kind == Some(VisKind::Global(lower_text(decode_utf8(tokens[1])), ranges_of(rest)))
            } else {
                kind is None
            }
            &&& is_word(tokens[0], "unique_object"@) ==> kind == Some(
                VisKind::UniqueObject(
                    key,
                    seq![key] + list.map_values(|i: int| lower_text(decode_utf8(tokens[i + 1]))),
                ),
            )
            &&& picks(list, tokens.len() - 1, |i: int| valid_utf8(tokens[i + 1]))
            &&& !is_word(tokens[0], "journal"@) && !is_word(tokens[0], "global"@) && !is_word(
                tokens[0],
                "unique_object"@,
            ) ==> kind is None
        }),
{
    reveal_strlit("journal");
    reveal_strlit("global");
    reveal_strlit("unique_object");
    if is_word(tokens[0], "journal"@) {
        lemma_word_bytes(tokens[0], "journal"@);
    }
    if is_word(tokens[0], "global"@) {
        lemma_word_bytes(tokens[0], "global"@);
    }
    if is_word(tokens[0], "unique_object"@) {
        lemma_word_bytes(tokens[0], "unique_object"@);
    }
    let rest = tokens.skip(1);
    let list = lemma_texts_picked(rest);
    assert forall|k: int| 0 <= k < list.len() implies rest[#[trigger] list[k]] == tokens[list[k]
        + 1] by {
        assert(list.contains(list[k]));
    }
    assert(picks(list, tokens.len() - 1, |i: int| valid_utf8(tokens[i + 1]))) by {
        assert forall|k: int| #[trigger] list.contains(k) <==> 0 <= k < tokens.len() - 1
            && valid_utf8(tokens[k + 1]) by {
            if 0 <= k < rest.len() {
                assert(rest[k] == tokens[k + 1]);
            }
        }
    }
    assert(token_texts(rest) =~= list.map_values(
        |i: int| lower_text(decode_utf8(tokens[i + 1])),
    ));
    list
}

/// Both test the same: one journal or one global within the same ranges, or one object.
pub open spec fn tests_same(a: VisKind, b: VisKind) -> bool {
    match a {
        VisKind::Journal(id, ranges) => b is Journal && b->Journal_0 == id && b->Journal_1
            == ranges,
        VisKind::Global(id, ranges) => b is Global && b->Global_0 == id && b->Global_1 == ranges,
        VisKind::UniqueObject(id, _) => b is UniqueObject && b->UniqueObject_0 == id,
    }
}

/// A script leads to the group that tests what it was given, and every object that is linked to an
/// object leads to the group of that object. Groups that test something else stay as they are, and
/// so do the scripts and objects that lead to them.
pub proof fn lemma_leads_to_its_group(m: Merge, key: Seq<char>, kind: VisKind)
    requires
        m.overrides.groups.len() < NUMBERED_GROUPS,
    ensures
        ({
            let before = m.overrides;
            let after = with_vis(m, key, kind).overrides;
            &&& after.groups.len() == before.groups.len() + if exists|g: int|
                0 <= g < before.groups.len() && tests_same(#[trigger] before.groups[g], kind) {
                0int
            } else {
                1
            }
            &&& forall|g: int|
                0 <= g < before.groups.len() && !tests_same(#[trigger] before.groups[g], kind)
                    ==> after.groups[g] == before.groups[g]
            &&& !(kind is UniqueObject) ==> {
                let number = after.scripts[key];
                &&& after.scripts.dom().contains(key)
                &&& 1 <= number <= after.groups.len()
                &&& tests_same(after.groups[number - 1], kind)
                &&& after.unique_objects == before.unique_objects
                &&& forall|other: Seq<char>|
                    other != key ==> (#[trigger] after.scripts.dom().contains(other)
                        <==> before.scripts.dom().contains(other)) && after.scripts[other]
                        == before.scripts[other]
            }
            &&& kind is UniqueObject ==> {
                &&& after.scripts == before.scripts
                &&& forall|id: Seq<char>| #[trigger]
                    kind->UniqueObject_1.contains(id) ==> leads_home(
                        after.groups,
                        after.unique_objects,
                        kind,
                        id,
                    )
            }
        }),
{
    let before = m.overrides;
    let after = with_vis(m, key, kind).overrides;
    lemma_group_place(before.groups, kind);
    let place = group_place(before.groups, kind) as int;
    if place < before.groups.len() {
        assert(tests_same(before.groups[place], kind));
    } else if exists|g: int|
        0 <= g < before.groups.len() && tests_same(#[trigger] before.groups[g], kind) {
        let g = choose|g: int|
            0 <= g < before.groups.len() && tests_same(#[trigger] before.groups[g], kind);
        assert(vis_key(before.groups[g]) == vis_key(kind));
    }
    assert(tests_same(after.groups[place], kind));
    if kind is UniqueObject {
        assert forall|id: Seq<char>| #[trigger] kind->UniqueObject_1.contains(id) implies leads_home(
            after.groups,
            after.unique_objects,
            kind,
            id,
        ) by {
            if place < before.groups.len() {
                let old_ids = before.groups[place]->UniqueObject_1;
                let list = lemma_ids_joined(old_ids, kind->UniqueObject_1);
                assert(joined_ids(old_ids, kind->UniqueObject_1).contains(id));
            }
            assert(after.groups[place]->UniqueObject_1.contains(id));
        }
    }
}

/// The object leads to the group that tests the same, and is linked to it.
pub open spec fn leads_home(
    groups: Seq<VisKind>,
    objects: Map<Seq<char>, u16>,
    kind: VisKind,
    id: Seq<char>,
) -> bool {
    &&& objects.dom().contains(id)
    &&& 1 <= objects[id] <= groups.len()
    &&& tests_same(groups[objects[id] - 1], kind)
    &&& groups[objects[id] - 1]->UniqueObject_1.contains(id)
}

} // verus!
