//! Laws of merged overrides: which values stand, which conflicts are noted, and how texts fall into
//! lines.

use crate::byte_text::{first_at, last_at, lower_text, trimmed};
use crate::overrides::builder::{
    current_source, with_cell, with_mesh, with_name, with_source, ConflictKind, Merge,
};
use crate::overrides::lines::{
    interior_line, lines_of, name_line, without_return, EQUALS, NEWLINE, RETURN,
};
use crate::overrides::parse::{
    all_ranges, comment_at, escaped, is_word, range_of, ranges_of, uncommented, BACKSLASH, COLON,
};
use crate::overrides::{interior_place, joined_ids, StaticOverride, MAX_RANGES};
use crate::picks::{lemma_pick_next, picks};
use vstd::prelude::*;

verus! {

/// A mesh that no source named raises no conflict, nor does one that the same source names again; one
/// that the next source names again raises one exactly where the value differs.
pub proof fn lemma_mesh_conflicts(
    m: Merge,
    key: Seq<char>,
    first: StaticOverride,
    label: Seq<char>,
    last: StaticOverride,
)
    requires
        0 < m.sources.len() < usize::MAX,
    ensures
        !m.overrides.meshes.dom().contains(key) ==> with_mesh(m, key, first).conflicts
            == m.conflicts,
        with_mesh(with_mesh(m, key, first), key, last).conflicts == with_mesh(
            m,
            key,
            first,
        ).conflicts,
        with_mesh(with_source(with_mesh(m, key, first), label), key, last).conflicts == if first
            == last {
            with_mesh(m, key, first).conflicts
        } else {
            with_mesh(m, key, first).conflicts.push(
                (
                    ConflictKind::Mesh,
                    key,
                    m.sources.len() as usize,
                    (m.sources.len() - 1) as usize,
                ),
            )
        },
        forall|other: Seq<char>|
            other != key ==> (#[trigger] with_mesh(m, key, first).overrides.meshes.dom().contains(
                other,
            ) <==> m.overrides.meshes.dom().contains(other)) && with_mesh(
                m,
                key,
                first,
            ).overrides.meshes[other] == m.overrides.meshes[other],
        with_mesh(m, key, first).overrides.meshes[key] == first,
{
}

/// An object that no source named raises no conflict, nor does one that the same source names again;
/// one that the next source names again raises one exactly where the value differs.
pub proof fn lemma_name_conflicts(
    m: Merge,
    key: Seq<char>,
    first: bool,
    label: Seq<char>,
    last: bool,
)
    requires
        0 < m.sources.len() < usize::MAX,
    ensures
        !m.overrides.names.dom().contains(key) ==> with_name(m, key, first).conflicts
            == m.conflicts,
        with_name(with_name(m, key, first), key, last).conflicts == with_name(
            m,
            key,
            first,
        ).conflicts,
        with_name(with_source(with_name(m, key, first), label), key, last).conflicts == if first
            == last {
            with_name(m, key, first).conflicts
        } else {
            with_name(m, key, first).conflicts.push(
                (
                    ConflictKind::Object,
                    key,
                    m.sources.len() as usize,
                    (m.sources.len() - 1) as usize,
                ),
            )
        },
        forall|other: Seq<char>|
            other != key ==> (#[trigger] with_name(m, key, first).overrides.names.dom().contains(
                other,
            ) <==> m.overrides.names.dom().contains(other)) && with_name(
                m,
                key,
                first,
            ).overrides.names[other] == m.overrides.names[other],
        with_name(m, key, first).overrides.names[key] == first,
{
}

/// An interior is found at its first entry in any case of letters, or past the end.
pub proof fn lemma_interior_place(entries: Seq<(Seq<char>, bool)>, name: Seq<char>)
    ensures
        interior_place(entries, name) <= entries.len(),
        interior_place(entries, name) < entries.len() ==> lower_text(
            entries[interior_place(entries, name) as int].0,
        ) == lower_text(name),
        forall|k: int|
            0 <= k < interior_place(entries, name) ==> lower_text((#[trigger] entries[k]).0)
                != lower_text(name),
    decreases entries.len(),
{
    if entries.len() > 0 && lower_text(entries[0].0) != lower_text(name) {
        let rest = entries.skip(1);
        lemma_interior_place(rest, name);
        assert forall|k: int| 0 <= k < interior_place(entries, name) implies lower_text(
            (#[trigger] entries[k]).0,
        ) != lower_text(name) by {
            if k > 0 {
                assert(rest[k - 1] == entries[k]);
            }
        }
    }
}

/// Setting an interior keeps the spelling and the place of every entry. One that is known in any case
/// of letters takes the value; one that is not is added at the end.
pub proof fn lemma_interior_set(m: Merge, name: Seq<char>, enabled: bool)
    ensures
        ({
            let before = m.overrides.interiors;
            let after = with_cell(m, name, enabled).overrides.interiors;
            let known = exists|k: int|
                0 <= k < before.len() && lower_text((#[trigger] before[k]).0) == lower_text(name);
            &&& after.len() == before.len() + if known {
                0int
            } else {
                1
            }
            &&& forall|k: int| 0 <= k < before.len() ==> (#[trigger] after[k]).0 == before[k].0
            &&& forall|k: int|
                0 <= k < before.len() && lower_text((#[trigger] before[k]).0) != lower_text(name)
                    ==> after[k] == before[k]
            &&& !known ==> after.last() == (name, enabled)
            &&& known ==> exists|k: int|
                0 <= k < before.len() && lower_text((#[trigger] after[k]).0) == lower_text(name)
                    && after[k].1 == enabled
        }),
{
    let before = m.overrides.interiors;
    let after = with_cell(m, name, enabled).overrides.interiors;
    lemma_interior_place(before, name);
    let place = interior_place(before, name) as int;
    if place < before.len() {
        assert(lower_text(before[place].0) == lower_text(name));
        assert(after[place].1 == enabled);
    }
}

/// An interior that the next source sets to another value raises a conflict under the spelling of
/// that source; one that the same source sets again, or that is set to the same value, raises none.
pub proof fn lemma_interior_conflicts(
    m: Merge,
    name: Seq<char>,
    first: bool,
    label: Seq<char>,
    other: Seq<char>,
    last: bool,
)
    requires
        0 < m.sources.len() < usize::MAX,
        m.interior_sources.len() == m.overrides.interiors.len(),
        lower_text(name) == lower_text(other),
    ensures
        (forall|k: int|
            0 <= k < m.overrides.interiors.len() ==> lower_text(
                (#[trigger] m.overrides.interiors[k]).0,
            ) != lower_text(name)) ==> with_cell(m, name, first).conflicts == m.conflicts,
        with_cell(with_cell(m, name, first), other, last).conflicts == with_cell(
            m,
            name,
            first,
        ).conflicts,
        with_cell(with_source(with_cell(m, name, first), label), other, last).conflicts
            == if first == last {
            with_cell(m, name, first).conflicts
        } else {
            with_cell(m, name, first).conflicts.push(
                (
                    ConflictKind::Interior,
                    other,
                    m.sources.len() as usize,
                    (m.sources.len() - 1) as usize,
                ),
            )
        },
{
    let before = m.overrides.interiors;
    let mid = with_cell(m, name, first);
    let after = mid.overrides.interiors;
    lemma_interior_place(before, name);
    lemma_interior_place(after, other);
    let place = interior_place(before, name) as int;
    let found = interior_place(after, other) as int;
    assert(after[place].1 == first);
    assert(lower_text(after[place].0) == lower_text(other));
    if found < place {
        assert(lower_text(before[found].0) == lower_text(name));
    }
    assert(found == place);
    assert(mid.interior_sources[place] == current_source(m));
}

/// The ranges of a group are the first of those that the tokens stand for, in order, as many as a
/// group holds.
pub proof fn lemma_ranges_picked(tokens: Seq<Seq<u8>>) -> (list: Seq<int>)
    ensures
        picks(list, tokens.len() as int, |i: int| range_of(tokens[i]) is Some),
        all_ranges(tokens) == list.map_values(|i: int| range_of(tokens[i])->0),
        ranges_of(tokens).len() <= list.len(),
        ranges_of(tokens).len() == list.len() || ranges_of(tokens).len() == MAX_RANGES,
        ranges_of(tokens).len() <= MAX_RANGES,
        forall|k: int|
            0 <= k < ranges_of(tokens).len() ==> #[trigger] ranges_of(tokens)[k] == range_of(
                tokens[list[k]],
            )->0,
    decreases tokens.len(),
{
    if tokens.len() == 0 {
        assert(all_ranges(tokens) =~= Seq::<int>::empty().map_values(
            |i: int| range_of(tokens[i])->0,
        ));
        Seq::empty()
    } else {
        let front = tokens.drop_last();
        let before = lemma_ranges_picked(front);
        let end = front.len() as int;
        let condition = |i: int| range_of(tokens[i]) is Some;
        assert(picks(before, end, condition)) by {
            assert forall|k: int| #[trigger] before.contains(k) <==> 0 <= k < end && condition(
                k,
            ) by {
                if 0 <= k < end {
                    assert(front[k] == tokens[k]);
                }
            }
        }
        lemma_pick_next(before, end, condition);
        let list = if condition(end) {
            before.push(end)
        } else {
            before
        };
        assert forall|k: int| 0 <= k < before.len() implies range_of(#[trigger] tokens[before[k]])
            == range_of(front[before[k]]) by {
            assert(before.contains(before[k]));
        }
        assert(all_ranges(tokens) =~= list.map_values(|i: int| range_of(tokens[i])->0));
        list
    }
}

/// Identifiers that join others follow them: exactly the first of each that is not among them, in
/// order.
pub proof fn lemma_ids_joined(ids: Seq<Seq<char>>, more: Seq<Seq<char>>) -> (list: Seq<int>)
    ensures
        picks(
            list,
            more.len() as int,
            |k: int| !ids.contains(more[k]) && forall|j: int| 0 <= j < k ==> more[j] != more[k],
        ),
        joined_ids(ids, more) == ids + list.map_values(|k: int| more[k]),
        forall|id: Seq<char>| #[trigger]
            joined_ids(ids, more).contains(id) <==> ids.contains(id) || more.contains(id),
    decreases more.len(),
{
    let condition = |k: int|
        !ids.contains(more[k]) && forall|j: int| 0 <= j < k ==> more[j] != more[k];
    if more.len() == 0 {
        assert(joined_ids(ids, more) =~= ids + Seq::<int>::empty().map_values(|k: int| more[k]));
        Seq::empty()
    } else {
        let front = more.drop_last();
        let before = lemma_ids_joined(ids, front);
        let end = front.len() as int;
        assert(picks(before, end, condition)) by {
            let shorter = |k: int|
                !ids.contains(front[k]) && forall|j: int| 0 <= j < k ==> front[j] != front[k];
            assert forall|k: int| #[trigger] before.contains(k) <==> 0 <= k < end && condition(
                k,
            ) by {
                if 0 <= k < end {
                    assert(front[k] == more[k]);
                    assert(shorter(k) == condition(k)) by {
                        assert(forall|j: int| 0 <= j < k ==> front[j] == more[j]);
                    }
                }
                assert(before.contains(k) <==> 0 <= k < end && shorter(k));
            }
        }
        lemma_pick_next(before, end, condition);
        let so_far = joined_ids(ids, front);
        let last = more.last();
        assert(so_far.contains(last) <==> ids.contains(last) || front.contains(last));
        assert(front.contains(last) <==> exists|j: int| 0 <= j < end && more[j] == last) by {
            if front.contains(last) {
                let j = choose|j: int| 0 <= j < front.len() && front[j] == last;
                assert(more[j] == last);
            }
            if exists|j: int| 0 <= j < end && more[j] == last {
                let j = choose|j: int| 0 <= j < end && more[j] == last;
                assert(front[j] == last);
            }
        }
        assert(condition(end) <==> !so_far.contains(last));
        let list = if condition(end) {
            before.push(end)
        } else {
            before
        };
        assert forall|k: int| 0 <= k < before.len() implies front[#[trigger] before[k]]
            == more[before[k]] by {
            assert(before.contains(before[k]));
        }
        assert(joined_ids(ids, more) =~= ids + list.map_values(|k: int| more[k]));
        assert forall|id: Seq<char>| #[trigger]
            joined_ids(ids, more).contains(id) <==> ids.contains(id) || more.contains(id) by {
            assert(so_far.contains(id) <==> ids.contains(id) || front.contains(id));
            assert(more =~= front.push(last));
            assert(more.contains(id) <==> front.contains(id) || id == last) by {
                vstd::seq_lib::lemma_seq_contains_after_push(front, last, id);
            }
            vstd::seq_lib::lemma_seq_contains_after_push(so_far, last, id);
        }
        list
    }
}

/// A byte that is not in front of its place is first there.
pub proof fn lemma_first_behind(front: Seq<u8>, rest: Seq<u8>, byte: u8)
    requires
        !front.contains(byte),
    ensures
        first_at(front, byte) is None,
        first_at(front + seq![byte] + rest, byte) == Some(front.len() as int),
    decreases front.len(),
{
    let whole = front + seq![byte] + rest;
    if front.len() > 0 {
        let tail = front.skip(1);
        assert(front.contains(front[0]));
        assert forall|i: int| 0 <= i < tail.len() implies tail[i] != byte by {
            assert(front.contains(front[i + 1]));
        }
        lemma_first_behind(tail, rest, byte);
        assert(whole[0] == front[0]);
        assert(whole.skip(1) =~= tail + seq![byte] + rest);
    } else {
        assert(whole[0] == byte);
    }
}

/// A byte that is not behind its place is last there.
pub proof fn lemma_last_before(front: Seq<u8>, rest: Seq<u8>, byte: u8)
    requires
        !rest.contains(byte),
    ensures
        last_at(rest, byte) is None,
        last_at(front + seq![byte] + rest, byte) == Some(front.len() as int),
    decreases rest.len(),
{
    let whole = front + seq![byte] + rest;
    if rest.len() > 0 {
        let head = rest.drop_last();
        assert(rest.contains(rest.last()));
        assert forall|i: int| 0 <= i < head.len() implies head[i] != byte by {
            assert(rest.contains(rest[i]));
        }
        lemma_last_before(front, head, byte);
        assert(whole.last() == rest.last());
        assert(whole.drop_last() =~= front + seq![byte] + head);
    } else {
        assert(whole.last() == byte);
    }
}

/// A text falls into lines at each end of line; a carriage return before it belongs to it.
pub proof fn lemma_text_in_lines(line: Seq<u8>, rest: Seq<u8>)
    requires
        !line.contains(NEWLINE),
    ensures
        lines_of(line + seq![NEWLINE] + rest) == seq![
            if line.len() > 0 && line.last() == RETURN {
                line.drop_last()
            } else {
                line
            },
        ] + lines_of(rest),
        line.len() > 0 ==> lines_of(line) == seq![line],
        line.len() == 0 ==> lines_of(line).len() == 0,
{
    lemma_first_behind(line, rest, NEWLINE);
    let whole = line + seq![NEWLINE] + rest;
    let pos = line.len() as int;
    assert(whole.take(pos) =~= line);
    assert(whole.skip(pos + 1) =~= rest);
    assert(lines_of(whole) == seq![without_return(line)] + lines_of(rest));
}

/// A comment starts at the first colon, in sections without escapes.
pub proof fn lemma_comment_at_colon(line: Seq<u8>, comment: Seq<u8>)
    requires
        !line.contains(COLON),
    ensures
        uncommented(line + seq![COLON] + comment, false) == line,
        uncommented(line, false) == line,
{
    lemma_first_behind(line, comment, COLON);
    assert((line + seq![COLON] + comment).take(line.len() as int) =~= line);
}

proof fn lemma_escaped_comment(s: Seq<u8>, front: Seq<u8>, comment: Seq<u8>)
    ensures
        comment_at(front + escaped(s) + seq![COLON] + comment, front.len() as int) == front.len()
            + escaped(s).len(),
    decreases s.len(),
{
    let whole = front + escaped(s) + seq![COLON] + comment;
    let i = front.len() as int;
    if s.len() == 0 {
        assert(whole[i] == COLON);
    } else if s[0] == BACKSLASH || s[0] == COLON {
        let longer = front + seq![BACKSLASH, s[0]];
        lemma_escaped_comment(s.skip(1), longer, comment);
        assert(longer + escaped(s.skip(1)) + seq![COLON] + comment =~= whole);
        assert(whole[i] == BACKSLASH);
    } else {
        let longer = front.push(s[0]);
        lemma_escaped_comment(s.skip(1), longer, comment);
        assert(longer + escaped(s.skip(1)) + seq![COLON] + comment =~= whole);
        assert(whole[i] == s[0]);
    }
}

/// A comment starts at the first colon that is not escaped, in sections with escapes.
pub proof fn lemma_comment_after_escapes(s: Seq<u8>, comment: Seq<u8>)
    ensures
        uncommented(escaped(s) + seq![COLON] + comment, true) == escaped(s),
{
    lemma_escaped_comment(s, Seq::empty(), comment);
    let whole = escaped(s) + seq![COLON] + comment;
    assert(Seq::<u8>::empty() + escaped(s) + seq![COLON] + comment =~= whole);
    assert(whole.take(escaped(s).len() as int) =~= escaped(s));
}

/// A bare name says of an object what the name with `disable` says, and of an interior what the name
/// with `enable` says. The other word says the opposite, and any other says nothing.
pub proof fn lemma_bare_names(name: Seq<u8>, value: Seq<u8>)
    requires
        trimmed(name) == name,
        name.len() > 0,
        !name.contains(EQUALS),
        !value.contains(EQUALS),
    ensures
        ({
            let line = name + seq![EQUALS] + value;
            let word = trimmed(value);
            &&& name_line(name) is Some && is_word(word, "disable"@) && !is_word(word, "enable"@)
                ==> name_line(line) == name_line(name)
            &&& interior_line(name) is Some && is_word(word, "enable"@) ==> interior_line(line)
                == interior_line(name)
            &&& name_line(name) is Some && is_word(word, "enable"@) ==> name_line(line) is Some
                && name_line(line)->0->Object_0 == name_line(name)->0->Object_0
                && name_line(line)->0->Object_1 != name_line(name)->0->Object_1
            &&& interior_line(name) is Some && is_word(word, "disable"@) && !is_word(
                word,
                "enable"@,
            ) ==> interior_line(line) is Some && interior_line(line)->0->Interior_0
                == interior_line(name)->0->Interior_0 && interior_line(line)->0->Interior_1
                != interior_line(name)->0->Interior_1
            &&& !is_word(word, "enable"@) && !is_word(word, "disable"@) ==> name_line(line) is None
                && interior_line(line) is None
        }),
{
    let line = name + seq![EQUALS] + value;
    lemma_last_before(name, value, EQUALS);
    lemma_last_before(Seq::empty(), name, EQUALS);
    let pos = name.len() as int;
    assert(line.take(pos) =~= name);
    assert(line.skip(pos + 1) =~= value);
}

} // verus!
