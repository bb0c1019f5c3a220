//! Laws of metadata entries: what ranges, percentages and directives mean.

use crate::byte_text::lower_text;
use crate::metadata::{
    clamped, converted, entry_group, entry_override, flagged, half_open, with_cells, with_names,
    with_statics, DynamicVisibilityEntry, StaticEntry, StaticTypeName, MAX_RANGES,
};
use crate::overrides::builder::{with_cell, Merge};
use crate::overrides::interior_place;
use crate::overrides::keys::mesh_key;
use crate::overrides::merge_laws::lemma_interior_place;
use vstd::prelude::*;

verus! {

/// A percentage is one, is the value where that is one, and no percentage is nearer to the value.
pub proof fn lemma_nearest_percentage(value: i64, percent: int)
    requires
        0 <= percent <= 100,
    ensures
        clamped(value) <= 100,
        0 <= value <= 100 ==> clamped(value) == value,
        value >= percent ==> clamped(value) >= percent,
        value <= percent ==> clamped(value) <= percent,
{
}

/// The number lies in one of the closed ranges.
pub open spec fn in_closed(ranges: Seq<[i32; 2]>, x: int) -> bool {
    exists|k: int|
        0 <= k < ranges.len() && (#[trigger] ranges[k])@[0] <= x <= ranges[k]@[1]
            && ranges[k]@[1] < i32::MAX
}

/// The number lies in one of the half-open ranges.
pub open spec fn in_half_open(ranges: Seq<(i32, i32)>, x: int) -> bool {
    exists|k: int| 0 <= k < ranges.len() && (#[trigger] ranges[k]).0 <= x < ranges[k].1
}

proof fn lemma_half_open_holds(ranges: Seq<[i32; 2]>, x: int)
    ensures
        in_half_open(half_open(ranges), x) <==> in_closed(ranges, x),
        half_open(ranges).len() <= ranges.len(),
    decreases ranges.len(),
{
    if ranges.len() > 0 {
        let front = ranges.drop_last();
        let last = ranges.last();
        lemma_half_open_holds(front, x);
        let before = half_open(front);
        let all = half_open(ranges);
        if in_half_open(before, x) {
            let k = choose|k: int| 0 <= k < before.len() && (#[trigger] before[k]).0 <= x < before[k].1;
            assert(all[k] == before[k]);
            assert(in_half_open(all, x));
        }
        if in_closed(front, x) {
            let k = choose|k: int|
                0 <= k < front.len() && (#[trigger] front[k])@[0] <= x <= front[k]@[1]
                    && front[k]@[1] < i32::MAX;
            assert(ranges[k] == front[k]);
            assert(in_closed(ranges, x));
        }
        if last@[0] <= x <= last@[1] && last@[1] < i32::MAX {
            assert(all[before.len() as int] == (last@[0], (last@[1] + 1) as i32));
            assert(in_half_open(all, x));
            assert(ranges[ranges.len() - 1] == last);
            assert(in_closed(ranges, x));
        }
        if in_half_open(all, x) && !in_half_open(before, x) {
            let k = choose|k: int| 0 <= k < all.len() && (#[trigger] all[k]).0 <= x < all[k].1;
            if k < before.len() {
                assert(all[k] == before[k]);
            }
            assert(last@[0] <= x <= last@[1]);
        }
        if in_closed(ranges, x) && !in_closed(front, x) {
            let k = choose|k: int|
                0 <= k < ranges.len() && (#[trigger] ranges[k])@[0] <= x <= ranges[k]@[1]
                    && ranges[k]@[1] < i32::MAX;
            if k < front.len() {
                assert(front[k] == ranges[k]);
            }
        }
    }
}

/// The converted ranges hold exactly the numbers that the first eight of the ranges hold, their ends
/// among them; a range up to the largest number is dropped.
pub proof fn lemma_ranges_hold(ranges: Seq<[i32; 2]>, x: int)
    ensures
        in_half_open(converted(ranges), x) <==> in_closed(
            if ranges.len() > 8 {
                ranges.take(8)
            } else {
                ranges
            },
            x,
        ),
        converted(ranges).len() <= 8,
{
    let first = if ranges.len() > MAX_RANGES {
        ranges.take(MAX_RANGES as int)
    } else {
        ranges
    };
    lemma_half_open_holds(first, x);
}

/// An entry gives its mesh the class of that name, and none where it names none; its percentages as
/// percentages, where it has them; and its flags.
pub proof fn lemma_entry_means(entry: StaticEntry)
    ensures
        ({
            let r = entry_override(entry);
            &&& r.ignore == entry.ignore
            &&& r.no_script == entry.ignore_script
            &&& r.density is Some <==> entry.grass_density is Some
            &&& r.simplify is Some <==> entry.reduction is Some
            &&& entry.grass_density matches Some(v) ==> 0 <= v <= 100 ==> r.density == Some(
                v as u32,
            )
            &&& entry.reduction matches Some(v) ==> 0 <= v <= 100 ==> r.simplify == Some(v as u32)
            &&& r.density matches Some(v) ==> v <= 100
            &&& r.simplify matches Some(v) ==> v <= 100
            &&& r.static_type is StaticAuto <==> entry.static_type is None || entry.static_type
                == Some(StaticTypeName::Auto)
            &&& r.static_type is StaticNear <==> entry.static_type == Some(StaticTypeName::Near)
            &&& r.static_type is StaticFar <==> entry.static_type == Some(StaticTypeName::Far)
            &&& r.static_type is StaticVeryFar <==> entry.static_type == Some(
                StaticTypeName::VeryFar,
            )
            &&& r.static_type is StaticGrass <==> entry.static_type == Some(StaticTypeName::Grass)
            &&& r.static_type is StaticTree <==> entry.static_type == Some(StaticTypeName::Tree)
            &&& r.static_type is StaticBuilding <==> entry.static_type == Some(
                StaticTypeName::Building,
            )
        }),
{
}

/// The entries of meshes set the overrides of their keys and of no others: of several entries with
/// one key the last is the one that counts, and an entry without a key counts for nothing.
pub proof fn lemma_statics_applied(m: Merge, entries: Seq<(String, StaticEntry)>, key: Seq<char>)
    ensures
        ({
            let before = m.overrides.meshes;
            let after = with_statics(m, entries).overrides.meshes;
            &&& (forall|i: int|
                0 <= i < entries.len() ==> mesh_key((#[trigger] entries[i]).0@) != key)
                || key.len() == 0 ==> after.dom().contains(key) == before.dom().contains(key)
                && after[key] == before[key]
            &&& forall|i: int|
                0 <= i < entries.len() && key.len() > 0 && mesh_key((#[trigger] entries[i]).0@)
                    == key && (forall|j: int|
                    i < j < entries.len() ==> mesh_key((#[trigger] entries[j]).0@) != key)
                    ==> after.dom().contains(key) && after[key] == entry_override(entries[i].1)
        }),
    decreases entries.len(),
{
    if entries.len() > 0 {
        let front = entries.drop_last();
        lemma_statics_applied(m, front, key);
        let last = entries.last();
        let before = m.overrides.meshes;
        let after = with_statics(m, entries).overrides.meshes;
        let middle = with_statics(m, front).overrides.meshes;
        if (forall|i: int|
            0 <= i < entries.len() ==> mesh_key((#[trigger] entries[i]).0@) != key) || key.len()
            == 0 {
            assert forall|i: int| 0 <= i < front.len() && key.len() > 0 implies mesh_key(
                (#[trigger] front[i]).0@,
            ) != key by {
                assert(front[i] == entries[i]);
            }
            assert(entries[entries.len() - 1] == last);
            assert(after.dom().contains(key) == middle.dom().contains(key));
        }
        assert forall|i: int|
            0 <= i < entries.len() && key.len() > 0 && mesh_key((#[trigger] entries[i]).0@) == key
                && (forall|j: int|
                i < j < entries.len() ==> mesh_key((#[trigger] entries[j]).0@) != key) implies after.dom().contains(
            key,
        ) && after[key] == entry_override(entries[i].1) by {
            if i < front.len() {
                assert(mesh_key(entries[entries.len() - 1].0@) != key);
                assert(front[i] == entries[i]);
                assert forall|j: int| i < j < front.len() implies mesh_key(
                    (#[trigger] front[j]).0@,
                ) != key by {
                    assert(front[j] == entries[j]);
                }
            }
        }
    }
}

/// Directives on objects set those that they name, whatever the case, and no others; of several for
/// one object the last counts.
pub proof fn lemma_names_applied(m: Merge, list: Seq<(Seq<char>, bool)>, key: Seq<char>)
    ensures
        ({
            let before = m.overrides.names;
            let after = with_names(m, list).overrides.names;
            &&& (forall|i: int| 0 <= i < list.len() ==> lower_text((#[trigger] list[i]).0) != key)
                ==> after.dom().contains(key) == before.dom().contains(key) && after[key]
                == before[key]
            &&& forall|i: int|
                0 <= i < list.len() && lower_text((#[trigger] list[i]).0) == key && (forall|j: int|
                    i < j < list.len() ==> lower_text((#[trigger] list[j]).0) != key)
                    ==> after.dom().contains(key) && after[key] == list[i].1
        }),
    decreases list.len(),
{
    if list.len() > 0 {
        let front = list.drop_last();
        lemma_names_applied(m, front, key);
        let after = with_names(m, list).overrides.names;
        if forall|i: int| 0 <= i < list.len() ==> lower_text((#[trigger] list[i]).0) != key {
            assert forall|i: int| 0 <= i < front.len() implies lower_text(
                (#[trigger] front[i]).0,
            ) != key by {
                assert(front[i] == list[i]);
            }
            assert(lower_text(list[list.len() - 1].0) != key);
        }
        assert forall|i: int|
            0 <= i < list.len() && lower_text((#[trigger] list[i]).0) == key && (forall|j: int|
                i < j < list.len() ==> lower_text((#[trigger] list[j]).0) != key) implies after.dom().contains(
            key,
        ) && after[key] == list[i].1 by {
            if i < front.len() {
                assert(lower_text(list[list.len() - 1].0) != key);
                assert(front[i] == list[i]);
                assert forall|j: int| i < j < front.len() implies lower_text(
                    (#[trigger] front[j]).0,
                ) != key by {
                    assert(front[j] == list[j]);
                }
            }
        }
    }
}

/// Directives are made of exactly the texts that are not empty, each with the flag.
pub proof fn lemma_directives_made(list: Seq<Seq<char>>, flag: bool, text: Seq<char>, f: bool)
    ensures
        flagged(list, flag).contains((text, f)) <==> f == flag && text.len() > 0 && list.contains(
            text,
        ),
    decreases list.len(),
{
    if list.len() > 0 {
        let front = list.drop_last();
        let before = flagged(front, flag);
        let all = flagged(list, flag);
        lemma_directives_made(front, flag, text, f);
        let last = list.last();
        if before.contains((text, f)) {
            let k = choose|k: int| 0 <= k < before.len() && before[k] == (text, f);
            assert(all[k] == (text, f));
        }
        if front.contains(text) {
            let k = choose|k: int| 0 <= k < front.len() && front[k] == text;
            assert(list[k] == text);
        }
        if last == text {
            assert(list[list.len() - 1] == text);
            if text.len() > 0 {
                assert(all[before.len() as int] == (text, flag));
            }
        }
        if all.contains((text, f)) && !before.contains((text, f)) {
            let k = choose|k: int| 0 <= k < all.len() && all[k] == (text, f);
            if k < before.len() {
                assert(before[k] == all[k]);
            }
        }
        if list.contains(text) && !front.contains(text) {
            let k = choose|k: int| 0 <= k < list.len() && list[k] == text;
            if k < front.len() {
                assert(front[k] == list[k]);
            }
        }
    }
}

/// One directive on an interior decides on it, and on no other.
pub proof fn lemma_cell_set(m: Merge, set: Seq<char>, enabled: bool, name: Seq<char>)
    ensures
        ({
            let before = m.overrides.interiors;
            let after = with_cell(m, set, enabled).overrides.interiors;
            let place = interior_place(after, name) as int;
            let old_place = interior_place(before, name) as int;
            &&& lower_text(set) == lower_text(name) ==> place < after.len() && after[place].1
                == enabled
            &&& lower_text(set) != lower_text(name) ==> (place < after.len() <==> old_place
                < before.len()) && (place < after.len() ==> after[place] == before[old_place])
        }),
{
    let before = m.overrides.interiors;
    let after = with_cell(m, set, enabled).overrides.interiors;
    lemma_interior_place(before, name);
    lemma_interior_place(before, set);
    lemma_interior_place(after, name);
    let place = interior_place(after, name) as int;
    let old_place = interior_place(before, name) as int;
    let set_place = interior_place(before, set) as int;
    if lower_text(set) == lower_text(name) {
        if set_place < old_place {
            assert(lower_text(before[set_place].0) == lower_text(name));
        }
        if old_place < set_place {
            assert(lower_text(before[old_place].0) == lower_text(set));
        }
        assert(lower_text(after[set_place].0) == lower_text(name));
        if place < set_place {
            assert(after[place] == before[place]);
        }
    } else {
        if old_place < before.len() {
            assert(after[old_place].0 == before[old_place].0);
            if place < old_place {
                assert(after[place].0 == before[place].0);
            }
        } else if place < after.len() {
            if place < before.len() {
                assert(after[place].0 == before[place].0);
            } else {
                assert(after[place] == (set, enabled));
            }
        }
    }
}

/// Directive `i` on the interior is not followed by another.
pub open spec fn is_last_on(list: Seq<(Seq<char>, bool)>, i: int, name: Seq<char>) -> bool {
    &&& 0 <= i < list.len()
    &&& lower_text(list[i].0) == lower_text(name)
    &&& forall|j: int| i < j < list.len() ==> lower_text((#[trigger] list[j]).0) != lower_text(name)
}

/// The last directive on an interior decides on it, whatever the case of its name; an interior that
/// no directive names keeps its setting.
pub proof fn lemma_cells_applied(m: Merge, list: Seq<(Seq<char>, bool)>, name: Seq<char>)
    ensures
        ({
            let before = m.overrides.interiors;
            let after = with_cells(m, list).overrides.interiors;
            let place = interior_place(after, name) as int;
            let old_place = interior_place(before, name) as int;
            &&& (forall|i: int|
                0 <= i < list.len() ==> lower_text((#[trigger] list[i]).0) != lower_text(name))
                ==> (place < after.len() <==> old_place < before.len()) && (place < after.len()
                ==> after[place] == before[old_place])
            &&& forall|i: int| #[trigger]
                is_last_on(list, i, name) ==> place < after.len() && after[place].1 == list[i].1
        }),
    decreases list.len(),
{
    if list.len() > 0 {
        let front = list.drop_last();
        let last = list.last();
        lemma_cells_applied(m, front, name);
        lemma_cell_set(with_cells(m, front), last.0, last.1, name);
        let after = with_cells(m, list).overrides.interiors;
        let place = interior_place(after, name) as int;
        assert(list[list.len() - 1] == last);
        assert forall|i: int| #[trigger] is_last_on(list, i, name) implies place < after.len()
            && after[place].1 == list[i].1 by {
            if i < front.len() {
                assert(front[i] == list[i]);
                assert forall|j: int| i < j < front.len() implies lower_text(
                    (#[trigger] front[j]).0,
                ) != lower_text(name) by {
                    assert(lower_text(list[j].0) != lower_text(name));
                }
                assert(is_last_on(front, i, name));
                assert(lower_text(list[list.len() - 1].0) != lower_text(name));
            }
        }
        if forall|i: int|
            0 <= i < list.len() ==> lower_text((#[trigger] list[i]).0) != lower_text(name) {
            assert forall|i: int| 0 <= i < front.len() implies lower_text((#[trigger] front[i]).0)
                != lower_text(name) by {
                assert(lower_text(list[i].0) != lower_text(name));
            }
        }
    }
}

/// An entry makes a group exactly where its script or object, and what it tests, are named. The names
/// hold in any case of letters.
pub proof fn lemma_entry_groups(entry: DynamicVisibilityEntry)
    ensures
        match entry {
            DynamicVisibilityEntry::Journal { script, journal, ranges } => {
                let group = entry_group(entry);
                let (key, kind) = group->0;
                &&& group is Some <==> script@.len() > 0 && journal@.len() > 0
                &&& group is Some ==> key == lower_text(script@) && kind is Journal
                    && kind->Journal_0 == lower_text(journal@) && kind->Journal_1
                    == converted(ranges@)
            },
            DynamicVisibilityEntry::Global { script, global, ranges } => {
                let group = entry_group(entry);
                let (key, kind) = group->0;
                &&& group is Some <==> script@.len() > 0 && global@.len() > 0
                &&& group is Some ==> key == lower_text(script@) && kind is Global
                    && kind->Global_0 == lower_text(global@) && kind->Global_1
                    == converted(ranges@)
            },
            DynamicVisibilityEntry::UniqueObject { object, linked_objects } => {
                let group = entry_group(entry);
                let (key, kind) = group->0;
                let linked = linked_objects@;
                &&& group is Some <==> object@.len() > 0
                &&& group is Some ==> {
                    let ids = kind->UniqueObject_1;
                    &&& kind is UniqueObject
                    &&& key == lower_text(object@)
                    &&& kind->UniqueObject_0 == lower_text(object@)
                    &&& ids.len() == linked.len() + 1
                    &&& ids[0] == lower_text(object@)
                    &&& forall|i: int|
                        0 <= i < linked.len() ==> ids[i + 1] == lower_text((#[trigger] linked[i])@)
                }
            },
        },
{
}

} // verus!
