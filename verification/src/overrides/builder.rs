//! Merges override sources in order.

use crate::byte_text::lower_text;
use crate::decimal::{decimal, push_decimal};
use crate::overrides::{
    group_number, group_place, interior_place, joined_groups, joined_ids, kinds, lemma_group_place,
    lemma_groups_stay_distinct, numbered, settings, vis_key, with_interior, DynamicVisData,
    DynamicVisGroup, DynamicVisKind, InteriorSetting, Overrides, StaticOverride, StaticOverrides,
    VisKind,
};
use crate::text::texts;
use crate::text_map::TextMap;
use vstd::prelude::*;

verus! {

/// What a replaced directive was about.
#[derive(Clone, Copy, Debug, PartialEq, Eq, Structural)]
pub enum ConflictKind {
    Mesh,
    Object,
    Interior,
}

/// A directive of one source that replaced another value from a different source.
#[derive(Debug, PartialEq, Eq)]
pub struct OverrideConflict {
    pub kind: ConflictKind,
    pub key: String,
    /// Position of the source whose value stands.
    pub source: usize,
    /// Position of the source whose value was replaced.
    pub replaced: usize,
}

/// A conflict, as mathematical values.
pub open spec fn conflict_view(c: OverrideConflict) -> (ConflictKind, Seq<char>, usize, usize) {
    (c.kind, c.key@, c.source, c.replaced)
}

/// The conflicts, as mathematical values.
pub open spec fn conflict_views(conflicts: Seq<OverrideConflict>) -> Seq<
    (ConflictKind, Seq<char>, usize, usize),
> {
    conflicts.map_values(|c: OverrideConflict| conflict_view(c))
}

/// A merge in progress, as mathematical values.
#[verifier::ext_equal]
pub struct Merge {
    pub overrides: Overrides,
    pub sources: Seq<Seq<char>>,
    /// The source that each directive came from last.
    pub mesh_sources: Map<Seq<char>, usize>,
    pub name_sources: Map<Seq<char>, usize>,
    pub interior_sources: Seq<usize>,
    pub conflicts: Seq<(ConflictKind, Seq<char>, usize, usize)>,
}

/// A merge of no sources.
pub open spec fn empty_merge() -> Merge {
    Merge {
        overrides: Overrides {
            meshes: Map::empty(),
            names: Map::empty(),
            interiors: Seq::empty(),
            groups: Seq::empty(),
            scripts: Map::empty(),
            unique_objects: Map::empty(),
        },
        sources: Seq::empty(),
        mesh_sources: Map::empty(),
        name_sources: Map::empty(),
        interior_sources: Seq::empty(),
        conflicts: Seq::empty(),
    }
}

/// Position of the source that directives are attributed to.
pub open spec fn current_source(m: Merge) -> usize {
    if m.sources.len() == 0 {
        0
    } else {
        (m.sources.len() - 1) as usize
    }
}

/// The merge with another source begun.
pub open spec fn with_source(m: Merge, label: Seq<char>) -> Merge {
    Merge { sources: m.sources.push(label), ..m }
}

/// The conflicts after a directive replaced what an earlier source said.
pub open spec fn noted(
    m: Merge,
    kind: ConflictKind,
    key: Seq<char>,
    known: bool,
    replaced: usize,
    differs: bool,
) -> Seq<(ConflictKind, Seq<char>, usize, usize)> {
    if known && replaced != current_source(m) && differs {
        m.conflicts.push((kind, key, current_source(m), replaced))
    } else {
        m.conflicts
    }
}

/// The merge after a directive on a mesh.
pub open spec fn with_mesh(m: Merge, key: Seq<char>, value: StaticOverride) -> Merge {
    Merge {
        overrides: Overrides { meshes: m.overrides.meshes.insert(key, value), ..m.overrides },
        mesh_sources: m.mesh_sources.insert(key, current_source(m)),
        conflicts: noted(
            m,
            ConflictKind::Mesh,
            key,
            m.overrides.meshes.dom().contains(key) && m.mesh_sources.dom().contains(key),
            m.mesh_sources[key],
            m.overrides.meshes[key] != value,
        ),
        ..m
    }
}

/// The merge after a directive on an object.
pub open spec fn with_name(m: Merge, key: Seq<char>, enabled: bool) -> Merge {
    Merge {
        overrides: Overrides { names: m.overrides.names.insert(key, enabled), ..m.overrides },
        name_sources: m.name_sources.insert(key, current_source(m)),
        conflicts: noted(
            m,
            ConflictKind::Object,
            key,
            m.overrides.names.dom().contains(key) && m.name_sources.dom().contains(key),
            m.name_sources[key],
            m.overrides.names[key] != enabled,
        ),
        ..m
    }
}

/// The merge after a directive on an interior.
pub open spec fn with_cell(m: Merge, name: Seq<char>, enabled: bool) -> Merge {
    let place = interior_place(m.overrides.interiors, name) as int;
    let known = place < m.overrides.interiors.len();
    Merge {
        overrides: Overrides {
            interiors: with_interior(m.overrides.interiors, name, enabled),
            ..m.overrides
        },
        interior_sources: if known {
            m.interior_sources.update(place, current_source(m))
        } else {
            m.interior_sources.push(current_source(m))
        },
        conflicts: noted(
            m,
            ConflictKind::Interior,
            name,
            known,
            m.interior_sources[place],
            m.overrides.interiors[place].1 != enabled,
        ),
        ..m
    }
}

/// The merge after a dynamic-visibility group. Its script, or the objects linked to its group,
/// lead to the number of the group.
pub open spec fn with_vis(m: Merge, key: Seq<char>, kind: VisKind) -> Merge {
    let place = group_place(m.overrides.groups, kind) as int;
    let groups = joined_groups(m.overrides.groups, kind);
    Merge {
        overrides: Overrides {
            groups,
            scripts: if kind is UniqueObject {
                m.overrides.scripts
            } else {
                m.overrides.scripts.insert(key, group_number(place))
            },
            unique_objects: if kind is UniqueObject {
                numbered(m.overrides.unique_objects, groups[place]->UniqueObject_1, group_number(place))
            } else {
                m.overrides.unique_objects
            },
            ..m.overrides
        },
        ..m
    }
}

/// Merges override sources. Later sources win; a value that replaces a different one from another
/// source is noted as a conflict.
pub struct OverridesBuilder {
    pub result: StaticOverrides,
    pub sources: Vec<String>,
    pub mesh_sources: TextMap<usize>,
    pub name_sources: TextMap<usize>,
    pub interior_sources: Vec<usize>,
    pub conflicts: Vec<OverrideConflict>,
}

impl View for OverridesBuilder {
    type V = Merge;

    open spec fn view(&self) -> Merge {
        Merge {
            overrides: self.result@,
            sources: texts(self.sources@),
            mesh_sources: self.mesh_sources@,
            name_sources: self.name_sources@,
            interior_sources: self.interior_sources@,
            conflicts: conflict_views(self.conflicts@),
        }
    }
}

fn same_ranges(a: &Vec<(i32, i32)>, b: &Vec<(i32, i32)>) -> (r: bool)
    ensures
        r == (a@ == b@),
{
    if a.len() != b.len() {
        return false;
    }
    let mut i: usize = 0;
    while i < a.len()
        invariant
            i <= a@.len(),
            a@.len() == b@.len(),
            forall|k: int| 0 <= k < i ==> a@[k] == b@[k],
        decreases a@.len() - i,
    {
        if a[i].0 != b[i].0 || a[i].1 != b[i].1 {
            assert(a@[i as int] != b@[i as int]);
            return false;
        }
        i = i + 1;
    }
    assert(a@ =~= b@);
    true
}

fn same_text(a: &String, b: &String) -> (r: bool)
    ensures
        r == (a@ == b@),
{
    *a == *b
}

impl DynamicVisKind {
    /// Whether the two groups are one.
    pub fn same_group(&self, other: &DynamicVisKind) -> (r: bool)
        ensures
            r == (vis_key(self@) == vis_key(other@)),
    {
        match (self, other) {
            (
                DynamicVisKind::Journal { journal_id, ranges },
                DynamicVisKind::Journal { journal_id: other_id, ranges: other_ranges },
            ) => same_text(journal_id, other_id) && same_ranges(ranges, other_ranges),
            (
                DynamicVisKind::Global { global_id, ranges },
                DynamicVisKind::Global { global_id: other_id, ranges: other_ranges },
            ) => same_text(global_id, other_id) && same_ranges(ranges, other_ranges),
            (
                DynamicVisKind::UniqueObject { source_id, .. },
                DynamicVisKind::UniqueObject { source_id: other_id, .. },
            ) => same_text(source_id, other_id),
            _ => false,
        }
    }
}

fn lists_text(list: &Vec<String>, text: &String) -> (r: bool)
    ensures
        r == texts(list@).contains(text@),
{
    let mut i: usize = 0;
    while i < list.len()
        invariant
            i <= list@.len(),
            forall|k: int| 0 <= k < i ==> texts(list@)[k] != text@,
        decreases list@.len() - i,
    {
        if same_text(&list[i], text) {
            assert(texts(list@)[i as int] == text@);
            return true;
        }
        i = i + 1;
    }
    false
}

/// Appends the identifiers that are not listed yet.
fn join_ids(ids: &mut Vec<String>, more: &Vec<String>)
    ensures
        texts(final(ids)@) == joined_ids(texts(old(ids)@), texts(more@)),
{
    let mut i: usize = 0;
    assert(texts(more@).take(0) =~= Seq::empty());
    while i < more.len()
        invariant
            i <= more@.len(),
            texts(ids@) == joined_ids(texts(old(ids)@), texts(more@).take(i as int)),
        decreases more@.len() - i,
    {
        let ghost before = ids@;
        proof {
            let next = texts(more@).take(i + 1);
            assert(next.drop_last() =~= texts(more@).take(i as int));
            assert(next.last() == more@[i as int]@);
        }
        if !lists_text(ids, &more[i]) {
            ids.push(more[i].clone());
            assert(texts(ids@) =~= texts(before).push(more@[i as int]@));
        }
        i = i + 1;
    }
    assert(texts(more@).take(i as int) =~= texts(more@));
}

fn number_of(place: usize) -> (r: u16)
    ensures
        r == group_number(place as int),
{
    let low: usize = place % 0x1_0000;
    if low == 0xffff {
        0
    } else {
        (low + 1) as u16
    }
}

/// Gives every identifier the number.
fn number_ids(table: &mut TextMap<u16>, ids: &Vec<String>, number: u16)
    requires
        old(table).wf(),
    ensures
        final(table).wf(),
        final(table)@ == numbered(old(table)@, texts(ids@), number),
{
    let ghost before = table@;
    let mut i: usize = 0;
    assert(numbered(before, texts(ids@).take(0), number) =~= before);
    while i < ids.len()
        invariant
            i <= ids@.len(),
            table.wf(),
            table@ == numbered(before, texts(ids@).take(i as int), number),
        decreases ids@.len() - i,
    {
        let ghost now = table@;
        table.insert(ids[i].clone(), number);
        proof {
            let done = texts(ids@).take(i as int);
            let next = texts(ids@).take(i + 1);
            assert(next =~= done.push(ids@[i as int]@));
            assert forall|key: Seq<char>| #[trigger] next.contains(key) <==> done.contains(key)
                || key == ids@[i as int]@ by {
                assert(next[i as int] == ids@[i as int]@);
                if done.contains(key) {
                    let k = choose|k: int| 0 <= k < done.len() && done[k] == key;
                    assert(next[k] == key);
                }
                if next.contains(key) && key != ids@[i as int]@ {
                    let k = choose|k: int| 0 <= k < next.len() && next[k] == key;
                    assert(done[k] == key);
                }
            }
            assert(table@ =~= numbered(before, next, number));
        }
        i = i + 1;
    }
    assert(texts(ids@).take(i as int) =~= texts(ids@));
}

impl DynamicVisData {
    /// Position of the first group that is one with `kind`, or the number of groups.
    fn place_of(&self, kind: &DynamicVisKind) -> (r: usize)
        ensures
            r == group_place(kinds(self.groups@), kind@),
            r <= self.groups@.len(),
    {
        let ghost groups = kinds(self.groups@);
        let mut i: usize = 0;
        assert(groups.skip(0) =~= groups);
        while i < self.groups.len()
            invariant
                i <= self.groups@.len(),
                groups == kinds(self.groups@),
                group_place(groups, kind@) == i + group_place(groups.skip(i as int), kind@),
            decreases self.groups@.len() - i,
        {
            proof {
                assert(groups.skip(i as int)[0] == groups[i as int]);
                assert(groups.skip(i as int).skip(1) =~= groups.skip(i + 1));
            }
            if self.groups[i].kind.same_group(kind) {
                return i;
            }
            i = i + 1;
        }
        assert(groups.skip(i as int).len() == 0);
        i
    }
}

impl OverridesBuilder {
    /// The tables are well formed, and each interior has its source.
    pub open spec fn wf(&self) -> bool {
        &&& self.result.wf()
        &&& self.mesh_sources.wf()
        &&& self.name_sources.wf()
        &&& self.interior_sources@.len() == self.result.interiors@.len()
    }

    /// A merge of no sources.
    pub fn new() -> (r: Self)
        ensures
            r.wf(),
            r@ == empty_merge(),
    {
        let r = OverridesBuilder {
            result: StaticOverrides {
                mesh_overrides: TextMap::new(),
                names: TextMap::new(),
                interiors: Vec::new(),
                dynamic_vis: DynamicVisData {
                    groups: Vec::new(),
                    scripts: TextMap::new(),
                    unique_objects: TextMap::new(),
                },
            },
            sources: Vec::new(),
            mesh_sources: TextMap::new(),
            name_sources: TextMap::new(),
            interior_sources: Vec::new(),
            conflicts: Vec::new(),
        };
        assert(r@ =~~= empty_merge());
        r
    }

    /// Attributes what follows to another source.
    pub fn begin_source(&mut self, label: String)
        requires
            old(self).wf(),
        ensures
            final(self).wf(),
            final(self)@ == with_source(old(self)@, label@),
    {
        self.sources.push(label);
        assert(texts(self.sources@) =~= texts(old(self).sources@).push(label@));
    }

    /// Label of the source that directives are attributed to.
    pub fn current_source_label(&self) -> (r: &str)
        ensures
            r@ == if self@.sources.len() == 0 {
                "<unknown>"@
            } else {
                self@.sources.last()
            },
    {
        if self.sources.len() == 0 {
            "<unknown>"
        } else {
            self.sources[self.sources.len() - 1].as_str()
        }
    }

    fn current_source_index(&self) -> (r: usize)
        ensures
            r == current_source(self@),
    {
        if self.sources.len() == 0 {
            0
        } else {
            self.sources.len() - 1
        }
    }

    fn note(&mut self, kind: ConflictKind, key: &str, replaced: usize)
        requires
            old(self).wf(),
        ensures
            final(self).wf(),
            final(self)@ == (Merge {
                conflicts: old(self)@.conflicts.push(
                    (kind, key@, current_source(old(self)@), replaced),
                ),
                ..old(self)@
            }),
    {
        let source: usize = self.current_source_index();
        let conflict = OverrideConflict { kind, key: key.to_owned(), source, replaced };
        let ghost seen = conflict_view(conflict);
        self.conflicts.push(conflict);
        assert(conflict_views(self.conflicts@) =~= conflict_views(old(self).conflicts@).push(seen));
    }

    /// Sets what is said of a mesh.
    pub fn insert_mesh_override(&mut self, key: String, value: StaticOverride)
        requires
            old(self).wf(),
        ensures
            final(self).wf(),
            final(self)@ == with_mesh(old(self)@, key@, value),
    {
        let source: usize = self.current_source_index();
        let mut replaced: Option<usize> = None;
        if let Some(previous) = self.result.mesh_overrides.get(key.as_str()) {
            if let Some(from) = self.mesh_sources.get(key.as_str()) {
                if *from != source && *previous != value {
                    replaced = Some(*from);
                }
            }
        }
        if let Some(from) = replaced {
            self.note(ConflictKind::Mesh, key.as_str(), from);
        }
        self.mesh_sources.insert(key.clone(), source);
        self.result.mesh_overrides.insert(key, value);
        assert(self@ =~~= with_mesh(old(self)@, key@, value));
    }

    /// Enables or disables an object.
    pub fn insert_name(&mut self, key: String, enabled: bool)
        requires
            old(self).wf(),
        ensures
            final(self).wf(),
            final(self)@ == with_name(old(self)@, key@, enabled),
    {
        let source: usize = self.current_source_index();
        let mut replaced: Option<usize> = None;
        if let Some(previous) = self.result.names.get(key.as_str()) {
            if let Some(from) = self.name_sources.get(key.as_str()) {
                if *from != source && *previous != enabled {
                    replaced = Some(*from);
                }
            }
        }
        if let Some(from) = replaced {
            self.note(ConflictKind::Object, key.as_str(), from);
        }
        self.name_sources.insert(key.clone(), source);
        self.result.names.insert(key, enabled);
        assert(self@ =~~= with_name(old(self)@, key@, enabled));
    }

    /// Enables or disables an interior, whatever the case of its name.
    pub fn insert_interior(&mut self, name: String, enabled: bool)
        requires
            old(self).wf(),
        ensures
            final(self).wf(),
            final(self)@ == with_cell(old(self)@, name@, enabled),
    {
        let source: usize = self.current_source_index();
        let place: usize = self.result.place_of_interior(name.as_str());
        if place < self.result.interiors.len() {
            let from: usize = self.interior_sources[place];
            if from != source && self.result.interiors[place].enabled != enabled {
                self.note(ConflictKind::Interior, name.as_str(), from);
            }
            self.interior_sources.set(place, source);
            let ghost before = self.result.interiors@;
            let kept = self.result.interiors[place].name.clone();
            self.result.interiors.set(place, InteriorSetting { name: kept, enabled });
            assert(settings(self.result.interiors@) =~= settings(before).update(
                place as int,
                (settings(before)[place as int].0, enabled),
            ));
        } else {
            self.interior_sources.push(source);
            let ghost before = self.result.interiors@;
            self.result.interiors.push(InteriorSetting { name, enabled });
            assert(settings(self.result.interiors@) =~= settings(before).push((name@, enabled)));
        }
        assert(self@ =~~= with_cell(old(self)@, name@, enabled));
    }

    /// Adds a dynamic-visibility group, or joins it to the group that it is one with.
    pub fn insert_dynamic_vis(&mut self, key: String, kind: DynamicVisKind)
        requires
            old(self).wf(),
        ensures
            final(self).wf(),
            final(self)@ == with_vis(old(self)@, key@, kind@),
    {
        let ghost wanted = kind@;
        let ghost before = kinds(self.result.dynamic_vis.groups@);
        let place: usize = self.result.dynamic_vis.place_of(&kind);
        proof {
            lemma_group_place(before, wanted);
            lemma_groups_stay_distinct(before, wanted);
        }
        let is_unique: bool = match &kind {
            DynamicVisKind::UniqueObject { .. } => true,
            _ => false,
        };
        let number: u16 = number_of(place);
        if place < self.result.dynamic_vis.groups.len() {
            if let DynamicVisKind::UniqueObject { linked_ids, .. } = &kind {
                let ghost known = self.result.dynamic_vis.groups@;
                let group: &mut DynamicVisGroup = &mut self.result.dynamic_vis.groups[place];
                if let DynamicVisKind::UniqueObject { linked_ids: existing, .. } = &mut group.kind {
                    join_ids(existing, linked_ids);
                }
                assert(kinds(self.result.dynamic_vis.groups@) =~= joined_groups(before, wanted));
            } else {
                assert(before.update(place as int, before[place as int]) =~= before);
            }
        } else {
            let ghost known = self.result.dynamic_vis.groups@;
            self.result.dynamic_vis.groups.push(DynamicVisGroup { index: 0, kind });
            assert(kinds(self.result.dynamic_vis.groups@) =~= kinds(known).push(wanted));
        }
        assert(kinds(self.result.dynamic_vis.groups@) == joined_groups(before, wanted));
        if is_unique {
            if let DynamicVisKind::UniqueObject { linked_ids, .. } =
                &self.result.dynamic_vis.groups[place].kind {
                number_ids(&mut self.result.dynamic_vis.unique_objects, linked_ids, number);
            }
        } else {
            self.result.dynamic_vis.scripts.insert(key, number);
        }
        assert(self@ =~~= with_vis(old(self)@, key@, wanted));
    }

    /// Finishes the merge: the groups are numbered from 1 in the order in which they came.
    pub fn finish(self) -> (r: StaticOverrides)
        requires
            self.wf(),
        ensures
            r.wf(),
            r@ == self@.overrides,
            forall|i: int|
                0 <= i < r.dynamic_vis.groups@.len() ==> (#[trigger] r.dynamic_vis.groups@[i]).index
                    == group_number(i),
    {
        let mut result = self.result;
        let ghost before = result.dynamic_vis.groups@;
        let mut i: usize = 0;
        while i < result.dynamic_vis.groups.len()
            invariant
                i <= result.dynamic_vis.groups@.len(),
                result.wf(),
                result@ == self@.overrides,
                forall|k: int|
                    0 <= k < i ==> (#[trigger] result.dynamic_vis.groups@[k]).index == group_number(k),
            decreases result.dynamic_vis.groups@.len() - i,
        {
            let ghost now = result.dynamic_vis.groups@;
            let ghost seen = result@;
            let number: u16 = number_of(i);
            result.dynamic_vis.groups[i].index = number;
            assert(kinds(result.dynamic_vis.groups@) =~= kinds(now));
            assert(result@ =~~= seen);
            i = i + 1;
        }
        result
    }
}

/// A later directive decides what holds of a mesh.
pub proof fn lemma_later_mesh_wins(
    m: Merge,
    key: Seq<char>,
    first: StaticOverride,
    label: Seq<char>,
    last: StaticOverride,
)
    ensures
        ({
            let after = with_mesh(with_source(with_mesh(m, key, first), label), key, last);
            &&& after.overrides.meshes == m.overrides.meshes.insert(key, last)
            &&& m.sources.len() > 0 && m.sources.len() < usize::MAX && first != last
                ==> after.conflicts.len() > 0 && after.conflicts.last() == (
                ConflictKind::Mesh,
                key,
                m.sources.len() as usize,
                (m.sources.len() - 1) as usize,
            )
        }),
{
    let mid = with_source(with_mesh(m, key, first), label);
    let after = with_mesh(mid, key, last);
    assert(after.overrides.meshes =~= m.overrides.meshes.insert(key, last));
    assert(mid.sources.len() == m.sources.len() + 1);
}

/// A later directive decides whether an object is enabled.
pub proof fn lemma_later_name_wins(m: Merge, key: Seq<char>, first: bool, last: bool)
    ensures
        with_name(with_name(m, key, first), key, last).overrides.names == m.overrides.names.insert(
            key,
            last,
        ),
{
    assert(with_name(with_name(m, key, first), key, last).overrides.names
        =~= m.overrides.names.insert(key, last));
}

/// Where an interior stands once it is set.
proof fn lemma_interior_found(entries: Seq<(Seq<char>, bool)>, name: Seq<char>, enabled: bool, other: Seq<char>)
    requires
        lower_text(name) == lower_text(other),
    ensures
        interior_place(entries, name) == interior_place(entries, other),
        interior_place(entries, name) <= entries.len(),
        interior_place(with_interior(entries, name, enabled), other) == interior_place(entries, name),
        interior_place(entries, name) < with_interior(entries, name, enabled).len(),
    decreases entries.len(),
{
    let after = with_interior(entries, name, enabled);
    if entries.len() == 0 {
        assert(after[0] == (name, enabled));
    } else if lower_text(entries[0].0) == lower_text(name) {
        assert(after[0].0 == entries[0].0);
    } else {
        lemma_interior_found(entries.skip(1), name, enabled, other);
        assert(after.skip(1) =~= with_interior(entries.skip(1), name, enabled)) by {
            let place = interior_place(entries, name) as int;
            let inner = interior_place(entries.skip(1), name) as int;
            assert(place == inner + 1);
        }
        assert(after[0] == entries[0]);
    }
}

/// A later directive decides whether an interior is enabled, whatever the case of its name in
/// either.
pub proof fn lemma_later_interior_wins(
    m: Merge,
    name: Seq<char>,
    first: bool,
    other: Seq<char>,
    last: bool,
)
    requires
        lower_text(name) == lower_text(other),
    ensures
        ({
            let after = with_cell(with_cell(m, name, first), other, last).overrides.interiors;
            let place = interior_place(after, name) as int;
            &&& place < after.len()
            &&& after[place].1 == last
            &&& after.len() == with_cell(m, name, first).overrides.interiors.len()
        }),
{
    let start = m.overrides.interiors;
    let mid = with_interior(start, name, first);
    lemma_interior_found(start, name, first, other);
    lemma_interior_found(mid, other, last, name);
}

/// Label of an override text by its number.
pub open spec fn text_label(number: nat) -> Seq<char> {
    "<override text "@ + decimal(number) + ">"@
}

/// Label of the override text that follows `count` sources.
pub fn label_text(count: usize) -> (r: String)
    requires
        count < usize::MAX,
    ensures
        r@ == text_label((count + 1) as nat),
{
    let mut label = "<override text ".to_owned();
    push_decimal(&mut label, count as u64 + 1);
    label.append(">");
    label
}

} // verus!
