//! Static overrides, and the builder that merges them from several sources.

use crate::byte_text::{lower_text, uncased_equal};
use crate::model::StaticType;
use crate::text::texts;
use crate::text_map::TextMap;
use vstd::prelude::*;

pub mod builder;
pub mod group_laws;
pub mod keys;
pub mod keyword_laws;
pub mod laws;
pub mod lines;
pub mod merge_laws;
pub mod parse;

verus! {

/// Most ranges that a dynamic-visibility group holds.
pub const MAX_RANGES: usize = 8;

/// What the sources say of one mesh.
#[derive(Clone, Copy, Debug, PartialEq, Eq, Structural)]
pub struct StaticOverride {
    /// The mesh takes no part in distant land.
    pub ignore: bool,
    /// Explicit class of the mesh.
    pub static_type: StaticType,
    /// Grass density in percent, where one is given.
    pub density: Option<u32>,
    /// Simplification in percent, where one is given.
    pub simplify: Option<u32>,
    /// The mesh is classified as if its object had no script.
    pub no_script: bool,
}

/// An override that says nothing.
pub open spec fn no_override() -> StaticOverride {
    StaticOverride {
        ignore: false,
        static_type: StaticType::StaticAuto,
        density: None,
        simplify: None,
        no_script: false,
    }
}

impl Default for StaticOverride {
    fn default() -> (r: Self)
        ensures
            r == no_override(),
    {
        StaticOverride {
            ignore: false,
            static_type: StaticType::StaticAuto,
            density: None,
            simplify: None,
            no_script: false,
        }
    }
}

/// What decides whether a group is visible. Ranges are half open.
#[derive(Debug, PartialEq, Eq)]
pub enum DynamicVisKind {
    /// The index of a journal lies in one of the ranges.
    Journal { journal_id: String, ranges: Vec<(i32, i32)> },
    /// The value of a global variable lies in one of the ranges.
    Global { global_id: String, ranges: Vec<(i32, i32)> },
    /// The controlling object is enabled.
    UniqueObject { source_id: String, linked_ids: Vec<String> },
}

/// What decides whether a group is visible, as mathematical values.
#[verifier::ext_equal]
pub enum VisKind {
    Journal(Seq<char>, Seq<(i32, i32)>),
    Global(Seq<char>, Seq<(i32, i32)>),
    UniqueObject(Seq<char>, Seq<Seq<char>>),
}

impl View for DynamicVisKind {
    type V = VisKind;

    open spec fn view(&self) -> VisKind {
        match self {
            DynamicVisKind::Journal { journal_id, ranges } => VisKind::Journal(
                journal_id@,
                ranges@,
            ),
            DynamicVisKind::Global { global_id, ranges } => VisKind::Global(global_id@, ranges@),
            DynamicVisKind::UniqueObject { source_id, linked_ids } => VisKind::UniqueObject(
                source_id@,
                texts(linked_ids@),
            ),
        }
    }
}

/// What two groups have in common when they are one: the kind, what is tested, and the ranges. A
/// unique object is one group whatever is linked to it.
pub open spec fn vis_key(kind: VisKind) -> (nat, Seq<char>, Seq<(i32, i32)>) {
    match kind {
        VisKind::Journal(id, ranges) => (1, id, ranges),
        VisKind::Global(id, ranges) => (2, id, ranges),
        VisKind::UniqueObject(id, _) => (3, id, seq![(1i32, 2i32)]),
    }
}

/// Position of the first group with the key of `kind`, or the number of groups.
pub open spec fn group_place(groups: Seq<VisKind>, kind: VisKind) -> nat
    decreases groups.len(),
{
    if groups.len() == 0 || vis_key(groups[0]) == vis_key(kind) {
        0
    } else {
        1 + group_place(groups.skip(1), kind)
    }
}

/// The identifiers followed by those of `more` that are not among them yet.
pub open spec fn joined_ids(ids: Seq<Seq<char>>, more: Seq<Seq<char>>) -> Seq<Seq<char>>
    decreases more.len(),
{
    if more.len() == 0 {
        ids
    } else {
        let before = joined_ids(ids, more.drop_last());
        if before.contains(more.last()) {
            before
        } else {
            before.push(more.last())
        }
    }
}

/// A group after another with the same key joined it.
pub open spec fn joined_kind(group: VisKind, more: VisKind) -> VisKind {
    match (group, more) {
        (VisKind::UniqueObject(id, linked), VisKind::UniqueObject(_, others)) =>
            VisKind::UniqueObject(id, joined_ids(linked, others)),
        _ => group,
    }
}

/// The groups after `kind` joined its group or became one.
pub open spec fn joined_groups(groups: Seq<VisKind>, kind: VisKind) -> Seq<VisKind> {
    let place = group_place(groups, kind) as int;
    if place < groups.len() {
        groups.update(place, joined_kind(groups[place], kind))
    } else {
        groups.push(kind)
    }
}

/// The number of the group at a position: from 1, in 16 bits.
pub open spec fn group_number(place: int) -> u16 {
    ((place + 1) % 0x1_0000) as u16
}

/// The table after every identifier was given the number.
pub open spec fn numbered(
    table: Map<Seq<char>, u16>,
    ids: Seq<Seq<char>>,
    number: u16,
) -> Map<Seq<char>, u16> {
    Map::new(
        |key: Seq<char>| table.dom().contains(key) || ids.contains(key),
        |key: Seq<char>|
            if ids.contains(key) {
                number
            } else {
                table[key]
            },
    )
}

/// No two groups have one key.
pub open spec fn keys_distinct(groups: Seq<VisKind>) -> bool {
    forall|i: int, j: int|
        0 <= i < j < groups.len() ==> vis_key(#[trigger] groups[i]) != vis_key(#[trigger] groups[j])
}

/// The place is that of the first group with the key.
pub proof fn lemma_group_place(groups: Seq<VisKind>, kind: VisKind)
    ensures
        group_place(groups, kind) <= groups.len(),
        group_place(groups, kind) < groups.len() ==> vis_key(
            groups[group_place(groups, kind) as int],
        ) == vis_key(kind),
        forall|i: int|
            0 <= i < group_place(groups, kind) ==> vis_key(#[trigger] groups[i]) != vis_key(kind),
    decreases groups.len(),
{
    if groups.len() > 0 && vis_key(groups[0]) != vis_key(kind) {
        let rest = groups.skip(1);
        lemma_group_place(rest, kind);
        assert forall|i: int| 0 <= i < group_place(groups, kind) implies vis_key(
            #[trigger] groups[i],
        ) != vis_key(kind) by {
            if i > 0 {
                assert(rest[i - 1] == groups[i]);
            }
        }
    }
}

/// Groups never come to share a key: what joins the groups joins the one with its key, if any.
pub proof fn lemma_groups_stay_distinct(groups: Seq<VisKind>, kind: VisKind)
    requires
        keys_distinct(groups),
    ensures
        keys_distinct(joined_groups(groups, kind)),
{
    lemma_group_place(groups, kind);
    let after = joined_groups(groups, kind);
    let place = group_place(groups, kind) as int;
    assert forall|i: int, j: int| 0 <= i < j < after.len() implies vis_key(#[trigger] after[i])
        != vis_key(#[trigger] after[j]) by {
        if place < groups.len() {
            assert(vis_key(after[i]) == vis_key(groups[i]));
            assert(vis_key(after[j]) == vis_key(groups[j]));
        } else if j < groups.len() {
            assert(after[i] == groups[i] && after[j] == groups[j]);
        } else {
            assert(after[i] == groups[i]);
        }
    }
}

/// Joining a group twice is joining it once.
pub proof fn lemma_join_idempotent(groups: Seq<VisKind>, kind: VisKind)
    ensures
        joined_groups(joined_groups(groups, kind), kind).len() == joined_groups(groups, kind).len(),
        group_place(joined_groups(groups, kind), kind) == group_place(groups, kind),
{
    lemma_group_place(groups, kind);
    let after = joined_groups(groups, kind);
    lemma_group_place(after, kind);
    let place = group_place(groups, kind) as int;
    let again = group_place(after, kind) as int;
    assert(vis_key(after[place]) == vis_key(kind));
    if again < place {
        assert(after[again] == groups[again]);
    }
}

/// One dynamic-visibility group.
#[derive(Debug, PartialEq, Eq)]
pub struct DynamicVisGroup {
    /// Number of the group, counted from 1; 0 until the merge is finished.
    pub index: u16,
    pub kind: DynamicVisKind,
}

/// The kinds of the groups.
pub open spec fn kinds(groups: Seq<DynamicVisGroup>) -> Seq<VisKind> {
    groups.map_values(|group: DynamicVisGroup| group.kind@)
}

/// Dynamic-visibility groups and the tables that lead to them.
pub struct DynamicVisData {
    pub groups: Vec<DynamicVisGroup>,
    /// Number of the group that objects with a script belong to.
    pub scripts: TextMap<u16>,
    /// Number of the group that an object belongs to.
    pub unique_objects: TextMap<u16>,
}

/// One interior and whether it is enabled.
#[derive(Debug, PartialEq, Eq)]
pub struct InteriorSetting {
    pub name: String,
    pub enabled: bool,
}

/// The interiors with their settings, as mathematical values.
pub open spec fn settings(entries: Seq<InteriorSetting>) -> Seq<(Seq<char>, bool)> {
    entries.map_values(|entry: InteriorSetting| (entry.name@, entry.enabled))
}

/// Position of the interior with this name, whatever the case, or the number of interiors.
pub open spec fn interior_place(entries: Seq<(Seq<char>, bool)>, name: Seq<char>) -> nat
    decreases entries.len(),
{
    if entries.len() == 0 || lower_text(entries[0].0) == lower_text(name) {
        0
    } else {
        1 + interior_place(entries.skip(1), name)
    }
}

/// The interiors after one is set. A known interior keeps its spelling.
pub open spec fn with_interior(
    entries: Seq<(Seq<char>, bool)>,
    name: Seq<char>,
    enabled: bool,
) -> Seq<(Seq<char>, bool)> {
    let place = interior_place(entries, name) as int;
    if place < entries.len() {
        entries.update(place, (entries[place].0, enabled))
    } else {
        entries.push((name, enabled))
    }
}

/// The place of an interior in a longer list, once the front is known not to hold it.
proof fn lemma_interior_step(entries: Seq<(Seq<char>, bool)>, name: Seq<char>, i: int)
    requires
        0 <= i < entries.len(),
    ensures
        interior_place(entries.skip(i), name) == if lower_text(entries[i].0) == lower_text(name) {
            0
        } else {
            1 + interior_place(entries.skip(i + 1), name)
        },
{
    assert(entries.skip(i)[0] == entries[i]);
    assert(entries.skip(i).skip(1) =~= entries.skip(i + 1));
}

/// Everything the override sources say.
pub struct StaticOverrides {
    pub mesh_overrides: TextMap<StaticOverride>,
    pub names: TextMap<bool>,
    pub interiors: Vec<InteriorSetting>,
    pub dynamic_vis: DynamicVisData,
}

/// Everything the override sources say, as mathematical values.
#[verifier::ext_equal]
pub struct Overrides {
    pub meshes: Map<Seq<char>, StaticOverride>,
    pub names: Map<Seq<char>, bool>,
    pub interiors: Seq<(Seq<char>, bool)>,
    pub groups: Seq<VisKind>,
    pub scripts: Map<Seq<char>, u16>,
    pub unique_objects: Map<Seq<char>, u16>,
}

impl View for StaticOverrides {
    type V = Overrides;

    open spec fn view(&self) -> Overrides {
        Overrides {
            meshes: self.mesh_overrides@,
            names: self.names@,
            interiors: settings(self.interiors@),
            groups: kinds(self.dynamic_vis.groups@),
            scripts: self.dynamic_vis.scripts@,
            unique_objects: self.dynamic_vis.unique_objects@,
        }
    }
}

impl StaticOverrides {
    /// The tables are well formed and no two groups have one key.
    pub open spec fn wf(&self) -> bool {
        &&& self.mesh_overrides.wf()
        &&& self.names.wf()
        &&& self.dynamic_vis.scripts.wf()
        &&& self.dynamic_vis.unique_objects.wf()
        &&& keys_distinct(kinds(self.dynamic_vis.groups@))
    }

    /// Position of the interior with this name, whatever the case.
    pub fn place_of_interior(&self, name: &str) -> (r: usize)
        ensures
            r == interior_place(settings(self.interiors@), name@),
            r <= self.interiors@.len(),
    {
        let ghost entries = settings(self.interiors@);
        let mut i: usize = 0;
        assert(entries.skip(0) =~= entries);
        while i < self.interiors.len()
            invariant
                i <= self.interiors@.len(),
                entries == settings(self.interiors@),
                interior_place(entries, name@) == i + interior_place(entries.skip(i as int), name@),
            decreases self.interiors@.len() - i,
        {
            proof {
                lemma_interior_step(entries, name@, i as int);
            }
            if uncased_equal(self.interiors[i].name.as_str(), name) {
                return i;
            }
            i = i + 1;
        }
        assert(entries.skip(i as int).len() == 0);
        i
    }

    /// Whether the interior with this name is enabled, whatever the case; nothing where no source
    /// names it.
    pub fn interior(&self, name: &str) -> (r: Option<bool>)
        ensures
            r == {
                let place = interior_place(self@.interiors, name@) as int;
                if place < self@.interiors.len() {
                    Some(self@.interiors[place].1)
                } else {
                    None
                }
            },
    {
        let place: usize = self.place_of_interior(name);
        if place < self.interiors.len() {
            Some(self.interiors[place].enabled)
        } else {
            None
        }
    }
}

} // verus!
