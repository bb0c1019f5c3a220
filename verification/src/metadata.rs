//! Distant-land directives of plugin metadata.

use crate::byte_text::{lower_text, lowercase};
use crate::model::StaticType;
use crate::ordered_map::OrderedTextMap;
use crate::overrides::builder::{
    with_cell, with_mesh, with_name, with_vis, Merge, OverridesBuilder,
};
use crate::overrides::keys::{mesh_key, normalize_mesh_override_key};
use crate::overrides::{DynamicVisKind, StaticOverride, VisKind, MAX_RANGES};
use crate::text::texts;
use vstd::prelude::*;

pub mod entry_laws;
pub mod laws;
pub mod path_laws;
pub mod path_style;
pub mod paths;

verus! {

/// Names of static classes.
#[derive(Clone, Copy, Debug, PartialEq, Eq, Structural)]
pub enum StaticTypeName {
    /// The class is inferred.
    Auto,
    Near,
    Far,
    VeryFar,
    Grass,
    Tree,
    Building,
}

impl StaticTypeName {
    /// The class of the name.
    pub open spec fn spec_class(self) -> StaticType {
        match self {
            StaticTypeName::Auto => StaticType::StaticAuto,
            StaticTypeName::Near => StaticType::StaticNear,
            StaticTypeName::Far => StaticType::StaticFar,
            StaticTypeName::VeryFar => StaticType::StaticVeryFar,
            StaticTypeName::Grass => StaticType::StaticGrass,
            StaticTypeName::Tree => StaticType::StaticTree,
            StaticTypeName::Building => StaticType::StaticBuilding,
        }
    }
}

impl From<StaticTypeName> for StaticType {
    fn from(value: StaticTypeName) -> (r: Self) {
        match value {
            StaticTypeName::Auto => StaticType::StaticAuto,
            StaticTypeName::Near => StaticType::StaticNear,
            StaticTypeName::Far => StaticType::StaticFar,
            StaticTypeName::VeryFar => StaticType::StaticVeryFar,
            StaticTypeName::Grass => StaticType::StaticGrass,
            StaticTypeName::Tree => StaticType::StaticTree,
            StaticTypeName::Building => StaticType::StaticBuilding,
        }
    }
}

impl vstd::std_specs::convert::FromSpecImpl<StaticTypeName> for StaticType {
    open spec fn obeys_from_spec() -> bool {
        true
    }

    open spec fn from_spec(value: StaticTypeName) -> StaticType {
        value.spec_class()
    }
}

/// What metadata says of one mesh.
#[derive(Clone, Copy, Debug, PartialEq, Eq, Structural)]
pub struct StaticEntry {
    /// Explicit class.
    pub static_type: Option<StaticTypeName>,
    /// The mesh takes no part in distant land.
    pub ignore: bool,
    /// Grass density in percent.
    pub grass_density: Option<i64>,
    /// Simplification in percent; 0 means none.
    pub reduction: Option<i64>,
    /// The mesh is classified as if its object had no script.
    pub ignore_script: bool,
}

impl Default for StaticEntry {
    fn default() -> (r: Self)
        ensures
            r == (StaticEntry {
                static_type: None,
                ignore: false,
                grass_density: None,
                reduction: None,
                ignore_script: false,
            }),
    {
        StaticEntry {
            static_type: None,
            ignore: false,
            grass_density: None,
            reduction: None,
            ignore_script: false,
        }
    }
}

/// The percentage nearest to the value.
pub open spec fn clamped(value: i64) -> u32 {
    if value < 0 {
        0
    } else if value > 100 {
        100
    } else {
        value as u32
    }
}

/// The override that an entry stands for.
pub open spec fn entry_override(entry: StaticEntry) -> StaticOverride {
    StaticOverride {
        ignore: entry.ignore,
        static_type: match entry.static_type {
            Some(name) => name.spec_class(),
            None => StaticType::StaticAuto,
        },
        density: match entry.grass_density {
            Some(percent) => Some(clamped(percent)),
            None => None,
        },
        simplify: match entry.reduction {
            Some(percent) => Some(clamped(percent)),
            None => None,
        },
        no_script: entry.ignore_script,
    }
}

/// Clamps a percentage to 0 to 100.
pub fn clamp_percentage(value: i64) -> (r: u32)
    ensures
        r == clamped(value),
{
    if value < 0 {
        0
    } else if value > 100 {
        100
    } else {
        value as u32
    }
}

impl StaticEntry {
    /// The override that the entry stands for.
    pub fn to_override(&self) -> (r: StaticOverride)
        ensures
            r == entry_override(*self),
    {
        let mut result = StaticOverride::default();
        result.ignore = self.ignore;
        result.no_script = self.ignore_script;
        if let Some(name) = self.static_type {
            result.static_type = StaticType::from(name);
        }
        if let Some(percent) = self.grass_density {
            result.density = Some(clamp_percentage(percent));
        }
        if let Some(percent) = self.reduction {
            result.simplify = Some(clamp_percentage(percent));
        }
        result
    }
}

/// One dynamic-visibility group. Ranges have both ends in.
pub enum DynamicVisibilityEntry {
    /// The index of a journal decides.
    Journal { script: String, journal: String, ranges: Vec<[i32; 2]> },
    /// The value of a global variable decides.
    Global { script: String, global: String, ranges: Vec<[i32; 2]> },
    /// A controlling object decides.
    UniqueObject { object: String, linked_objects: Vec<String> },
}

/// The half-open form of ranges. A range that ends at the largest number has none.
pub open spec fn half_open(ranges: Seq<[i32; 2]>) -> Seq<(i32, i32)>
    decreases ranges.len(),
{
    if ranges.len() == 0 {
        Seq::empty()
    } else {
        let before = half_open(ranges.drop_last());
        let last = ranges.last()@;
        if last[1] < i32::MAX {
            before.push((last[0], (last[1] + 1) as i32))
        } else {
            before
        }
    }
}

/// As many ranges as a group holds, in half-open form.
pub open spec fn converted(ranges: Seq<[i32; 2]>) -> Seq<(i32, i32)> {
    half_open(
        if ranges.len() > MAX_RANGES {
            ranges.take(MAX_RANGES as int)
        } else {
            ranges
        },
    )
}

/// Takes the first ranges, as many as a group holds, in half-open form.
pub fn convert_ranges(ranges: &[[i32; 2]]) -> (r: Vec<(i32, i32)>)
    ensures
        r@ == converted(ranges@),
{
    let mut out: Vec<(i32, i32)> = Vec::new();
    let mut i: usize = 0;
    assert(ranges@.take(0) =~= Seq::empty());
    while i < ranges.len() && i < MAX_RANGES
        invariant
            i <= ranges@.len(),
            i <= MAX_RANGES,
            out@ == half_open(ranges@.take(i as int)),
        decreases ranges@.len() - i,
    {
        let low: i32 = ranges[i][0];
        let high: i32 = ranges[i][1];
        proof {
            assert(ranges@.take(i + 1).drop_last() =~= ranges@.take(i as int));
            assert(ranges@.take(i + 1).last() == ranges@[i as int]);
        }
        if high < i32::MAX {
            out.push((low, high + 1));
        }
        i = i + 1;
    }
    proof {
        if ranges@.len() <= MAX_RANGES {
            assert(ranges@.take(i as int) =~= ranges@);
        }
    }
    out
}

/// The texts in small letters.
pub open spec fn lower_texts(list: Seq<Seq<char>>) -> Seq<Seq<char>> {
    list.map_values(|text: Seq<char>| lower_text(text))
}

/// The key and the group of an entry; nothing where what identifies it is empty.
pub open spec fn entry_group(entry: DynamicVisibilityEntry) -> Option<(Seq<char>, VisKind)> {
    match entry {
        DynamicVisibilityEntry::Journal { script, journal, ranges } => if script@.len() == 0
            || journal@.len() == 0 {
            None
        } else {
            Some((lower_text(script@), VisKind::Journal(lower_text(journal@), converted(ranges@))))
        },
        DynamicVisibilityEntry::Global { script, global, ranges } => if script@.len() == 0
            || global@.len() == 0 {
            None
        } else {
            Some((lower_text(script@), VisKind::Global(lower_text(global@), converted(ranges@))))
        },
        DynamicVisibilityEntry::UniqueObject { object, linked_objects } => if object@.len() == 0 {
            None
        } else {
            Some(
                (
                    lower_text(object@),
                    VisKind::UniqueObject(
                        lower_text(object@),
                        seq![lower_text(object@)] + lower_texts(texts(linked_objects@)),
                    ),
                ),
            )
        },
    }
}

fn is_empty(text: &String) -> (r: bool)
    ensures
        r == (text@.len() == 0),
{
    text.as_str().unicode_len() == 0
}

impl DynamicVisibilityEntry {
    /// The key and the group of the entry.
    pub fn to_group(&self) -> (r: Option<(String, DynamicVisKind)>)
        ensures
            match r {
                Some((key, kind)) => entry_group(*self) == Some((key@, kind@)),
                None => entry_group(*self) is None,
            },
    {
        match self {
            DynamicVisibilityEntry::Journal { script, journal, ranges } => {
                if is_empty(script) || is_empty(journal) {
                    return None;
                }
                let kind = DynamicVisKind::Journal {
                    journal_id: lowercase(journal.as_str()),
                    ranges: convert_ranges(ranges.as_slice()),
                };
                Some((lowercase(script.as_str()), kind))
            },
            DynamicVisibilityEntry::Global { script, global, ranges } => {
                if is_empty(script) || is_empty(global) {
                    return None;
                }
                let kind = DynamicVisKind::Global {
                    global_id: lowercase(global.as_str()),
                    ranges: convert_ranges(ranges.as_slice()),
                };
                Some((lowercase(script.as_str()), kind))
            },
            DynamicVisibilityEntry::UniqueObject { object, linked_objects } => {
                if is_empty(object) {
                    return None;
                }
                let small = lowercase(object.as_str());
                let linked_ids = linked_below(&small, linked_objects);
                let source_id = small.clone();
                Some((small, DynamicVisKind::UniqueObject { source_id, linked_ids }))
            },
        }
    }
}

fn linked_below(object: &String, others: &Vec<String>) -> (r: Vec<String>)
    ensures
        texts(r@) == seq![object@] + lower_texts(texts(others@)),
{
    let ghost small = lower_texts(texts(others@));
    let mut linked: Vec<String> = Vec::new();
    linked.push(object.clone());
    let mut i: usize = 0;
    assert(texts(linked@) =~= seq![object@] + small.take(0));
    while i < others.len()
        invariant
            i <= others@.len(),
            small == lower_texts(texts(others@)),
            texts(linked@) == seq![object@] + small.take(i as int),
        decreases others@.len() - i,
    {
        let ghost before = linked@;
        let text = lowercase(others[i].as_str());
        let ghost added = text@;
        linked.push(text);
        assert(texts(linked@) =~= texts(before).push(added));
        assert(texts(linked@) =~= seq![object@] + small.take(i + 1));
        i = i + 1;
    }
    assert(small.take(i as int) =~= small);
    linked
}

/// The non-empty texts, each with the flag.
pub open spec fn flagged(list: Seq<Seq<char>>, flag: bool) -> Seq<(Seq<char>, bool)>
    decreases list.len(),
{
    if list.len() == 0 {
        Seq::empty()
    } else {
        let before = flagged(list.drop_last(), flag);
        if list.last().len() == 0 {
            before
        } else {
            before.push((list.last(), flag))
        }
    }
}

/// The directives of two lists: what is included, then what is excluded, so that exclusion wins.
pub open spec fn directives(
    includes: Seq<Seq<char>>,
    excludes: Seq<Seq<char>>,
) -> Seq<(Seq<char>, bool)> {
    flagged(includes, true) + flagged(excludes, false)
}

/// Directives as mathematical values.
pub open spec fn pairs(list: Seq<(String, bool)>) -> Seq<(Seq<char>, bool)> {
    list.map_values(|pair: (String, bool)| (pair.0@, pair.1))
}

fn push_flagged(out: &mut Vec<(String, bool)>, list: &Vec<String>, flag: bool)
    ensures
        pairs(final(out)@) == pairs(old(out)@) + flagged(texts(list@), flag),
{
    let ghost all = texts(list@);
    let mut i: usize = 0;
    assert(all.take(0) =~= Seq::empty());
    assert(pairs(out@) + flagged(all.take(0), flag) =~= pairs(out@));
    while i < list.len()
        invariant
            i <= list@.len(),
            all == texts(list@),
            pairs(out@) == pairs(old(out)@) + flagged(all.take(i as int), flag),
        decreases list@.len() - i,
    {
        let ghost before = out@;
        proof {
            assert(all.take(i + 1).drop_last() =~= all.take(i as int));
            assert(all.take(i + 1).last() == list@[i as int]@);
        }
        if !is_empty(&list[i]) {
            out.push((list[i].clone(), flag));
            assert(pairs(out@) =~= pairs(before).push((list@[i as int]@, flag)));
            assert(pairs(out@) =~= pairs(old(out)@) + flagged(all.take(i + 1), flag));
        }
        i = i + 1;
    }
    assert(all.take(i as int) =~= all);
}

/// The directives of two lists, includes first.
pub fn include_exclude_directives(includes: &Vec<String>, excludes: &Vec<String>) -> (r: Vec<
    (String, bool),
>)
    ensures
        pairs(r@) == directives(texts(includes@), texts(excludes@)),
{
    let mut out: Vec<(String, bool)> = Vec::new();
    push_flagged(&mut out, includes, true);
    assert(pairs(out@) =~= flagged(texts(includes@), true));
    push_flagged(&mut out, excludes, false);
    out
}

/// The directives of one metadata file.
pub struct DistantLandMetadata {
    /// Objects that are enabled.
    pub include_objects: Vec<String>,
    /// Objects that are disabled.
    pub exclude_objects: Vec<String>,
    /// Interiors that are enabled.
    pub include_interiors: Vec<String>,
    /// Interiors that are disabled.
    pub exclude_interiors: Vec<String>,
    /// Entries by mesh path.
    pub statics: OrderedTextMap<StaticEntry>,
    /// Dynamic-visibility groups.
    pub dynamic_visibility: Vec<DynamicVisibilityEntry>,
}

/// The merge after the entries of meshes, by ascending path. A path without a key is skipped.
pub open spec fn with_statics(m: Merge, entries: Seq<(String, StaticEntry)>) -> Merge
    decreases entries.len(),
{
    if entries.len() == 0 {
        m
    } else {
        let before = with_statics(m, entries.drop_last());
        let key = mesh_key(entries.last().0@);
        if key.len() == 0 {
            before
        } else {
            with_mesh(before, key, entry_override(entries.last().1))
        }
    }
}

/// The merge after directives on objects.
pub open spec fn with_names(m: Merge, list: Seq<(Seq<char>, bool)>) -> Merge
    decreases list.len(),
{
    if list.len() == 0 {
        m
    } else {
        with_name(with_names(m, list.drop_last()), lower_text(list.last().0), list.last().1)
    }
}

/// The merge after directives on interiors.
pub open spec fn with_cells(m: Merge, list: Seq<(Seq<char>, bool)>) -> Merge
    decreases list.len(),
{
    if list.len() == 0 {
        m
    } else {
        with_cell(with_cells(m, list.drop_last()), list.last().0, list.last().1)
    }
}

/// The merge after dynamic-visibility groups.
pub open spec fn with_groups(m: Merge, entries: Seq<DynamicVisibilityEntry>) -> Merge
    decreases entries.len(),
{
    if entries.len() == 0 {
        m
    } else {
        let before = with_groups(m, entries.drop_last());
        match entry_group(entries.last()) {
            Some((key, kind)) => with_vis(before, key, kind),
            None => before,
        }
    }
}

/// The merge after the directives of a metadata file.
pub open spec fn applied(m: Merge, metadata: DistantLandMetadata) -> Merge {
    with_groups(
        with_cells(
            with_names(
                with_statics(m, metadata.statics.listed()),
                directives(texts(metadata.include_objects@), texts(metadata.exclude_objects@)),
            ),
            directives(texts(metadata.include_interiors@), texts(metadata.exclude_interiors@)),
        ),
        metadata.dynamic_visibility@,
    )
}

impl DistantLandMetadata {
    fn apply_statics(&self, builder: &mut OverridesBuilder)
        requires
            old(builder).wf(),
        ensures
            final(builder).wf(),
            final(builder)@ == with_statics(old(builder)@, self.statics.listed()),
    {
        let ghost entries = self.statics.listed();
        let mut i: usize = 0;
        assert(entries.take(0) =~= Seq::empty());
        while i < self.statics.len()
            invariant
                i <= entries.len(),
                entries == self.statics.listed(),
                builder.wf(),
                builder@ == with_statics(old(builder)@, entries.take(i as int)),
            decreases entries.len() - i,
        {
            let key = normalize_mesh_override_key(self.statics.key_at(i).as_str());
            proof {
                assert(entries.take(i + 1).drop_last() =~= entries.take(i as int));
                assert(entries.take(i + 1).last() == entries[i as int]);
            }
            if !is_empty(&key) {
                builder.insert_mesh_override(key, self.statics.value_at(i).to_override());
            }
            i = i + 1;
        }
        assert(entries.take(i as int) =~= entries);
    }

    fn apply_names(&self, builder: &mut OverridesBuilder)
        requires
            old(builder).wf(),
        ensures
            final(builder).wf(),
            final(builder)@ == with_names(
                old(builder)@,
                directives(texts(self.include_objects@), texts(self.exclude_objects@)),
            ),
    {
        let list = include_exclude_directives(&self.include_objects, &self.exclude_objects);
        let ghost all = pairs(list@);
        let mut i: usize = 0;
        assert(all.take(0) =~= Seq::empty());
        while i < list.len()
            invariant
                i <= list@.len(),
                all == pairs(list@),
                builder.wf(),
                builder@ == with_names(old(builder)@, all.take(i as int)),
            decreases list@.len() - i,
        {
            proof {
                assert(all.take(i + 1).drop_last() =~= all.take(i as int));
                assert(all.take(i + 1).last() == (list@[i as int].0@, list@[i as int].1));
            }
            builder.insert_name(lowercase(list[i].0.as_str()), list[i].1);
            i = i + 1;
        }
        assert(all.take(i as int) =~= all);
    }

    fn apply_cells(&self, builder: &mut OverridesBuilder)
        requires
            old(builder).wf(),
        ensures
            final(builder).wf(),
            final(builder)@ == with_cells(
                old(builder)@,
                directives(texts(self.include_interiors@), texts(self.exclude_interiors@)),
            ),
    {
        let list = include_exclude_directives(&self.include_interiors, &self.exclude_interiors);
        let ghost all = pairs(list@);
        let mut i: usize = 0;
        assert(all.take(0) =~= Seq::empty());
        while i < list.len()
            invariant
                i <= list@.len(),
                all == pairs(list@),
                builder.wf(),
                builder@ == with_cells(old(builder)@, all.take(i as int)),
            decreases list@.len() - i,
        {
            proof {
                assert(all.take(i + 1).drop_last() =~= all.take(i as int));
                assert(all.take(i + 1).last() == (list@[i as int].0@, list@[i as int].1));
            }
            builder.insert_interior(list[i].0.clone(), list[i].1);
            i = i + 1;
        }
        assert(all.take(i as int) =~= all);
    }

    fn apply_groups(&self, builder: &mut OverridesBuilder)
        requires
            old(builder).wf(),
        ensures
            final(builder).wf(),
            final(builder)@ == with_groups(old(builder)@, self.dynamic_visibility@),
    {
        let ghost entries = self.dynamic_visibility@;
        let mut i: usize = 0;
        assert(entries.take(0) =~= Seq::empty());
        while i < self.dynamic_visibility.len()
            invariant
                i <= entries.len(),
                entries == self.dynamic_visibility@,
                builder.wf(),
                builder@ == with_groups(old(builder)@, entries.take(i as int)),
            decreases entries.len() - i,
        {
            proof {
                assert(entries.take(i + 1).drop_last() =~= entries.take(i as int));
                assert(entries.take(i + 1).last() == entries[i as int]);
            }
            if let Some((key, kind)) = self.dynamic_visibility[i].to_group() {
                builder.insert_dynamic_vis(key, kind);
            }
            i = i + 1;
        }
        assert(entries.take(i as int) =~= entries);
    }

    /// Merges the directives: meshes, objects, interiors, then groups.
    pub fn apply(&self, builder: &mut OverridesBuilder)
        requires
            old(builder).wf(),
        ensures
            final(builder).wf(),
            final(builder)@ == applied(old(builder)@, *self),
    {
        self.apply_statics(builder);
        self.apply_names(builder);
        self.apply_cells(builder);
        self.apply_groups(builder);
    }
}

} // verus!
