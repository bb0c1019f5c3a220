use statics::metadata::path_style::PathStyle;
use statics::metadata::paths::{discover_plugin_metadata, is_toml_source, plugin_metadata_path};
use statics::metadata::{
    clamp_percentage, convert_ranges, DistantLandMetadata, DynamicVisibilityEntry, StaticEntry, StaticTypeName,
};
use statics::model::StaticType;
use statics::ordered_map::OrderedTextMap;
use statics::overrides::builder::OverridesBuilder;
use statics::overrides::lines::parse_overrides_texts;
use statics::overrides::{DynamicVisKind, StaticOverrides, MAX_RANGES};
use toml::{Table, Value};

fn texts(table: &Table, key: &str) -> Vec<String> {
    match table.get(key) {
        Some(Value::Array(items)) => items.iter().map(|v| v.as_str().unwrap().to_owned()).collect(),
        _ => Vec::new(),
    }
}

fn class_name(name: &str) -> StaticTypeName {
    match name {
        "auto" => StaticTypeName::Auto,
        "near" => StaticTypeName::Near,
        "far" => StaticTypeName::Far,
        "very_far" => StaticTypeName::VeryFar,
        "grass" => StaticTypeName::Grass,
        "tree" => StaticTypeName::Tree,
        "building" => StaticTypeName::Building,
        _ => panic!("unknown type"),
    }
}

fn entry(table: &Table) -> StaticEntry {
    StaticEntry {
        static_type: table.get("type").map(|v| class_name(v.as_str().unwrap())),
        ignore: table.get("ignore").map_or(false, |v| v.as_bool().unwrap()),
        grass_density: table.get("grass_density").map(|v| v.as_integer().unwrap()),
        reduction: table.get("reduction").map(|v| v.as_integer().unwrap()),
        ignore_script: table.get("ignore_script").map_or(false, |v| v.as_bool().unwrap()),
    }
}

fn ranges(table: &Table) -> Vec<[i32; 2]> {
    match table.get("ranges") {
        Some(Value::Array(items)) => items
            .iter()
            .map(|pair| {
                let pair = pair.as_array().unwrap();
                [pair[0].as_integer().unwrap() as i32, pair[1].as_integer().unwrap() as i32]
            })
            .collect(),
        _ => Vec::new(),
    }
}

fn text(table: &Table, key: &str) -> String {
    table.get(key).unwrap().as_str().unwrap().to_owned()
}

fn visibility(table: &Table) -> DynamicVisibilityEntry {
    match table.get("kind").unwrap().as_str().unwrap() {
        "journal" => DynamicVisibilityEntry::Journal {
            script: text(table, "script"),
            journal: text(table, "journal"),
            ranges: ranges(table),
        },
        "global" => DynamicVisibilityEntry::Global {
            script: text(table, "script"),
            global: text(table, "global"),
            ranges: ranges(table),
        },
        _ => DynamicVisibilityEntry::UniqueObject {
            object: text(table, "object"),
            linked_objects: texts(table, "linked_objects"),
        },
    }
}

fn parse(source: &str) -> DistantLandMetadata {
    let document: Table = source.parse().unwrap();
    let tools = document.get("tools").unwrap().as_table().unwrap();
    let mge = tools.get("mge-xe").unwrap().as_table().unwrap();
    let section = mge.get("distantland").unwrap().as_table().unwrap();
    let mut statics = OrderedTextMap::new();
    if let Some(Value::Table(entries)) = section.get("statics") {
        for (key, value) in entries {
            statics.insert(key.clone(), entry(value.as_table().unwrap()));
        }
    }
    DistantLandMetadata {
        include_objects: texts(section, "include_objects"),
        exclude_objects: texts(section, "exclude_objects"),
        include_interiors: texts(section, "include_interiors"),
        exclude_interiors: texts(section, "exclude_interiors"),
        statics,
        dynamic_visibility: match section.get("dynamic_visibility") {
            Some(Value::Array(items)) => items.iter().map(|v| visibility(v.as_table().unwrap())).collect(),
            _ => Vec::new(),
        },
    }
}

fn parse_and_apply(source: &str) -> StaticOverrides {
    let metadata = parse(source);
    let mut builder = OverridesBuilder::new();
    builder.begin_source("<test metadata>".to_owned());
    metadata.apply(&mut builder);
    builder.finish()
}

fn fraction(percent: Option<u32>) -> Option<f32> {
    percent.map(|p| p as f32 / 100.0)
}

/// The style of the paths that the standard library reads here.
fn native() -> PathStyle {
    if std::path::is_separator('\\') {
        PathStyle::Windows
    } else {
        PathStyle::Unix
    }
}

#[test]
fn metadata_path_strips_real_extension() {
    assert_eq!(plugin_metadata_path("Foo.esp", native()), "Foo-metadata.toml");
    assert_eq!(plugin_metadata_path("My.Mod.esp", native()), "My.Mod-metadata.toml");
    assert_eq!(plugin_metadata_path("mod.omwaddon", native()), "mod-metadata.toml");
    assert_eq!(
        plugin_metadata_path(std::path::Path::new("dir").join("Foo.esm").to_str().unwrap(), native()),
        std::path::Path::new("dir").join("Foo-metadata.toml").to_str().unwrap()
    );
}

#[test]
fn metadata_paths_keep_names_without_an_extension() {
    for style in [PathStyle::Unix, PathStyle::Windows] {
        assert_eq!(plugin_metadata_path(".esp", style), ".esp-metadata.toml");
        assert_eq!(plugin_metadata_path("Foo.", style), "Foo-metadata.toml");
    }
    assert_eq!(plugin_metadata_path("dir.d/Foo", PathStyle::Unix), "dir.d/Foo-metadata.toml");
    assert_eq!(plugin_metadata_path("dir.d\\Foo", PathStyle::Unix), "dir-metadata.toml");
    assert_eq!(plugin_metadata_path("dir.d/Foo", PathStyle::Windows), "dir.d\\Foo-metadata.toml");
    assert_eq!(plugin_metadata_path("dir.d\\Foo", PathStyle::Windows), "dir.d\\Foo-metadata.toml");
}

#[test]
fn metadata_paths_pass_over_what_names_nothing() {
    for style in [PathStyle::Unix, PathStyle::Windows] {
        assert_eq!(plugin_metadata_path("Foo.esp/", style), "Foo-metadata.toml");
        assert_eq!(plugin_metadata_path("Foo.esp//", style), "Foo-metadata.toml");
        assert_eq!(plugin_metadata_path("Foo.esp/.", style), "Foo-metadata.toml");
        assert!(is_toml_source("global.toml/", style));
        assert!(is_toml_source("global.toml/./", style));
        assert!(!is_toml_source("global.toml/..", style));
    }
    assert_eq!(plugin_metadata_path("dir\\Foo.esp\\.\\", PathStyle::Windows), "dir\\Foo-metadata.toml");
}

#[test]
fn metadata_paths_know_drives_and_shares() {
    let of = |plugin: &str| plugin_metadata_path(plugin, PathStyle::Windows);
    assert_eq!(of("C:\\Data Files\\Foo.esp"), "C:\\Data Files\\Foo-metadata.toml");
    assert_eq!(of("C:/Foo.esp"), "C:/Foo-metadata.toml");
    assert_eq!(of("C:Foo.esp"), "C:Foo-metadata.toml");
    assert_eq!(of("C:.esp"), "C:.esp-metadata.toml");
    assert_eq!(of("C:.."), "C:..-metadata.toml");
    assert_eq!(of("dir\\C:Foo.esp"), "C:Foo-metadata.toml");
    assert_eq!(of("\\\\server\\share.d"), "\\\\server\\share.d-metadata.toml");
    assert_eq!(of("\\\\server\\share.d\\Foo.esp"), "\\\\server\\share.d\\Foo-metadata.toml");
    assert_eq!(of("\\\\?\\C:\\a/b.c\\Foo.esp"), "\\\\?\\C:\\a/b.c\\Foo-metadata.toml");
    assert_eq!(of("\\\\?\\UNC\\server\\share.d"), "\\\\?\\UNC\\server\\share.d-metadata.toml");
    assert!(!is_toml_source("\\\\server\\share.toml", PathStyle::Windows));
    assert!(is_toml_source("C:global.toml", PathStyle::Windows));
}

#[test]
fn metadata_paths_agree_with_the_paths_of_the_standard_library() {
    for plugin in [
        "", "/", ".", "..", "./", "../", "a/..", "a/../", "/a/..", "a/.", "a/./", "a.b/", "a.b/.", "a/b.c//", ".a", "a.",
        "..a", "a..", "...", "x/.a", "x/..b", "x/...", "./a.esp", "../a.esp", "/a.esp", "//a.esp", "a/b/c.d.e",
        "a//b.esp", "a/./b.esp", "/./b.esp", "///b.esp", "./././b.esp", "dir.d\\Foo", "\\Foo.esp", "C:Foo.esp",
    ] {
        let path = std::path::Path::new(plugin);
        let stem = path.file_stem().unwrap_or(path.as_os_str());
        let expected = path.with_file_name(format!("{}-metadata.toml", stem.to_string_lossy()));
        let found = plugin_metadata_path(plugin, native());
        assert_eq!(found, expected.to_str().unwrap(), "{plugin:?}");
        let toml = path.extension().is_some_and(|extension| extension.eq_ignore_ascii_case("toml"));
        assert_eq!(is_toml_source(plugin, native()), toml, "{plugin:?}");
    }
}

#[test]
fn discovery_returns_existing_files_in_plugin_order() {
    let present = ["A-metadata.toml", "B-metadata.toml"];
    let plugins = vec!["B.esp".to_owned(), "A.esp".to_owned(), "C.esp".to_owned()];
    let is_file = |path: &String| present.contains(&path.as_str());
    let found = discover_plugin_metadata(&is_file, &plugins, native());
    assert_eq!(found, vec!["B-metadata.toml", "A-metadata.toml"]);
}

#[test]
fn toml_sources_are_told_by_extension() {
    for style in [PathStyle::Unix, PathStyle::Windows] {
        assert!(is_toml_source("dir/Global.TOML", style));
        assert!(!is_toml_source("global.ovr", style));
        assert!(!is_toml_source("dir.toml/global", style));
        assert!(!is_toml_source(".toml", style));
    }
}

#[test]
fn unknown_fields_are_ignored() {
    let text = r#"
[tools.mge-xe.distantland]
future_field = true

[tools.mge-xe.distantland.statics]
'foo.nif' = { type = "tree", future = 1 }
"#;
    let overrides = parse_and_apply(text);
    assert_eq!(
        overrides.mesh_overrides.get("foo.nif").unwrap().static_type,
        StaticType::StaticTree
    );
}

#[test]
fn structured_static_fields_map_to_override() {
    let text = r#"
[tools.mge-xe.distantland.statics]
'Data Files\Meshes\Foo\Rock.NIF' = { type = "very_far", reduction = 50 }
'foo/fern.nif' = { type = "grass", grass_density = 40 }
'foo\marker.nif' = { ignore = true }
'foo\shack.nif' = { type = "building", ignore_script = true }
"#;
    let overrides = parse_and_apply(text);

    let rock = overrides.mesh_overrides.get("foo\\rock.nif").unwrap();
    assert_eq!(rock.static_type, StaticType::StaticVeryFar);
    assert_eq!(fraction(rock.simplify), Some(0.5));

    let fern = overrides.mesh_overrides.get("foo\\fern.nif").unwrap();
    assert_eq!(fern.static_type, StaticType::StaticGrass);
    assert!((fraction(fern.density).unwrap() - 0.4).abs() < f32::EPSILON);

    assert!(overrides.mesh_overrides.get("foo\\marker.nif").unwrap().ignore);

    let shack = overrides.mesh_overrides.get("foo\\shack.nif").unwrap();
    assert_eq!(shack.static_type, StaticType::StaticBuilding);
    assert!(shack.no_script);
}

#[test]
fn percentages_are_clamped() {
    let text = r#"
[tools.mge-xe.distantland.statics]
'a.nif' = { type = "grass", grass_density = 150 }
'b.nif' = { reduction = -5 }
"#;
    let overrides = parse_and_apply(text);
    let a = overrides.mesh_overrides.get("a.nif").unwrap();
    assert!((fraction(a.density).unwrap() - 1.0).abs() < f32::EPSILON);
    assert_eq!(fraction(overrides.mesh_overrides.get("b.nif").unwrap().simplify), Some(0.0));
    assert_eq!(clamp_percentage(i64::MIN), 0);
    assert_eq!(clamp_percentage(37), 37);
}

#[test]
fn exclude_wins_when_object_listed_in_both() {
    let text = r#"
[tools.mge-xe.distantland]
include_objects = ["Foo_Ref"]
exclude_objects = ["foo_ref"]
"#;
    let overrides = parse_and_apply(text);
    assert!(!*overrides.names.get("foo_ref").unwrap());
}

#[test]
fn interior_lookups_are_case_insensitive() {
    let text = r#"
[tools.mge-xe.distantland]
include_interiors = ["Foo Cavern"]
exclude_interiors = ["Bad Cell"]
"#;
    let overrides = parse_and_apply(text);
    assert_eq!(overrides.interior("FOO CAVERN"), Some(true));
    assert_eq!(overrides.interior("bad cell"), Some(false));
}

#[test]
fn dynamic_visibility_groups_round_trip() {
    let text = r#"
[[tools.mge-xe.distantland.dynamic_visibility]]
kind = "journal"
script = "Foo_Script"
journal = "Foo_Journal"
ranges = [[50, 100], [200, 200]]

[[tools.mge-xe.distantland.dynamic_visibility]]
kind = "unique_object"
object = "Foo_Lighthouse"
linked_objects = ["Foo_Lamp"]
"#;
    let overrides = parse_and_apply(text);
    let data = &overrides.dynamic_vis;

    assert_eq!(data.groups.len(), 2);
    assert_eq!(data.groups[0].index, 1);
    assert_eq!(
        data.groups[0].kind,
        DynamicVisKind::Journal {
            journal_id: "foo_journal".to_owned(),
            ranges: vec![(50, 101), (200, 201)],
        }
    );
    assert_eq!(data.scripts.get("foo_script"), Some(&1));

    assert_eq!(data.groups[1].index, 2);
    assert_eq!(
        data.groups[1].kind,
        DynamicVisKind::UniqueObject {
            source_id: "foo_lighthouse".to_owned(),
            linked_ids: vec!["foo_lighthouse".to_owned(), "foo_lamp".to_owned()],
        }
    );
    assert_eq!(data.unique_objects.get("foo_lighthouse"), Some(&2));
    assert_eq!(data.unique_objects.get("foo_lamp"), Some(&2));
}

#[test]
fn ranges_beyond_max_are_truncated() {
    let ranges: Vec<[i32; 2]> = (0..9).map(|i| [i, i + 1]).collect();
    assert_eq!(convert_ranges(&ranges).len(), MAX_RANGES);
}

#[test]
fn a_range_that_ends_at_the_largest_number_is_dropped() {
    assert_eq!(convert_ranges(&[[1, i32::MAX], [2, 3]]), vec![(2, 4)]);
}

#[test]
fn entries_without_an_identity_are_skipped() {
    let nameless = [
        DynamicVisibilityEntry::Journal { script: String::new(), journal: "j".to_owned(), ranges: vec![] },
        DynamicVisibilityEntry::Global { script: "s".to_owned(), global: String::new(), ranges: vec![] },
        DynamicVisibilityEntry::UniqueObject { object: String::new(), linked_objects: vec![] },
    ];
    for entry in &nameless {
        assert!(entry.to_group().is_none());
    }
}

#[test]
fn metadata_matches_equivalent_ovr() {
    let ovr = b"\
meshes\\foo\\rock.nif = very_far reduction_50
foo\\fern.nif = grass_40
[names]
special_ref = enable
chargen boat = disable
[interiors]
Foo Cavern = enable
Bad Cell = disable
[dynamic_vis]
foo_script = journal foo_journal 50-100
foo_glob = global fooGlobal 1-1
foo_lighthouse = unique_object foo_lamp
";
    let from_ovr = parse_overrides_texts(&[ovr.as_slice()]);

    let toml_text = r#"
[tools.mge-xe.distantland]
include_objects = ["special_ref"]
exclude_objects = ["chargen boat"]
include_interiors = ["Foo Cavern"]
exclude_interiors = ["Bad Cell"]

[tools.mge-xe.distantland.statics]
'meshes\foo\rock.nif' = { type = "very_far", reduction = 50 }
'foo\fern.nif' = { type = "grass", grass_density = 40 }

[[tools.mge-xe.distantland.dynamic_visibility]]
kind = "journal"
script = "foo_script"
journal = "foo_journal"
ranges = [[50, 100]]

[[tools.mge-xe.distantland.dynamic_visibility]]
kind = "global"
script = "foo_glob"
global = "fooGlobal"
ranges = [[1, 1]]

[[tools.mge-xe.distantland.dynamic_visibility]]
kind = "unique_object"
object = "foo_lighthouse"
linked_objects = ["foo_lamp"]
"#;
    let from_metadata = parse_and_apply(toml_text);

    assert_eq!(from_ovr.mesh_overrides.sorted_keys(), from_metadata.mesh_overrides.sorted_keys());
    for key in from_ovr.mesh_overrides.sorted_keys() {
        assert_eq!(from_ovr.mesh_overrides.get(&key), from_metadata.mesh_overrides.get(&key));
    }
    assert_eq!(from_ovr.names.sorted_keys(), from_metadata.names.sorted_keys());
    for key in from_ovr.names.sorted_keys() {
        assert_eq!(from_ovr.names.get(&key), from_metadata.names.get(&key));
    }
    assert_eq!(from_ovr.interiors, from_metadata.interiors);
    assert_eq!(from_ovr.dynamic_vis.groups, from_metadata.dynamic_vis.groups);
    let (a, b) = (&from_ovr.dynamic_vis, &from_metadata.dynamic_vis);
    assert_eq!(a.scripts.sorted_keys(), b.scripts.sorted_keys());
    for key in a.scripts.sorted_keys() {
        assert_eq!(a.scripts.get(&key), b.scripts.get(&key));
    }
    assert_eq!(a.unique_objects.sorted_keys(), b.unique_objects.sorted_keys());
    for key in a.unique_objects.sorted_keys() {
        assert_eq!(a.unique_objects.get(&key), b.unique_objects.get(&key));
    }
}

#[test]
fn metadata_overrides_ovr_sources() {
    let mut builder = OverridesBuilder::new();
    builder.add_override_text(b"foo\\bar.nif = near");

    let text = r#"
[tools.mge-xe.distantland.statics]
'foo\bar.nif' = { type = "very_far" }
"#;
    let metadata = parse(text);
    builder.begin_source("<metadata>".to_owned());
    metadata.apply(&mut builder);

    let overrides = builder.finish();
    assert_eq!(
        overrides.mesh_overrides.get("foo\\bar.nif").unwrap().static_type,
        StaticType::StaticVeryFar
    );
}

#[test]
fn duplicate_dynamic_vis_groups_merge_across_sources() {
    let mut builder = OverridesBuilder::new();
    builder.add_override_text(b"[dynamic_vis]\nscript_a = journal foo_journal 50-100");

    let text = r#"
[[tools.mge-xe.distantland.dynamic_visibility]]
kind = "journal"
script = "script_b"
journal = "foo_journal"
ranges = [[50, 100]]
"#;
    let metadata = parse(text);
    builder.begin_source("<metadata>".to_owned());
    metadata.apply(&mut builder);

    let overrides = builder.finish();
    assert_eq!(overrides.dynamic_vis.groups.len(), 1);
    assert_eq!(overrides.dynamic_vis.scripts.get("script_a"), Some(&1));
    assert_eq!(overrides.dynamic_vis.scripts.get("script_b"), Some(&1));
}
