use statics::model::StaticType;
use statics::overrides::builder::{ConflictKind, OverridesBuilder};
use statics::overrides::keys::normalize_mesh_override_key;
use statics::overrides::lines::{parse_overrides_texts, Section};
use statics::overrides::parse::{parse_ranges, parse_static_keywords, strip_comment, unescape};
use statics::overrides::{DynamicVisKind, StaticOverride};

fn fraction(percent: Option<u32>) -> Option<f32> {
    percent.map(|p| p as f32 / 100.0)
}

#[test]
fn test_parse_static_keywords() {
    let ov = parse_static_keywords(b"far no_script");
    assert!(matches!(ov.static_type, StaticType::StaticFar));
    assert!(ov.no_script);
    assert!(!ov.ignore);
}

#[test]
fn test_parse_static_keywords_grass_density() {
    let ov = parse_static_keywords(b"grass_50");
    assert!(matches!(ov.static_type, StaticType::StaticGrass));
    assert!((fraction(ov.density).unwrap() - 0.5).abs() < f32::EPSILON);
}

#[test]
fn test_parse_static_keywords_reduction() {
    let ov = parse_static_keywords(b"very_far reduction_50");
    assert!(matches!(ov.static_type, StaticType::StaticVeryFar));
    assert_eq!(fraction(ov.simplify), Some(0.5));
}

#[test]
fn test_parse_static_keywords_building() {
    let ov = parse_static_keywords(b"building far");
    assert!(matches!(ov.static_type, StaticType::StaticFar));
}

#[test]
fn test_parse_static_keywords_building_last_token_wins() {
    let ov = parse_static_keywords(b"far building");
    assert!(matches!(ov.static_type, StaticType::StaticBuilding));
}

#[test]
fn test_strip_comment_simple() {
    assert_eq!(strip_comment(b"foo=bar : comment", false), b"foo=bar ");
    assert_eq!(strip_comment(b": full comment", false), b"");
    assert_eq!(strip_comment(b"no comment here", false), b"no comment here");
}

#[test]
fn test_strip_comment_escaped() {
    assert_eq!(strip_comment(b"foo\\:bar : comment", true), b"foo\\:bar ");
    assert_eq!(strip_comment(b"foo\\:bar\\:baz", true), b"foo\\:bar\\:baz");
}

#[test]
fn test_unescape() {
    assert_eq!(unescape(b"foo\\:bar"), "foo:bar");
    assert_eq!(unescape(b"foo\\\\bar"), "foo\\bar");
    assert_eq!(unescape(b"plain"), "plain");
}

#[test]
fn test_parse_ranges() {
    let tokens: Vec<&[u8]> = vec![b"0-20", b"25", b"50-100"];
    let ranges = parse_ranges(&tokens);
    assert_eq!(ranges.as_slice(), &[(0, 21), (25, 26), (50, 101)]);
}

#[test]
fn test_parse_ranges_max_8() {
    let tokens: Vec<&[u8]> = vec![b"1", b"2", b"3", b"4", b"5", b"6", b"7", b"8", b"9", b"10"];
    let ranges = parse_ranges(&tokens);
    assert_eq!(ranges.len(), 8);
}

#[test]
fn ranges_that_cannot_be_half_open_are_dropped() {
    let tokens: Vec<&[u8]> = vec![b"2147483647", b"1-2147483647", b"-5", b"x", b"+3", b"2147483648", b"7up"];
    assert_eq!(parse_ranges(&tokens), vec![(3, 4), (7, 8)]);
}

#[test]
fn a_trailing_backslash_escapes_nothing() {
    assert_eq!(unescape(b"foo\\"), "foo\\");
    assert_eq!(strip_comment(b"foo\\", true), b"foo\\");
    assert_eq!(unescape(b"\xff\xfe"), "");
}

#[test]
fn escaped_text_round_trips() {
    let plain = b"a:b\\c: d";
    let mut escaped = Vec::new();
    for &b in plain {
        if b == b':' || b == b'\\' {
            escaped.push(b'\\');
        }
        escaped.push(b);
    }
    assert_eq!(strip_comment(&escaped, true), escaped.as_slice());
    assert_eq!(unescape(&escaped).as_bytes(), plain);
}

#[test]
fn keywords_ignore_case_and_unknown_words() {
    let ov = parse_static_keywords("IGNORE\tGrass_150\u{3000}future reduction_101 Use_Old_Reduction".as_bytes());
    assert!(ov.ignore);
    assert_eq!(ov.static_type, StaticType::StaticGrass);
    assert_eq!(ov.density, Some(100));
    assert_eq!(ov.simplify, Some(0));
    assert_eq!(parse_static_keywords(b"grass_x").density, None);
    assert_eq!(parse_static_keywords(b"grass_x").static_type, StaticType::StaticGrass);
    assert_eq!(parse_static_keywords(b"reduction_-1").simplify, None);
    assert_eq!(parse_static_keywords(b"tree").static_type, StaticType::StaticTree);
    assert_eq!(parse_static_keywords(b"near auto").static_type, StaticType::StaticAuto);
    assert_eq!(parse_static_keywords(b""), StaticOverride::default());
}

#[test]
fn mesh_keys_are_relative_to_the_mesh_directory() {
    assert_eq!(normalize_mesh_override_key("Data Files\\Meshes\\Foo\\Rock.NIF"), "foo\\rock.nif");
    assert_eq!(normalize_mesh_override_key("meshes\\foo\\rock.nif"), "foo\\rock.nif");
    assert_eq!(normalize_mesh_override_key("foo/fern.nif"), "foo\\fern.nif");
    assert_eq!(normalize_mesh_override_key("meshes"), "meshes");
}

#[test]
fn texts_are_read_by_section() {
    let text = b"Meshes/A=b.nif = near : note\r\n\
 = far\n\
[Names]\n\
Some\\:Ref = enable : c\n\
bare ref\n\
odd = maybe\n\
[unknown]\n\
still a name\n\
[interiors]\n\
Cell One\n\
Cell Two = disable\n\
CELL TWO = enable\n\
[dynamic_vis]\n\
script = journal J 1-2 9\n\
other = GLOBAL g\n\
obj = unique_object Lamp\n\
obj = unique_object lamp second\n\
none = journal\n";
    let overrides = parse_overrides_texts(&[text.as_slice()]);
    assert_eq!(overrides.mesh_overrides.get("a=b.nif").unwrap().static_type, StaticType::StaticNear);
    assert_eq!(overrides.mesh_overrides.len(), 1);
    assert_eq!(overrides.names.get("some:ref"), Some(&true));
    assert_eq!(overrides.names.get("bare ref"), Some(&false));
    assert_eq!(overrides.names.get("still a name"), Some(&false));
    assert_eq!(overrides.names.get("odd"), None);
    assert_eq!(overrides.interior("cell one"), Some(true));
    assert_eq!(overrides.interior("Cell Two"), Some(true));
    assert_eq!(overrides.interior("other"), None);
    assert_eq!(overrides.interiors[1].name, "Cell Two");
    let groups = &overrides.dynamic_vis.groups;
    assert_eq!(groups.len(), 3);
    assert_eq!(
        groups[0].kind,
        DynamicVisKind::Journal { journal_id: "j".to_owned(), ranges: vec![(1, 3), (9, 10)] }
    );
    assert_eq!(groups[1].kind, DynamicVisKind::Global { global_id: "g".to_owned(), ranges: vec![] });
    assert_eq!(
        groups[2].kind,
        DynamicVisKind::UniqueObject {
            source_id: "obj".to_owned(),
            linked_ids: vec!["obj".to_owned(), "lamp".to_owned(), "second".to_owned()],
        }
    );
    assert_eq!(groups.iter().map(|g| g.index).collect::<Vec<_>>(), vec![1, 2, 3]);
    assert_eq!(overrides.dynamic_vis.scripts.get("script"), Some(&1));
    assert_eq!(overrides.dynamic_vis.scripts.get("other"), Some(&2));
    assert_eq!(overrides.dynamic_vis.unique_objects.get("second"), Some(&3));
}

#[test]
fn later_sources_win_and_conflicts_name_both() {
    let mut builder = OverridesBuilder::new();
    assert_eq!(builder.current_source_label(), "<unknown>");
    builder.add_override_text(b"a.nif = near\nb.nif = far\n[names]\nx = enable\n[interiors]\nCell = enable");
    builder.add_override_text(b"A.NIF = far\nb.nif = far\n[names]\nX = disable\n[interiors]\ncell = disable");
    assert_eq!(builder.current_source_label(), "<override text 2>");
    let kinds: Vec<_> = builder.conflicts.iter().map(|c| (c.kind, c.source, c.replaced)).collect();
    assert_eq!(
        kinds,
        vec![
            (ConflictKind::Mesh, 1, 0),
            (ConflictKind::Object, 1, 0),
            (ConflictKind::Interior, 1, 0)
        ]
    );
    assert_eq!(builder.conflicts[0].key, "a.nif");
    let overrides = builder.finish();
    assert_eq!(overrides.mesh_overrides.get("a.nif").unwrap().static_type, StaticType::StaticFar);
    assert_eq!(overrides.names.get("x"), Some(&false));
    assert_eq!(overrides.interior("CELL"), Some(false));
    assert_eq!(overrides.interiors.len(), 1);
}

#[test]
fn texts_may_be_read_in_one_go_or_in_two() {
    let first = b"a.nif = near\n[names]\nx".as_slice();
    let second = b"a.nif = far".as_slice();
    let whole = parse_overrides_texts(&[first, second]);
    let mut builder = OverridesBuilder::new();
    builder.add_override_text(first);
    builder.add_override_text(second);
    let parts = builder.finish();
    assert_eq!(
        whole.mesh_overrides.get("a.nif").unwrap(),
        parts.mesh_overrides.get("a.nif").unwrap()
    );
    assert_eq!(whole.names.get("x"), parts.names.get("x"));
}

#[test]
fn lines_carry_their_section() {
    let mut builder = OverridesBuilder::new();
    let section = builder.read_line(Section::Default, b" [ Dynamic_Vis ] : header");
    assert_eq!(section, Section::DynamicVis);
    assert_eq!(builder.read_line(section, b"\xe2\x80\x83"), Section::DynamicVis);
    assert_eq!(builder.read_line(section, b"[other]"), Section::DynamicVis);
}
