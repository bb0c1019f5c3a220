use statics::atlas::apply::DistantStatics;
use statics::atlas::sizing::probe::fingerprint_bytes;
use statics::bytes::{push_framed, push_u32, push_u64};
use statics::decimal::{chars_of, parse_numeral, push_decimal};
use statics::float_bits::{is_finite, number_eq, number_lt};
use statics::model::{DistantStatic, MergedComponent, StaticType, Subset};
use statics::ordered_map::OrderedTextMap;
use statics::record_key::{parse_merged, render_merged, StaticRecordKey};
use statics::text::{str_eq, str_le, str_lt};
use statics::text_map::TextMap;
use statics::write::{validate_statics, validate_subset_provenance, ProvenanceError};

#[test]
fn ordinary_static_rejects_component_provenance() {
    assert!(validate_subset_provenance("meshes\\x.nif", 1).is_err());
}

#[test]
fn merged_static_rejects_componentless_subset() {
    assert!(validate_subset_provenance("CELL (1, -2) GROUP (3)", 0).is_err());
}

#[test]
fn provenance_classes_accept_their_expected_subset_shape() {
    assert!(validate_subset_provenance("meshes\\x.nif", 0).is_ok());
    assert!(validate_subset_provenance("CELL (1, -2) GROUP (3)", 1).is_ok());
}

fn with_components(count: u32) -> DistantStatic {
    let components = (0..count)
        .map(|index| MergedComponent {
            first_triangle: index,
            triangle_count: 1,
            center: [0; 3],
            radius: 0,
            classification: StaticType::StaticAuto,
        })
        .collect();
    DistantStatic { subsets: vec![Subset { components, ..Subset::default() }], ..DistantStatic::default() }
}

#[test]
fn the_first_wrong_static_is_named() {
    let good: DistantStatics =
        vec![("a.nif".to_owned(), with_components(0)), ("CELL (0, 0) GROUP (0)".to_owned(), with_components(2))];
    assert_eq!(validate_statics(&good), Ok(()));
    let bad: DistantStatics =
        vec![("a.nif".to_owned(), with_components(1)), ("CELL (0, 0) GROUP (0)".to_owned(), with_components(0))];
    assert_eq!(
        validate_statics(&bad),
        Err(ProvenanceError::OrdinaryWithComponents { key: "a.nif".to_owned() })
    );
    let merged: DistantStatics = vec![("CELL (0, 0) GROUP (0)".to_owned(), with_components(0))];
    assert_eq!(
        validate_statics(&merged),
        Err(ProvenanceError::MergedWithoutComponents { key: "CELL (0, 0) GROUP (0)".to_owned() })
    );
}

#[test]
fn merged_keys_read_back_what_was_rendered() {
    for (x, y, group) in [(0, 0, 0), (-1, 2, 3), (i32::MIN, i32::MAX, u32::MAX)] {
        let text = render_merged(x, y, group);
        assert_eq!(text, format!("CELL ({x}, {y}) GROUP ({group})"));
        assert_eq!(parse_merged(&text), Some((x, y, group)));
        assert_eq!(StaticRecordKey::Merged { cell_x: x, cell_y: y, group_idx: group }.render(), text);
    }
}

#[test]
fn other_texts_are_mesh_paths() {
    for text in ["a.nif", "CELL (1, 2) GROUP (3", "CELL (01, 2) GROUP (3)", "CELL (1, 2) GROUP (-3)", ""] {
        assert!(parse_merged(text).is_none(), "{text}");
        match StaticRecordKey::parse(text) {
            StaticRecordKey::Mesh { path } => assert_eq!(path, text),
            StaticRecordKey::Merged { .. } => panic!("{text} is no merge group"),
        }
    }
}

#[test]
fn text_maps_find_what_was_put_in() {
    let mut map = TextMap::new();
    assert!(map.insert("b".to_owned(), 1));
    assert!(map.insert("a".to_owned(), 2));
    assert!(!map.insert("b".to_owned(), 3));
    assert_eq!(map.get("b"), Some(&3));
    assert_eq!(map.get("c"), None);
    assert_eq!(map.len(), 2);
    assert_eq!(map.sorted_keys(), vec!["a".to_owned(), "b".to_owned()]);
    assert_eq!(map.remove("b"), Some(3));
    assert_eq!(map.remove("b"), None);
    assert!(!map.contains_key("b"));
    assert_eq!(map.get("a"), Some(&2));
}

#[test]
fn ordered_maps_keep_their_keys_ascending() {
    let mut map = OrderedTextMap::new();
    for (key, value) in [("m", 1), ("a", 2), ("z", 3), ("a", 4)] {
        map.insert(key.to_owned(), value);
    }
    let keys: Vec<String> = (0..map.len()).map(|position| map.key_at(position).clone()).collect();
    assert_eq!(keys, vec!["a", "m", "z"]);
    assert_eq!(map.get("a"), Some(&4));
    map.remove("m");
    assert_eq!(map.position("z"), Some(1));
    assert!(!map.is_empty());
}

#[test]
fn texts_are_ordered_by_their_bytes() {
    assert!(str_lt("a", "b") && str_lt("a", "aa") && !str_lt("b", "a"));
    assert!(str_le("a", "a") && str_eq("a", "a") && !str_eq("a", "A"));
    assert!(str_lt("Z", "a") && str_lt("z", "\u{e9}"));
}

#[test]
fn numbers_are_written_in_little_endian_and_decimal() {
    let mut out = Vec::new();
    push_u32(&mut out, 0x0102_0304);
    push_u64(&mut out, 5);
    push_framed(&mut out, b"ab");
    assert_eq!(out, vec![4, 3, 2, 1, 5, 0, 0, 0, 0, 0, 0, 0, 2, 0, 0, 0, 0, 0, 0, 0, b'a', b'b']);
    let mut text = String::new();
    push_decimal(&mut text, 0);
    push_decimal(&mut text, u64::MAX);
    assert_eq!(text, "018446744073709551615");
    let chars = chars_of("x42");
    assert_eq!(parse_numeral(&chars, 1, 3), Some(42));
    assert_eq!(parse_numeral(&chars, 0, 3), None);
}

#[test]
fn bit_patterns_compare_as_numbers() {
    let b = f32::to_bits;
    assert!(number_lt(b(-1.0), b(0.5)) && number_lt(b(-2.0), b(-1.0)) && !number_lt(b(0.0), b(-0.0)));
    assert!(number_eq(b(0.0), b(-0.0)) && !number_eq(b(f32::NAN), b(f32::NAN)));
    assert!(!number_lt(b(f32::NAN), b(1.0)) && !number_lt(b(1.0), b(f32::NAN)));
    assert!(is_finite(b(f32::MAX)) && !is_finite(b(f32::INFINITY)) && !is_finite(b(f32::NAN)));
}

#[test]
fn digests_are_those_of_the_bytes() {
    assert_eq!(fingerprint_bytes(b"").1, *blake3::hash(b"").as_bytes());
}
