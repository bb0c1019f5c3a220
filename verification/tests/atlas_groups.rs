use statics::atlas::freelist::SeededFreeList;
use statics::atlas::graph::min_cost_positive_matching;
use statics::atlas::group::{build_prepared_groups, AtlasAliasRelation, GroupError, PreparedAtlasGroup};
use statics::atlas::matching::maximum_weight_matching;
use statics::atlas::packer::pack_layout_only;
use statics::atlas::reconcile::reconcile_family;
use statics::atlas::rect::CachedAtlasRect;
use statics::atlas::sizing::SizingPlan;
use statics::atlas::slot::capture_reservation;
use statics::atlas::types::{
    AtlasFamilyConfig, AtlasSharedConfig, CachedAtlasFamily, CachedAtlasKeySlot, CachedAtlasPage, CachedAtlasSlot,
    CachedTextureFingerprint, LayoutItem, Rect, TextureDedupeMode, TextureFingerprint, ATLAS_TEXTURE_EXTRUSION,
};
use statics::atlas::uv::{bindings_from_relations, map_to_cached_bounds};
use statics::text_map::TextMap;

const RECIPE: u32 = 1;

fn ratio(n: u32, d: u32) -> u32 {
    (n as f32 / d as f32).to_bits()
}

fn alias_map(entries: &[(&str, &str)]) -> AtlasAliasRelation {
    let mut map = TextMap::new();
    for (key, provider) in entries {
        map.insert((*key).to_owned(), (*provider).to_owned());
    }
    AtlasAliasRelation::Complete(map)
}

#[test]
fn identity_resolves_any_key_to_itself() {
    let relation = AtlasAliasRelation::Identity;
    assert_eq!(relation.resolve("any/path.dds").unwrap(), "any/path.dds");
    assert_eq!(relation.resolve("other").unwrap(), "other");
}

#[test]
fn complete_resolves_canonical_and_alias_keys() {
    let relation = alias_map(&[("a.dds", "a.dds"), ("b.dds", "a.dds")]);
    assert_eq!(relation.resolve("a.dds").unwrap(), "a.dds");
    assert_eq!(relation.resolve("b.dds").unwrap(), "a.dds");
}

#[test]
fn complete_missing_key_fails_closed() {
    let relation = alias_map(&[]);
    let err = relation.resolve("missing.dds").unwrap_err();
    assert!(err.message().contains("missing.dds"));
}

#[test]
fn identity_is_not_equal_to_complete_identity_map() {
    let complete = alias_map(&[("a.dds", "a.dds")]);
    assert!(!AtlasAliasRelation::Identity.same_as(&complete));
    assert!(complete.same_as(&alias_map(&[("a.dds", "a.dds")])));
    assert!(!complete.same_as(&alias_map(&[("a.dds", "b.dds")])));
}

#[test]
fn two_tier_resolution_source_then_decoded() {
    // Sorted keys 0, a, b. Tier 0 keeps 0 and a and sends b to a. Tier 1 sends a to 0.
    let tier0 = alias_map(&[("0.dds", "0.dds"), ("a.dds", "a.dds"), ("b.dds", "a.dds")]);
    let tier1 = alias_map(&[("0.dds", "0.dds"), ("a.dds", "0.dds")]);
    let t0 = tier0.resolve("b.dds").unwrap();
    assert_eq!(t0, "a.dds");
    assert_eq!(tier1.resolve(t0).unwrap(), "0.dds");
    let id = AtlasAliasRelation::Identity;
    assert_eq!(id.resolve(id.resolve("x").unwrap()).unwrap(), "x");
}

fn test_shared() -> AtlasSharedConfig {
    AtlasSharedConfig::current(&SizingPlan::uniform(128), TextureDedupeMode::Exact, 128, RECIPE)
}

fn test_group(key: &str) -> PreparedAtlasGroup {
    PreparedAtlasGroup {
        group_key: key.into(),
        logical_keys: vec![key.into()],
        item: LayoutItem {
            key: key.into(),
            w: 40,
            h: 40,
            source: Some(Rect::new(0, 0, 40, 40)),
            source_size: Some((40, 40)),
            trimmed: false,
        },
        content_fingerprint: [0; 32],
    }
}

fn square_slot(key: &str, page_id: u32, slot_id: u64, trimmed: bool) -> CachedAtlasSlot {
    CachedAtlasSlot {
        slot_id,
        page_id,
        reserved_rect: CachedAtlasRect { x: 8, y: 8, width: 72, height: 72 },
        destination: CachedAtlasRect { x: 24, y: 24, width: 40, height: 40 },
        source: CachedAtlasRect { x: 0, y: 0, width: 40, height: 40 },
        source_size: [40, 40],
        rotated: false,
        trimmed,
        provider_key: key.into(),
        content_fingerprint: [0; 32],
    }
}

fn test_prior(entries: &[(&str, u32, u64)], page_count: usize, next_slot_id: u64) -> CachedAtlasFamily {
    let pages = vec![CachedAtlasPage { width: 128, height: 128 }; page_count];
    let slots: Vec<CachedAtlasSlot> =
        entries.iter().map(|(key, page_id, slot_id)| square_slot(key, *page_id, *slot_id, false)).collect();
    let mut key_slots: Vec<CachedAtlasKeySlot> = entries
        .iter()
        .map(|(key, _, slot_id)| CachedAtlasKeySlot { path: (*key).into(), slot_id: *slot_id })
        .collect();
    key_slots.sort_unstable_by(|left, right| left.path.cmp(&right.path));
    let bindings = match bindings_from_relations(&ratio, &pages, &slots, &key_slots) {
        Ok(bindings) => bindings,
        Err(error) => panic!("{error:?}"),
    };
    CachedAtlasFamily {
        family_config: AtlasFamilyConfig::empty(),
        layout_input_digest: [0; 32],
        next_slot_id,
        pages,
        slots,
        key_slots,
        bindings: map_to_cached_bounds(&bindings),
        texture_fingerprints: entries
            .iter()
            .map(|(key, _, _)| CachedTextureFingerprint {
                path: (*key).into(),
                fingerprint: TextureFingerprint { size: 0, hash: [0; 32] },
            })
            .collect(),
    }
}

#[test]
fn weighted_matching_beats_greedy_split_join_claiming() {
    // g0-s0 retains three keys, while the tempting lower-slot g1-s0 edge retains two.
    // Greedily claiming g1-s0 leaves only one retained binding; the optimum keeps four.
    let edges = vec![(1, 0, 2), (0, 0, 3), (0, 1, 2)];
    let matching = min_cost_positive_matching(2, 2, &edges).unwrap();
    assert_eq!(matching, vec![(0, 1), (1, 0)]);
}

#[test]
fn matching_does_not_depend_on_the_order_of_edges() {
    // Both perfect matchings retain as much and tie alike, so only the search decides.
    let edges = [(0, 0, 1), (0, 1, 1), (1, 0, 1), (1, 1, 1), (2, 1, 1), (2, 2, 0)];
    let expected = min_cost_positive_matching(3, 3, &edges).unwrap();
    assert_eq!(expected.len(), 2);
    let mut order = edges;
    for first in 0..edges.len() {
        order.rotate_left(1);
        for second in 0..edges.len() {
            order.swap(first, second);
            assert_eq!(min_cost_positive_matching(3, 3, &order).unwrap(), expected, "{order:?}");
        }
    }
}

#[test]
fn matched_pairs_retain_keys() {
    assert_eq!(min_cost_positive_matching(1, 1, &[(0, 0, 0)]).unwrap(), vec![]);
    assert_eq!(min_cost_positive_matching(2, 2, &[(0, 0, 0), (1, 1, 3)]).unwrap(), vec![(1, 1)]);
}

#[test]
fn matching_of_nothing_is_empty() {
    assert_eq!(min_cost_positive_matching(0, 0, &[]).unwrap(), vec![]);
    assert_eq!(min_cost_positive_matching(3, 2, &[]).unwrap(), vec![]);
}

#[test]
fn matching_keeps_the_heavier_of_two_rival_edges() {
    assert_eq!(min_cost_positive_matching(2, 1, &[(0, 0, 1), (1, 0, 5)]).unwrap(), vec![(1, 0)]);
    assert_eq!(min_cost_positive_matching(1, 2, &[(0, 0, 1), (0, 1, 5)]).unwrap(), vec![(0, 1)]);
}

#[test]
fn matching_retains_one_compatible_overlap() {
    let mut group = test_group("a");
    group.item.trimmed = true;
    let slot = square_slot("a", 0, 0, true);
    let matching = maximum_weight_matching(&[group], &[slot], &[vec!["a".to_owned()]], &test_shared()).unwrap();
    assert_eq!(matching, vec![(0, 0)]);
}

#[test]
fn groups_and_slots_all_alike_are_matched_in_order() {
    let keys = || vec!["a".to_owned(), "b".to_owned()];
    let mut groups = vec![test_group("a"), test_group("b")];
    for group in &mut groups {
        group.logical_keys = keys();
    }
    let slots = [square_slot("a", 0, 0, true), square_slot("b", 1, 1, true)];
    let matching = maximum_weight_matching(&groups, &slots, &[keys(), keys()], &test_shared()).unwrap();
    assert_eq!(matching, vec![(0, 0), (1, 1)]);
}

#[test]
fn reservation_capture_matches_fresh_packer_geometry() {
    let pages = pack_layout_only(
        &[LayoutItem {
            key: "a".into(),
            w: 40,
            h: 24,
            source: Some(Rect::new(0, 0, 40, 24)),
            source_size: Some((40, 24)),
            trimmed: false,
        }],
        128,
    )
    .unwrap();
    let page = &pages[0];
    let frame = &page.frames[0];
    let reserved = capture_reservation(frame.frame, page.width, page.height, &test_shared()).unwrap();
    assert_eq!(reserved.x, frame.frame.x - ATLAS_TEXTURE_EXTRUSION);
    assert_eq!(reserved.y, frame.frame.y - ATLAS_TEXTURE_EXTRUSION);
    assert_eq!(reserved.width, frame.frame.w + ATLAS_TEXTURE_EXTRUSION * 2);
    assert_eq!(reserved.height, frame.frame.h + ATLAS_TEXTURE_EXTRUSION * 2);
}

#[test]
fn seeded_free_list_is_independent_of_occupied_input_order() {
    let occupied = [
        (2, CachedAtlasRect { x: 48, y: 8, width: 32, height: 32 }),
        (1, CachedAtlasRect { x: 8, y: 8, width: 32, height: 32 }),
    ];
    let mut turned = occupied;
    turned.reverse();
    let forward = match SeededFreeList::new(128, 128, 8, &occupied) {
        Ok(list) => list.free,
        Err(error) => panic!("{error:?}"),
    };
    let reverse = match SeededFreeList::new(128, 128, 8, &turned) {
        Ok(list) => list.free,
        Err(error) => panic!("{error:?}"),
    };
    assert_eq!(forward, reverse);
}

#[test]
fn seeded_free_list_without_occupants_is_the_page_interior() {
    let list = match SeededFreeList::new(128, 64, 8, &[]) {
        Ok(list) => list,
        Err(error) => panic!("{error:?}"),
    };
    assert_eq!(list.free, vec![CachedAtlasRect { x: 8, y: 8, width: 112, height: 48 }]);
    assert!(list.best_fit(113, 1).is_none());
    assert!(list.best_fit(112, 48).is_some());
}

#[test]
fn middle_pages_survive_and_are_reused_before_append_while_empty_tails_truncate() {
    let shared = test_shared();
    let full_prior = test_prior(&[("a", 0, 0), ("b", 1, 1), ("c", 2, 2)], 3, 3);

    let middle_removed = vec![test_group("a"), test_group("c")];
    let middle = match reconcile_family(
        &ratio,
        &full_prior,
        AtlasFamilyConfig::empty(),
        [1; 32],
        &middle_removed,
        Vec::new(),
        &shared,
    ) {
        Ok(family) => family,
        Err(error) => panic!("{error:?}"),
    };
    assert_eq!(middle.cache.pages.len(), 3);
    assert_eq!(middle.pages[1].page.frames.len(), 0);
    assert!(!middle.pages[1].dirty);
    assert_eq!(middle.stats.retained_empty_pages, 1);
    assert_eq!(middle.stats.truncated_pages, 0);

    let with_new = vec![test_group("a"), test_group("c"), test_group("d")];
    let reused = match reconcile_family(
        &ratio,
        &middle.cache,
        AtlasFamilyConfig::empty(),
        [2; 32],
        &with_new,
        Vec::new(),
        &shared,
    ) {
        Ok(family) => family,
        Err(error) => panic!("{error:?}"),
    };
    let d_slot_id = reused.cache.key_slots.iter().find(|entry| entry.path == "d").unwrap().slot_id;
    let d_slot = reused.cache.slots.iter().find(|slot| slot.slot_id == d_slot_id).unwrap();
    assert_eq!(d_slot.page_id, 1);
    assert_eq!(reused.stats.appended_pages, 0);

    let tail_removed = vec![test_group("a"), test_group("b")];
    let truncated = match reconcile_family(
        &ratio,
        &full_prior,
        AtlasFamilyConfig::empty(),
        [3; 32],
        &tail_removed,
        Vec::new(),
        &shared,
    ) {
        Ok(family) => family,
        Err(error) => panic!("{error:?}"),
    };
    assert_eq!(truncated.cache.pages.len(), 2);
    assert_eq!(truncated.stats.truncated_pages, 1);
}

#[test]
fn reconciling_again_changes_nothing() {
    let shared = test_shared();
    let prior = test_prior(&[("a", 0, 0), ("b", 1, 1), ("c", 2, 2)], 3, 3);
    let groups = vec![test_group("a"), test_group("c"), test_group("d")];
    let reconcile = |prior: &CachedAtlasFamily| {
        match reconcile_family(
            &ratio,
            prior,
            AtlasFamilyConfig::empty(),
            [1; 32],
            &groups,
            Vec::new(),
            &shared,
        ) {
            Ok(family) => family,
            Err(error) => panic!("{error:?}"),
        }
    };
    let once = reconcile(&prior);
    assert_eq!(once.stats.allocated_slots, 1);
    let again = reconcile(&once.cache);
    assert_eq!(again.stats.retained_slots, groups.len());
    assert_eq!((again.stats.allocated_slots, again.stats.freed_slots), (0, 0));
    assert_eq!((again.stats.relocated_slots, again.stats.provider_promoted_slots), (0, 0));
    assert_eq!((again.stats.appended_pages, again.stats.truncated_pages), (0, 0));
    assert!(again.pages.iter().all(|page| !page.dirty));
    assert_eq!(again.cache.next_slot_id, once.cache.next_slot_id);
    assert_eq!(again.cache.pages.len(), once.cache.pages.len());
    assert_eq!(again.cache.slots.len(), once.cache.slots.len());
    for (new, old) in again.cache.slots.iter().zip(&once.cache.slots) {
        assert_eq!((new.slot_id, new.page_id), (old.slot_id, old.page_id));
        assert_eq!((new.reserved_rect, new.destination), (old.reserved_rect, old.destination));
        assert_eq!(new.provider_key, old.provider_key);
    }
    for (new, old) in again.cache.key_slots.iter().zip(&once.cache.key_slots) {
        assert_eq!((&new.path, new.slot_id), (&old.path, old.slot_id));
    }
    for (new, old) in again.cache.bindings.iter().zip(&once.cache.bindings) {
        assert_eq!((&new.path, new.page), (&old.path, old.page));
        assert_eq!((new.min_x, new.max_x, new.min_y, new.max_y), (old.min_x, old.max_x, old.min_y, old.max_y));
    }
}

fn layout_item(key: &str) -> LayoutItem {
    LayoutItem {
        key: key.into(),
        w: 8,
        h: 8,
        source: Some(Rect::new(0, 0, 8, 8)),
        source_size: Some((8, 8)),
        trimmed: false,
    }
}

fn owned(keys: &[&str]) -> Vec<String> {
    keys.iter().map(|key| (*key).to_owned()).collect()
}

#[test]
fn build_prepared_groups_identity_one_group_per_key() {
    let keys = owned(&["b.dds", "a.dds"]);
    let items = [layout_item("a.dds"), layout_item("b.dds")];
    let mut fps = TextMap::new();
    fps.insert("a.dds".to_owned(), [1; 32]);
    fps.insert("b.dds".to_owned(), [2; 32]);
    let groups =
        build_prepared_groups(&keys, &AtlasAliasRelation::Identity, &AtlasAliasRelation::Identity, &items, &fps)
            .unwrap();
    assert_eq!(groups.len(), 2);
    assert_eq!(groups[0].group_key, "a.dds");
    assert_eq!(groups[0].logical_keys, vec!["a.dds".to_owned()]);
    assert_eq!(groups[0].content_fingerprint, [1; 32]);
    assert_eq!(groups[1].group_key, "b.dds");
    assert_eq!(groups[1].logical_keys, vec!["b.dds".to_owned()]);
    assert_eq!(groups[1].content_fingerprint, [2; 32]);
}

#[test]
fn build_prepared_groups_two_tier_complete_composition() {
    let keys = owned(&["0.dds", "a.dds", "b.dds"]);
    let tier0 = alias_map(&[("0.dds", "0.dds"), ("a.dds", "a.dds"), ("b.dds", "a.dds")]);
    let tier1 = alias_map(&[("0.dds", "0.dds"), ("a.dds", "0.dds")]);
    let items = [layout_item("0.dds")];
    let mut fps = TextMap::new();
    fps.insert("0.dds".to_owned(), [9; 32]);
    let groups = build_prepared_groups(&keys, &tier0, &tier1, &items, &fps).unwrap();
    assert_eq!(groups.len(), 1);
    assert_eq!(groups[0].item.key, "0.dds");
    assert_eq!(groups[0].logical_keys, vec!["0.dds".to_owned(), "a.dds".to_owned(), "b.dds".to_owned()]);
    assert_eq!(groups[0].group_key, "0.dds");
}

#[test]
fn build_prepared_groups_complete_missing_is_error() {
    let keys = owned(&["a.dds"]);
    let result =
        build_prepared_groups(&keys, &alias_map(&[]), &AtlasAliasRelation::Identity, &[], &TextMap::new());
    let err = match result {
        Ok(_) => panic!("expected missing Complete entry to fail closed"),
        Err(err) => err,
    };
    assert!(err.message().contains("tier-0"));
    assert!(err.message().contains("a.dds"));
}

#[test]
fn build_prepared_groups_names_each_missing_part() {
    let keys = owned(&["a.dds"]);
    let id = AtlasAliasRelation::Identity;
    let tier1 = build_prepared_groups(&keys, &id, &alias_map(&[]), &[], &TextMap::new());
    assert!(matches!(tier1, Err(GroupError::Tier1AliasMissing { .. })));
    let item = build_prepared_groups(&keys, &id, &id, &[], &TextMap::new());
    assert!(matches!(item, Err(GroupError::LayoutItemMissing { .. })));
    let print = build_prepared_groups(&keys, &id, &id, &[layout_item("a.dds")], &TextMap::new());
    assert!(matches!(print, Err(GroupError::FingerprintMissing { .. })));
}
