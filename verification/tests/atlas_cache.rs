use statics::atlas::cache::{build_fingerprint_entries, partition_committed_atlas_paths, validate_cache};
use statics::atlas::manager::AtlasManager;
use statics::atlas::rect::CachedAtlasRect;
use statics::atlas::sizing::{AtlasDomain, SizingPlan};
use statics::atlas::types::{
    AtlasCache, AtlasFamilyConfig, AtlasSharedConfig, AtlasTextureSet, CachedAtlasFamily, CachedAtlasKeySlot,
    CachedAtlasPage, CachedAtlasSlot, TextureDedupeMode, ALPHA_ATLAS_PREFIX, ATLAS_CACHE_VERSION,
    OPAQUE_ATLAS_PREFIX,
};
use statics::atlas::uv::{bindings_from_relations, map_to_cached_bounds};
use statics::atlas::write::{atlas_page_relative_path, atlas_page_string, classify_atlas_page_path};
use statics::defaults::DEFAULT_STATIC_ATLAS_MAX_SIZE;

const TEST_MAX_TEXTURE_DIM: u32 = 512;
const TEST_GPU_MAX: u32 = DEFAULT_STATIC_ATLAS_MAX_SIZE;
const RECIPE: u32 = 3;

type Textures = AtlasTextureSet<Vec<String>>;
type Fingerprints = AtlasTextureSet<Vec<(u64, [u8; 32])>>;
type Prior = AtlasTextureSet<Option<CachedAtlasFamily>>;

fn ratio(n: u32, d: u32) -> u32 {
    (n as f32 / d as f32).to_bits()
}

fn uniform() -> SizingPlan {
    SizingPlan::uniform(TEST_MAX_TEXTURE_DIM)
}

fn owned(keys: &[&str]) -> Vec<String> {
    keys.iter().map(|key| (*key).to_owned()).collect()
}

fn make_structural_family(
    textures: &[String],
    fingerprints: &[(u64, [u8; 32])],
    family_config: AtlasFamilyConfig,
) -> CachedAtlasFamily {
    if textures.is_empty() {
        return CachedAtlasFamily {
            family_config,
            layout_input_digest: [0; 32],
            next_slot_id: 0,
            pages: Vec::new(),
            slots: Vec::new(),
            key_slots: Vec::new(),
            bindings: Vec::new(),
            texture_fingerprints: Vec::new(),
        };
    }
    let pages = vec![CachedAtlasPage { width: 128, height: 64 }];
    let slots: Vec<CachedAtlasSlot> = textures
        .iter()
        .enumerate()
        .map(|(index, path)| {
            let x = 8 + index as u32 * 40;
            CachedAtlasSlot {
                slot_id: index as u64,
                page_id: 0,
                reserved_rect: CachedAtlasRect { x, y: 8, width: 33, height: 33 },
                destination: CachedAtlasRect { x: x + 16, y: 24, width: 1, height: 1 },
                source: CachedAtlasRect { x: 0, y: 0, width: 1, height: 1 },
                source_size: [1, 1],
                rotated: false,
                trimmed: false,
                provider_key: path.clone(),
                content_fingerprint: [index as u8; 32],
            }
        })
        .collect();
    let key_slots: Vec<CachedAtlasKeySlot> = textures
        .iter()
        .enumerate()
        .map(|(index, path)| CachedAtlasKeySlot { path: path.clone(), slot_id: index as u64 })
        .collect();
    let bindings = match bindings_from_relations(&ratio, &pages, &slots, &key_slots) {
        Ok(bindings) => bindings,
        Err(error) => panic!("{error:?}"),
    };
    CachedAtlasFamily {
        family_config,
        layout_input_digest: [7; 32],
        next_slot_id: slots.len() as u64,
        pages,
        slots,
        key_slots,
        bindings: map_to_cached_bounds(&bindings),
        texture_fingerprints: build_fingerprint_entries(textures, fingerprints),
    }
}

fn make_structural_cache(textures: &Textures, fingerprints: &Fingerprints, plan: &SizingPlan) -> AtlasCache {
    AtlasCache {
        version: ATLAS_CACHE_VERSION,
        shared_config: AtlasSharedConfig::current(plan, TextureDedupeMode::Exact, TEST_GPU_MAX, RECIPE),
        opaque: make_structural_family(
            &textures.opaque,
            &fingerprints.opaque,
            AtlasFamilyConfig::current(plan, AtlasDomain::Opaque),
        ),
        alpha: make_structural_family(
            &textures.alpha,
            &fingerprints.alpha,
            AtlasFamilyConfig::current(plan, AtlasDomain::Alpha),
        ),
    }
}

fn page_path(prefix: &str, page: usize) -> String {
    format!(r"statics\textures\{}", atlas_page_string(prefix, page))
}

fn atlas_inventory_paths(cache: &AtlasCache) -> Vec<String> {
    let mut paths = Vec::new();
    for (prefix, count) in
        [(OPAQUE_ATLAS_PREFIX, cache.opaque.pages.len()), (ALPHA_ATLAS_PREFIX, cache.alpha.pages.len())]
    {
        for page in 0..count {
            paths.push(page_path(prefix, page));
        }
    }
    paths
}

fn validate(plan: &SizingPlan, inventory: &[String], cache: &AtlasCache) -> Prior {
    validate_cache(&ratio, plan, TextureDedupeMode::Exact, TEST_GPU_MAX, RECIPE, inventory, cache.clone())
}

fn both_rejected(prior: &Prior) -> bool {
    prior.opaque.is_none() && prior.alpha.is_none()
}

fn both_accepted(prior: &Prior) -> bool {
    prior.opaque.is_some() && prior.alpha.is_some()
}

struct StructuralFixture {
    textures: Textures,
    fingerprints: Fingerprints,
    plan: SizingPlan,
    cache: AtlasCache,
    inventory: Vec<String>,
}

fn two_family_structural_fixture() -> StructuralFixture {
    let textures = AtlasTextureSet::new(owned(&["a.dds", "b.dds"]), owned(&["alpha.dds"]));
    let fingerprints = AtlasTextureSet::new(vec![(4, [1; 32]), (4, [2; 32])], vec![(4, [3; 32])]);
    let plan = uniform();
    let cache = make_structural_cache(&textures, &fingerprints, &plan);
    let inventory = atlas_inventory_paths(&cache);
    StructuralFixture { textures, fingerprints, plan, cache, inventory }
}

#[test]
fn cache_validation_rejects_old_version_globally() {
    let mut fixture = two_family_structural_fixture();
    assert!(
        both_accepted(&validate(&fixture.plan, &fixture.inventory, &fixture.cache)),
        "baseline structural cache must validate both families"
    );

    fixture.cache.version -= 1;
    assert!(both_rejected(&validate(&fixture.plan, &fixture.inventory, &fixture.cache)));
}

#[test]
fn cache_validation_rejects_opaque_structural_failures_independently() {
    let fixture = two_family_structural_fixture();
    assert!(both_accepted(&validate(&fixture.plan, &fixture.inventory, &fixture.cache)));

    let assert_opaque_only = |cache: &AtlasCache| {
        let prior = validate(&fixture.plan, &fixture.inventory, cache);
        assert!(prior.opaque.is_none(), "opaque must be rejected");
        assert!(prior.alpha.is_some(), "alpha sibling must still be accepted");
    };

    let mut cache = fixture.cache.clone();
    cache.opaque.texture_fingerprints[0].path = "z.dds".into();
    assert_opaque_only(&cache);

    let mut cache = fixture.cache.clone();
    cache.opaque.pages.clear();
    assert_opaque_only(&cache);

    let mut cache = fixture.cache.clone();
    cache.opaque.pages[0].width = 0;
    assert_opaque_only(&cache);

    let mut cache = fixture.cache.clone();
    cache.opaque.pages[0].width = 3;
    cache.opaque.pages[0].height = 3;
    assert_opaque_only(&cache);

    let mut cache = fixture.cache.clone();
    cache.opaque.pages[0].width = TEST_GPU_MAX + 1;
    cache.opaque.pages[0].height = TEST_GPU_MAX + 1;
    assert_opaque_only(&cache);

    let mut cache = fixture.cache.clone();
    cache.opaque.slots[0].destination.width = 64;
    assert_opaque_only(&cache);

    let mut cache = fixture.cache.clone();
    cache.opaque.slots[0].rotated = true;
    assert_opaque_only(&cache);

    let mut cache = fixture.cache.clone();
    cache.opaque.bindings[0].max_x = 0.5f32.to_bits();
    assert_opaque_only(&cache);

    let mut cache = fixture.cache.clone();
    cache.opaque.key_slots[0].slot_id = u64::MAX;
    assert_opaque_only(&cache);

    let mut cache = fixture.cache.clone();
    cache.opaque.slots[1].slot_id = cache.opaque.slots[0].slot_id;
    assert_opaque_only(&cache);

    let mut cache = fixture.cache.clone();
    cache.opaque.next_slot_id = cache.opaque.slots.last().unwrap().slot_id;
    assert_opaque_only(&cache);

    let mut cache = fixture.cache.clone();
    cache.opaque.slots[0].provider_key = "missing-provider.dds".into();
    assert_opaque_only(&cache);

    let mut cache = fixture.cache.clone();
    cache.opaque.slots[1].reserved_rect = cache.opaque.slots[0].reserved_rect;
    cache.opaque.slots[1].destination = cache.opaque.slots[0].destination;
    assert_opaque_only(&cache);

    let mut cache = fixture.cache.clone();
    cache.opaque.slots[0].reserved_rect.x = 0;
    cache.opaque.slots[0].destination.x = 16;
    assert_opaque_only(&cache);

    let mut cache = fixture.cache.clone();
    cache.opaque.key_slots[1].path = cache.opaque.key_slots[0].path.clone();
    assert_opaque_only(&cache);
}

#[test]
fn cache_validation_rejects_alpha_structural_failures_independently() {
    let fixture = two_family_structural_fixture();
    assert!(both_accepted(&validate(&fixture.plan, &fixture.inventory, &fixture.cache)));

    let mut cache = fixture.cache.clone();
    cache.alpha.bindings[0].max_x = 0.5f32.to_bits();
    let prior = validate(&fixture.plan, &fixture.inventory, &cache);
    assert!(prior.opaque.is_some(), "opaque sibling must still be accepted");
    assert!(prior.alpha.is_none(), "alpha must be rejected");

    let mut cache = fixture.cache.clone();
    cache.alpha.slots[0].rotated = true;
    let prior = validate(&fixture.plan, &fixture.inventory, &cache);
    assert!(prior.opaque.is_some());
    assert!(prior.alpha.is_none());
}

fn manager_for(fixture: &StructuralFixture, fingerprints: Fingerprints) -> AtlasManager {
    AtlasManager::setup_with_cache_state(
        &ratio,
        uniform(),
        TextureDedupeMode::Exact,
        TEST_GPU_MAX,
        RECIPE,
        fingerprints,
        "textures".to_owned(),
        Some(fixture.cache.clone()),
        &fixture.inventory,
    )
}

#[test]
fn cache_validation_uses_prior_internal_coverage_across_membership_changes() {
    let fixture = two_family_structural_fixture();
    assert!(both_accepted(&validate(&fixture.plan, &fixture.inventory, &fixture.cache)));

    // One more opaque texture than the evidence covers.
    let mut prints = fixture.fingerprints.opaque.clone();
    prints.push((9, [9; 32]));
    let changed = AtlasTextureSet::new(prints, fixture.fingerprints.alpha.clone());
    assert_eq!(changed.opaque.len(), fixture.textures.opaque.len() + 1);
    assert!(both_accepted(&manager_for(&fixture, changed).prior));

    // One more alpha texture than the evidence covers.
    let mut prints = fixture.fingerprints.alpha.clone();
    prints.push((9, [9; 32]));
    let changed = AtlasTextureSet::new(fixture.fingerprints.opaque.clone(), prints);
    assert_eq!(changed.alpha.len(), fixture.textures.alpha.len() + 1);
    assert!(both_accepted(&manager_for(&fixture, changed).prior));
}

#[test]
fn cache_validation_rejects_inventory_per_family() {
    let fixture = two_family_structural_fixture();
    assert!(both_accepted(&validate(&fixture.plan, &fixture.inventory, &fixture.cache)));

    let with = |path: String| {
        let mut inventory = fixture.inventory.clone();
        inventory.push(path);
        validate(&fixture.plan, &inventory, &fixture.cache)
    };
    let without = |path: String| {
        let inventory: Vec<String> = fixture.inventory.iter().filter(|entry| **entry != path).cloned().collect();
        validate(&fixture.plan, &inventory, &fixture.cache)
    };

    let prior = with(page_path(OPAQUE_ATLAS_PREFIX, 1));
    assert!(prior.opaque.is_none());
    assert!(prior.alpha.is_some());

    let prior = without(page_path(OPAQUE_ATLAS_PREFIX, 0));
    assert!(prior.opaque.is_none());
    assert!(prior.alpha.is_some());

    let prior = with(page_path(ALPHA_ATLAS_PREFIX, 1));
    assert!(prior.opaque.is_some());
    assert!(prior.alpha.is_none());

    let prior = without(page_path(ALPHA_ATLAS_PREFIX, 0));
    assert!(prior.opaque.is_some());
    assert!(prior.alpha.is_none());
}

#[test]
fn cache_validation_rejects_unclassifiable_inventory_globally() {
    let fixture = two_family_structural_fixture();
    assert!(both_accepted(&validate(&fixture.plan, &fixture.inventory, &fixture.cache)));

    let mut bad = fixture.inventory.clone();
    bad.push(r"statics\textures\not_an_atlas_page.dds".into());
    assert!(both_rejected(&validate(&fixture.plan, &bad, &fixture.cache)));
}

#[test]
fn classify_atlas_page_path_matches_grammar_and_alpha_precedence() {
    assert_eq!(classify_atlas_page_path(&page_path(OPAQUE_ATLAS_PREFIX, 0)), Some(AtlasDomain::Opaque));
    assert_eq!(classify_atlas_page_path(&page_path(OPAQUE_ATLAS_PREFIX, 2)), Some(AtlasDomain::Opaque));
    assert_eq!(classify_atlas_page_path(&page_path(ALPHA_ATLAS_PREFIX, 0)), Some(AtlasDomain::Alpha));
    assert_eq!(classify_atlas_page_path(&page_path(ALPHA_ATLAS_PREFIX, 3)), Some(AtlasDomain::Alpha));
    assert_eq!(classify_atlas_page_path(r"statics\textures\_mge_xe_atlas_extra.dds"), None);
    assert_eq!(classify_atlas_page_path(r"statics\textures\other.dds"), None);
    assert_eq!(classify_atlas_page_path(r"statics\textures\_mge_xe_atlas_0.dds"), None);
    assert_eq!(classify_atlas_page_path(r"statics\textures\_mge_xe_atlas_00.dds"), None);
    assert_eq!(classify_atlas_page_path(r"statics\textures\_mge_xe_atlas_01.dds"), None);
    assert_eq!(classify_atlas_page_path(r"statics\textures\_mge_xe_atlas_alpha_0.dds"), None);
    assert_eq!(classify_atlas_page_path(r"statics\textures\_mge_xe_atlas_alpha_01.dds"), None);
    // u32::MAX + 1 as a decimal string overflows and must stay unclassifiable.
    assert_eq!(classify_atlas_page_path(r"statics\textures\_mge_xe_atlas_4294967296.dds"), None);

    let paths = vec![
        page_path(ALPHA_ATLAS_PREFIX, 0),
        page_path(OPAQUE_ATLAS_PREFIX, 0),
        page_path(OPAQUE_ATLAS_PREFIX, 1),
    ];
    let partitioned = partition_committed_atlas_paths(&paths).expect("atlas paths partition");
    assert_eq!(partitioned.opaque.len(), 2);
    assert_eq!(partitioned.alpha.len(), 1);
}

#[test]
fn page_paths_name_the_domain_and_the_page() {
    assert_eq!(atlas_page_string(OPAQUE_ATLAS_PREFIX, 0), "_mge_xe_atlas.dds");
    assert_eq!(atlas_page_string(ALPHA_ATLAS_PREFIX, 12), "_mge_xe_atlas_alpha_12.dds");
    assert_eq!(
        atlas_page_relative_path(AtlasDomain::Opaque, 3),
        r"statics\textures\_mge_xe_atlas_3.dds"
    );
    assert_eq!(
        classify_atlas_page_path(&atlas_page_relative_path(AtlasDomain::Alpha, 4294967295)),
        Some(AtlasDomain::Alpha)
    );
}

fn leaf_cache() -> (Textures, Fingerprints, AtlasCache) {
    let textures = AtlasTextureSet::new(owned(&["shared\\leaf.dds"]), Vec::new());
    let fingerprints = AtlasTextureSet::new(vec![(6, [5; 32])], Vec::new());
    let cache = make_structural_cache(&textures, &fingerprints, &uniform());
    (textures, fingerprints, cache)
}

#[test]
fn try_load_cache_requires_alpha_file_when_alpha_textures_exist() {
    let textures = AtlasTextureSet::new(owned(&["shared\\leaf.dds"]), owned(&["shared\\leaf2.dds"]));
    let fingerprints = AtlasTextureSet::new(vec![(6, [5; 32])], vec![(5, [6; 32])]);
    let cache = make_structural_cache(&textures, &fingerprints, &uniform());
    let prior = validate(&uniform(), &[page_path(OPAQUE_ATLAS_PREFIX, 0)], &cache);
    // Opaque inventory matches while the missing alpha page rejects only alpha.
    assert!(prior.opaque.is_some());
    assert!(prior.alpha.is_none());
}

#[test]
fn try_load_cache_allows_empty_alpha_pool_without_alpha_file() {
    let (_, _, cache) = leaf_cache();
    assert!(both_accepted(&validate(&uniform(), &atlas_inventory_paths(&cache), &cache)));
}

#[test]
fn try_load_cache_invalidates_on_config_change() {
    let (_, _, mut cache) = leaf_cache();
    cache.shared_config.gpu_max = 2048;
    assert!(both_rejected(&validate(&uniform(), &atlas_inventory_paths(&cache), &cache)));
}

#[test]
fn try_load_cache_invalidates_on_trim_change() {
    let (_, _, mut cache) = leaf_cache();
    cache.shared_config.trim = !cache.shared_config.trim;
    assert!(both_rejected(&validate(&uniform(), &atlas_inventory_paths(&cache), &cache)));
}

#[test]
fn try_load_cache_invalidates_on_max_texture_dim_change() {
    let (_, _, cache) = leaf_cache();
    let plan = SizingPlan::uniform(TEST_MAX_TEXTURE_DIM * 2);
    assert!(both_rejected(&validate(&plan, &atlas_inventory_paths(&cache), &cache)));
}

#[test]
fn try_load_cache_keeps_structural_evidence_on_family_sizing_change() {
    let (textures, _, cache) = leaf_cache();
    let inventory = atlas_inventory_paths(&cache);
    let mut reduced = uniform();
    reduced.opaque_overrides.insert(textures.opaque[0].clone(), TEST_MAX_TEXTURE_DIM / 2);
    let prior = validate(&reduced, &inventory, &cache);
    assert!(both_accepted(&prior));
    let kept = prior.opaque.unwrap().family_config;
    assert!(!kept.same_as(&AtlasFamilyConfig::current(&reduced, AtlasDomain::Opaque)));
    assert!(kept.same_as(&AtlasFamilyConfig::current(&uniform(), AtlasDomain::Opaque)));

    assert!(both_accepted(&validate(&uniform(), &inventory, &cache)));
}

#[test]
fn family_config_sizing_overrides_are_strictly_ascending() {
    let mut plan = uniform();
    for key in ["zeta.dds", "alpha.dds", "mid.dds"] {
        plan.opaque_overrides.insert(key.to_owned(), 64);
        plan.alpha_overrides.insert(key.to_owned(), 64);
    }

    for domain in [AtlasDomain::Opaque, AtlasDomain::Alpha] {
        let overrides = AtlasFamilyConfig::current(&plan, domain).sizing_overrides;
        assert_eq!(overrides.len(), 3, "{domain:?} projected every override");
        assert!(
            overrides.windows(2).all(|pair| pair[0].0 < pair[1].0),
            "{domain:?} sizing overrides must be strictly ascending, got {overrides:?}"
        );
    }
}

#[test]
fn setup_without_evidence_has_no_prior() {
    let fixture = two_family_structural_fixture();
    let manager = AtlasManager::setup_with_cache_state(
        &ratio,
        uniform(),
        TextureDedupeMode::Exact,
        TEST_GPU_MAX,
        RECIPE,
        fixture.fingerprints,
        "textures".to_owned(),
        None,
        &[],
    );
    assert!(both_rejected(&manager.prior));
    let bare = AtlasManager::setup_without_cache(
        AtlasTextureSet::new(Vec::new(), Vec::new()),
        TextureDedupeMode::Off,
        RECIPE,
        "textures".to_owned(),
    );
    assert!(both_rejected(&bare.prior));
    assert_eq!(bare.atlas_max_size, DEFAULT_STATIC_ATLAS_MAX_SIZE);
}

#[test]
fn clearing_drops_accepted_evidence() {
    let fixture = two_family_structural_fixture();
    let prints = AtlasTextureSet::new(fixture.fingerprints.opaque.clone(), fixture.fingerprints.alpha.clone());
    let mut manager = manager_for(&fixture, prints);
    assert!(both_accepted(&manager.prior));
    manager.clear_prior();
    assert!(both_rejected(&manager.prior));
}
