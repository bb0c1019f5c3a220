//! What one run leaves for the next: evidence that is carried whole where nothing changed.

use crate::atlas::allocate::stats_of;
use crate::atlas::cache::{
    all_classified, bindings_confirmed, cache_comparable, config_valid, family_valid,
    fingerprint_paths, inventory_matches, is_atlas_path, is_expected_path,
    lemma_validity_decided, override_keys, page_valid, paths_of_domain, records_fingerprints,
    same_fingerprint, single_valued, structure_valid,
};
use crate::atlas::domain::{
    carries, is_carried, lemma_providers_settle, restores_bindings, same_config, PlanError,
    PlannedFamily,
};
use crate::atlas::fresh::{page_sizes, records_layout, FreshLayout};
use crate::atlas::group::{
    has_provider, is_group_of, last_item, lemma_groups_partition, lemma_last_item_bound,
    lemma_provides, lists_text, provider_of, provides, PreparedAtlasGroup,
};
use crate::atlas::laws::{
    fingerprints_cover, item_sound, items_sound, lemma_binding_page_small,
    lemma_fresh_family_valid, lemma_packed_within_cap, some_group_lists, within_cap,
};
use crate::atlas::manager::{
    combines, countable, is_request_of, lemma_carry_changes_nothing, of_domain, plans,
    takes_over, AtlasManager, AtlasPublishPlan, PlanInputs,
};
use crate::atlas::metrics::AtlasFamilyPlanMode;
use crate::atlas::pack::{
    lemma_item_sound, lemma_prepared_subset, prepared_before, prepares, DecodedTexture,
};
use crate::atlas::packer::{is_power_of_two, item_views, settings_for};
use crate::atlas::placement::chosen_items;
use crate::atlas::plan_domain::{
    answers, carried_whole, completes, lemma_groups_counted, lemma_staged_textures,
    planning_fails, stages_groups, stages_textures, FamilyRequest, Staged,
};
use crate::atlas::reconcile::{
    all_owners, all_pages, is_reconciled, is_run, lemma_page_count, page_used, Reconciliation,
};
use crate::atlas::reconcile_laws::{
    is_sound_run, lemma_reconciled_family_valid, lemma_spacing_takes_room, lemma_valid_on_pages,
};
use crate::atlas::retain::as_ints;
use crate::atlas::sizing::AtlasDomain;
use crate::atlas::types::{
    same_family, AtlasCache, AtlasSharedConfig, CachedAtlasFamily, CachedUvBound, UvBound,
};
use crate::atlas::uv::{
    binds_relations, is_last_bound, lemma_binding_digest_determined, lemma_bindings_round_trip,
    lists_bindings, lists_path,
};
use crate::atlas::write::{is_page_path, lemma_families_apart, page_path};
use crate::sort::lemma_same_multiset;
use crate::text::texts;
use vstd::prelude::*;

verus! {

/// Every decoded image has texels.
pub open spec fn all_have_texels(decoded: Seq<DecodedTexture>) -> bool {
    forall|i: int|
        0 <= i < decoded.len() ==> (#[trigger] decoded[i]).image.width > 0
            && decoded[i].image.height > 0
}

/// Prior evidence is such as validation hands on.
pub open spec fn prior_valid<F: Fn(u32, u32) -> u32>(
    ratio: F,
    prior: Option<CachedAtlasFamily>,
    shared: AtlasSharedConfig,
) -> bool {
    prior matches Some(family) ==> family_valid(ratio, family, shared)
}

/// What a family is planned from is in order: the request is the manager's, its sizing deviations
/// lie within the caps, the decoded textures answer it with images that have texels, and prior
/// evidence holds up.
pub open spec fn plannable<F: Fn(u32, u32) -> u32>(
    ratio: F,
    manager: AtlasManager,
    inputs: PlanInputs,
    domain: AtlasDomain,
) -> bool {
    let request = of_domain(inputs.requests, domain);
    let decoded = of_domain(inputs.decoded, domain)@;
    let prior = of_domain(manager.prior, domain);
    &&& is_request_of(manager, domain, request)
    &&& config_valid(request.family_config, manager.spec_shared())
    &&& answers(request, decoded)
    &&& all_have_texels(decoded)
    &&& prior_valid(ratio, prior, manager.spec_shared())
    &&& countable(prior, request)
}

/// Two requests ask for the same: keys, sources and sizing deviations agree.
pub open spec fn same_request(a: FamilyRequest, b: FamilyRequest) -> bool {
    &&& a.domain == b.domain
    &&& same_config(a.family_config, b.family_config)
    &&& texts(a.keys@) == texts(b.keys@)
    &&& a.fingerprints@ == b.fingerprints@
}

/// The committed paths are those of all pages of the cache.
pub open spec fn commits_pages(committed: Seq<String>, cache: AtlasCache) -> bool {
    &&& forall|i: int|
        0 <= i < committed.len() ==> is_expected_path(
            AtlasDomain::Opaque,
            cache.opaque.pages@.len(),
            (#[trigger] committed[i])@,
        ) || is_expected_path(AtlasDomain::Alpha, cache.alpha.pages@.len(), committed[i]@)
    &&& forall|page: nat|
        page < cache.opaque.pages@.len() ==> lists_text(
            committed,
            #[trigger] page_path(AtlasDomain::Opaque, page),
        )
    &&& forall|page: nat|
        page < cache.alpha.pages@.len() ==> lists_text(
            committed,
            #[trigger] page_path(AtlasDomain::Alpha, page),
        )
}

// ---------------------------------------------------------------------------------------------
// The committed pages
// ---------------------------------------------------------------------------------------------

/// A valid family has no more pages than numbers for them.
proof fn lemma_valid_page_count<F: Fn(u32, u32) -> u32>(
    ratio: F,
    family: CachedAtlasFamily,
    shared: AtlasSharedConfig,
)
    requires
        family_valid(ratio, family, shared),
    ensures
        family.pages@.len() <= u32::MAX + 1,
{
    if family.pages@.len() > 0 {
        assert(page_used(family.slots@, family.pages@.len() - 1));
    }
}

proof fn lemma_paths_of_domain(paths: Seq<String>, domain: AtlasDomain)
    ensures
        forall|path: Seq<char>| #[trigger]
            lists_text(paths_of_domain(paths, domain), path) <==> lists_text(paths, path)
                && is_page_path(path, domain),
    decreases paths.len(),
{
    let found = paths_of_domain(paths, domain);
    if paths.len() > 0 {
        let few = paths.drop_last();
        lemma_paths_of_domain(few, domain);
        let before = paths_of_domain(few, domain);
        assert forall|path: Seq<char>| #[trigger] lists_text(found, path) <==> lists_text(paths, path)
            && is_page_path(path, domain) by {
            assert(lists_text(before, path) <==> lists_text(few, path) && is_page_path(path, domain));
            if lists_text(few, path) {
                let i = choose|i: int| 0 <= i < few.len() && (#[trigger] few[i])@ == path;
                assert(paths[i]@ == path);
            }
            if paths.last()@ == path {
                assert(paths[paths.len() - 1]@ == path);
            }
            if lists_text(paths, path) && paths.last()@ != path {
                let i = choose|i: int| 0 <= i < paths.len() && (#[trigger] paths[i])@ == path;
                assert(few[i]@ == path);
            }
            if is_page_path(paths.last()@, domain) {
                assert(found == before.push(paths.last()));
                if lists_text(before, path) {
                    let i = choose|i: int| 0 <= i < before.len() && (#[trigger] before[i])@ == path;
                    assert(found[i]@ == path);
                }
                if paths.last()@ == path {
                    assert(found[before.len() as int]@ == path);
                }
                if lists_text(found, path) && paths.last()@ != path {
                    let i = choose|i: int| 0 <= i < found.len() && (#[trigger] found[i])@ == path;
                    assert(before[i]@ == path);
                }
            }
        }
    }
}

proof fn lemma_expected_classified(domain: AtlasDomain, count: nat, path: Seq<char>)
    requires
        is_expected_path(domain, count, path),
        count <= u32::MAX + 1,
    ensures
        is_page_path(path, domain),
{
    let page = choose|page: nat| page < count && path == #[trigger] page_path(domain, page);
    assert(path == page_path(domain, (page as u32) as nat));
}

/// Committed pages of a whole cache are the inventory of each family.
proof fn lemma_inventory(committed: Seq<String>, cache: AtlasCache)
    requires
        commits_pages(committed, cache),
        cache.opaque.pages@.len() <= u32::MAX + 1,
        cache.alpha.pages@.len() <= u32::MAX + 1,
    ensures
        all_classified(committed),
        inventory_matches(
            paths_of_domain(committed, AtlasDomain::Opaque),
            AtlasDomain::Opaque,
            cache.opaque.pages@.len(),
        ),
        inventory_matches(
            paths_of_domain(committed, AtlasDomain::Alpha),
            AtlasDomain::Alpha,
            cache.alpha.pages@.len(),
        ),
{
    assert forall|i: int| 0 <= i < committed.len() implies is_atlas_path(
        (#[trigger] committed[i])@,
    ) by {
        if is_expected_path(AtlasDomain::Opaque, cache.opaque.pages@.len(), committed[i]@) {
            lemma_expected_classified(
                AtlasDomain::Opaque,
                cache.opaque.pages@.len(),
                committed[i]@,
            );
        } else {
            lemma_expected_classified(AtlasDomain::Alpha, cache.alpha.pages@.len(), committed[i]@);
        }
    }
    lemma_family_inventory(
        committed,
        AtlasDomain::Opaque,
        cache.opaque.pages@.len(),
        AtlasDomain::Alpha,
        cache.alpha.pages@.len(),
    );
    lemma_family_inventory(
        committed,
        AtlasDomain::Alpha,
        cache.alpha.pages@.len(),
        AtlasDomain::Opaque,
        cache.opaque.pages@.len(),
    );
}

proof fn lemma_family_inventory(
    committed: Seq<String>,
    domain: AtlasDomain,
    count: nat,
    other: AtlasDomain,
    other_count: nat,
)
    requires
        domain != other,
        count <= u32::MAX + 1,
        other_count <= u32::MAX + 1,
        forall|i: int|
            0 <= i < committed.len() ==> is_expected_path(
                domain,
                count,
                (#[trigger] committed[i])@,
            ) || is_expected_path(other, other_count, committed[i]@),
        forall|page: nat|
            page < count ==> lists_text(committed, #[trigger] page_path(domain, page)),
    ensures
        inventory_matches(paths_of_domain(committed, domain), domain, count),
{
    let own = paths_of_domain(committed, domain);
    lemma_paths_of_domain(committed, domain);
    assert forall|i: int| 0 <= i < own.len() implies is_expected_path(
        domain,
        count,
        (#[trigger] own[i])@,
    ) by {
        let path = own[i]@;
        assert(lists_text(own, path));
        let k = choose|k: int| 0 <= k < committed.len() && (#[trigger] committed[k])@ == path;
        if !is_expected_path(domain, count, path) {
            lemma_expected_classified(other, other_count, path);
            lemma_families_apart(path);
        }
    }
    assert forall|page: nat| page < count implies lists_text(
        own,
        #[trigger] page_path(domain, page),
    ) by {
        let path = page_path(domain, page);
        assert(lists_text(committed, path));
        assert(path == page_path(domain, (page as u32) as nat));
        assert(is_page_path(path, domain));
        assert(lists_text(own, path));
    }
}

// ---------------------------------------------------------------------------------------------
// The evidence that a plan leaves
// ---------------------------------------------------------------------------------------------

/// The items of the groups have content, where the images have texels.
proof fn lemma_staged_items_sound(
    request: FamilyRequest,
    decoded: Seq<DecodedTexture>,
    staged: Staged,
)
    requires
        answers(request, decoded),
        all_have_texels(decoded),
        stages_textures(request, decoded, staged),
        stages_groups(request, staged),
    ensures
        items_sound(staged.groups),
{
    let sorted = staged.sorted;
    let kept = prepared_before(sorted, request.dedupe_mode, sorted.len() as int);
    let items = staged.prepared.layout_items@;
    lemma_staged_textures(request, decoded, sorted);
    lemma_same_multiset(sorted, decoded);
    lemma_prepared_subset(sorted, request.dedupe_mode, sorted.len() as int);
    assert(sorted.take(sorted.len() as int) =~= sorted);
    assert forall|g: int| 0 <= g < staged.groups.len() implies item_sound(
        (#[trigger] staged.groups[g]).item,
    ) by {
        let group = staged.groups[g];
        assert(is_group_of(
            group,
            request.keys@,
            staged.tier0,
            staged.tier1,
            items,
            staged.prepared.content_fingerprints@,
        ));
        lemma_last_item_bound(items, group.item.key@);
        let k = last_item(items, group.item.key@)->0;
        assert(prepares(staged.prepared, kept[k], k));
        assert(sorted.contains(kept[k]));
        assert(decoded.contains(kept[k]));
        let d = choose|d: int| 0 <= d < decoded.len() && decoded[d] == kept[k];
        assert(decoded[d].image.width > 0);
        lemma_item_sound(kept[k].image, kept[k].key@, group.item);
    }
}

/// The fingerprints cover the keys of the groups.
proof fn lemma_staged_cover(request: FamilyRequest, staged: Staged)
    requires
        request.wf(),
        stages_groups(request, staged),
        records_fingerprints(request.keys@, request.fingerprints@, staged.texture_fingerprints),
    ensures
        fingerprints_cover(staged.groups, staged.texture_fingerprints),
{
    let entries = staged.texture_fingerprints;
    let paths = fingerprint_paths(entries);
    let keys = request.keys@;
    let groups = staged.groups;
    assert(paths =~= texts(keys)) by {
        assert forall|i: int| 0 <= i < paths.len() implies paths[i] == #[trigger] texts(keys)[i] by {
            assert(entries[i].path == keys[i]);
        }
    }
    assert forall|path: Seq<char>| #[trigger] paths.contains(path) <==> some_group_lists(
        groups,
        path,
    ) by {
        if paths.contains(path) {
            let i = choose|i: int| 0 <= i < paths.len() && paths[i] == path;
            assert(keys[i]@ == path);
            let p = provider_of(staged.tier0, staged.tier1, keys[i]@)->0;
            assert(provides(keys, staged.tier0, staged.tier1, p));
            assert(has_provider(groups, p));
            let g = choose|g: int| 0 <= g < groups.len() && (#[trigger] groups[g]).item.key@ == p;
            assert(is_group_of(
                groups[g],
                keys,
                staged.tier0,
                staged.tier1,
                staged.prepared.layout_items@,
                staged.prepared.content_fingerprints@,
            ));
            lemma_provides(keys, staged.tier0, staged.tier1, p);
            assert(keys.contains(keys[i]));
            assert(groups[g].logical_keys@.contains(keys[i]));
            let k = choose|k: int|
                0 <= k < groups[g].logical_keys@.len() && groups[g].logical_keys@[k] == keys[i];
            assert(groups[g].logical_keys@[k]@ == path);
            assert(lists_text(groups[g].logical_keys@, path));
        }
        if some_group_lists(groups, path) {
            let g = choose|g: int|
                0 <= g < groups.len() && lists_text((#[trigger] groups[g]).logical_keys@, path);
            let group = groups[g];
            assert(is_group_of(
                group,
                keys,
                staged.tier0,
                staged.tier1,
                staged.prepared.layout_items@,
                staged.prepared.content_fingerprints@,
            ));
            lemma_provides(keys, staged.tier0, staged.tier1, group.item.key@);
            let k = choose|k: int|
                0 <= k < group.logical_keys@.len() && (#[trigger] group.logical_keys@[k])@ == path;
            assert(group.logical_keys@.contains(group.logical_keys@[k]));
            assert(keys.contains(group.logical_keys@[k]));
            let i = choose|i: int| 0 <= i < keys.len() && keys[i] == group.logical_keys@[k];
            assert(texts(keys)[i] == path);
        }
    }
}

/// A run appends no more pages than there are groups.
proof fn lemma_appended_count(
    prior: CachedAtlasFamily,
    groups: Seq<PreparedAtlasGroup>,
    shared: AtlasSharedConfig,
    run: Reconciliation,
)
    requires
        is_run(prior, groups, shared, run),
    ensures
        run.appended.pages.len() <= groups.len(),
{
    let unplaced = run.filled.unplaced@;
    let owners = all_owners(groups, run);
    if unplaced.len() > 0 {
        lemma_page_count(
            run.appended.pages,
            settings_for(shared.gpu_max),
            item_views(chosen_items(groups, as_ints(unplaced))),
        );
        assert(run.appended.captured.len() == unplaced.len());
        owners.unique_seq_to_set();
        let all = vstd::set_lib::set_int_range(0, groups.len() as int);
        vstd::set_lib::lemma_int_range(0, groups.len() as int);
        assert(owners.to_set().subset_of(all)) by {
            assert forall|g: int| owners.to_set().contains(g) implies all.contains(g) by {
                assert(owners.contains(g));
            }
        }
        vstd::set_lib::lemma_len_subset(owners.to_set(), all);
    }
}

/// The evidence of a plan, with what the next run needs of it.
pub open spec fn leaves_evidence<F: Fn(u32, u32) -> u32>(
    ratio: F,
    request: FamilyRequest,
    shared: AtlasSharedConfig,
    planned: PlannedFamily,
) -> bool {
    &&& family_valid(ratio, planned.cache, shared)
    &&& carries(planned.cache, request.family_config, request.keys@, request.fingerprints@)
    &&& stats_of(planned.cache, shared) is Ok
}

proof fn lemma_same_family_valid<F: Fn(u32, u32) -> u32>(
    ratio: F,
    a: CachedAtlasFamily,
    b: CachedAtlasFamily,
    shared: AtlasSharedConfig,
)
    requires
        same_family(a, b),
        family_valid(ratio, b, shared),
    ensures
        family_valid(ratio, a, shared),
{
    let expected = choose|expected: Map<Seq<char>, (usize, UvBound)>| #[trigger]
        bindings_confirmed(ratio, b, expected);
    assert(bindings_confirmed(ratio, a, expected));
    assert(override_keys(a.family_config)
        =~= override_keys(b.family_config));
    assert(structure_valid(a, shared));
}

/// A plan leaves evidence that validation accepts and that answers the same request.
#[verifier::spinoff_prover]
#[verifier::rlimit(60)]
proof fn lemma_plan_leaves_evidence<F: Fn(u32, u32) -> u32>(
    ratio: F,
    manager: AtlasManager,
    inputs: PlanInputs,
    domain: AtlasDomain,
    planned: PlannedFamily,
)
    requires
        plannable(ratio, manager, inputs, domain),
        plans(ratio, manager, inputs, domain, planned),
        within_cap(planned.cache.pages@, manager.spec_shared()),
    ensures
        leaves_evidence(
            ratio,
            of_domain(inputs.requests, domain),
            manager.spec_shared(),
            planned,
        ),
{
    let request = of_domain(inputs.requests, domain);
    let decoded = of_domain(inputs.decoded, domain)@;
    let prior = of_domain(manager.prior, domain);
    let shared = manager.spec_shared();
    if carried_whole(request, prior) {
        lemma_same_family_valid(ratio, planned.cache, prior->0, shared);
        assert(carries(planned.cache, request.family_config, request.keys@, request.fingerprints@));
    } else {
        let staged = choose|staged: Staged| #[trigger]
            completes(ratio, request, prior, shared, decoded, staged, planned);
        let groups = staged.groups;
        let family = staged.family;
        lemma_staged_textures(request, decoded, staged.sorted);
        lemma_providers_settle(
            request.keys@,
            request.fingerprints@,
            request.dedupe_mode,
            staged.tier0,
            staged.sorted,
            staged.tier1,
        );
        lemma_groups_partition(
            groups,
            request.keys@,
            staged.tier0,
            staged.tier1,
            staged.prepared.layout_items@,
            staged.prepared.content_fingerprints@,
        );
        lemma_groups_counted(request, staged);
        lemma_staged_items_sound(request, decoded, staged);
        lemma_staged_cover(request, staged);
        assert(override_keys(family.cache.family_config)
            =~= override_keys(request.family_config));
        assert(config_valid(family.cache.family_config, shared));
        match planned.plan_mode {
            AtlasFamilyPlanMode::ExactCarry => {},
            AtlasFamilyPlanMode::Fresh => {
                lemma_fresh_family_valid(ratio, groups, shared, family.cache, family.bindings@);
            },
            AtlasFamilyPlanMode::Reconciled => {
                let run = choose|run: Reconciliation| #[trigger]
                    is_reconciled(ratio, prior->0, groups, shared, run, family);
                lemma_appended_count(prior->0, groups, shared, run);
                lemma_valid_on_pages(prior->0, shared);
                lemma_spacing_takes_room(groups, shared);
                assert(is_sound_run(prior->0, groups, shared, run));
                lemma_reconciled_family_valid(
                    ratio,
                    prior->0,
                    groups,
                    shared,
                    run,
                    family.cache,
                    family.bindings@,
                );
            },
        }
        assert forall|i: int|
            0 <= i < request.keys@.len() && i < request.fingerprints@.len() implies same_fingerprint(
            #[trigger] request.keys@[i],
            request.fingerprints@[i],
            planned.cache.texture_fingerprints@[i],
        ) by {
            assert(staged.texture_fingerprints[i].path == request.keys@[i]);
        }
    }
}

/// Bindings restored from a plan's evidence are the plan's own.
#[verifier::spinoff_prover]
#[verifier::rlimit(60)]
proof fn lemma_plan_bindings_restored<F: Fn(u32, u32) -> u32>(
    ratio: F,
    manager: AtlasManager,
    inputs: PlanInputs,
    domain: AtlasDomain,
    planned: PlannedFamily,
    restored: Map<Seq<char>, (usize, UvBound)>,
)
    requires
        plannable(ratio, manager, inputs, domain),
        plans(ratio, manager, inputs, domain, planned),
        within_cap(planned.cache.pages@, manager.spec_shared()),
        restores_bindings(restored, planned.cache.bindings@),
    ensures
        restored == planned.bindings@,
{
    let request = of_domain(inputs.requests, domain);
    let decoded = of_domain(inputs.decoded, domain)@;
    let prior = of_domain(manager.prior, domain);
    let shared = manager.spec_shared();
    lemma_plan_leaves_evidence(ratio, manager, inputs, domain, planned);
    let cached = planned.cache.bindings@;
    if carried_whole(request, prior) {
        lemma_restored_unique(cached, restored, planned.bindings@);
    } else {
        let staged = choose|staged: Staged| #[trigger]
            completes(ratio, request, prior, shared, decoded, staged, planned);
        let family = staged.family;
        if family.cache.bindings@.len() == 0 && family.bindings@.dom() == Set::<
            Seq<char>,
        >::empty() {
            assert forall|path: Seq<char>| !restored.dom().contains(path) by {
                assert(!lists_path(cached, path));
            }
            assert(restored =~= family.bindings@);
        } else {
            assert(lists_bindings(family.bindings@, family.cache.bindings@)
                && binds_relations(
                ratio,
                family.cache.pages@,
                family.cache.slots@,
                family.cache.key_slots@,
                family.bindings@,
            )) by {
                match planned.plan_mode {
                    AtlasFamilyPlanMode::ExactCarry => {},
                    AtlasFamilyPlanMode::Fresh => {
                        if staged.groups.len() > 0 {
                            let layout = choose|layout: FreshLayout| #[trigger]
                                records_layout(
                                    ratio,
                                    staged.groups,
                                    shared,
                                    layout,
                                    family.cache,
                                    family.bindings@,
                                );
                        }
                    },
                    AtlasFamilyPlanMode::Reconciled => {},
                }
            }
            assert forall|path: Seq<char>| #[trigger]
                family.bindings@.dom().contains(path) implies family.bindings@[path].0
                <= u32::MAX by {
                lemma_binding_page_small(ratio, family.cache, family.bindings@, path);
            }
            lemma_bindings_round_trip(family.bindings@, family.cache.bindings@, restored);
        }
    }
}

/// Evidence restores to one set of bindings.
proof fn lemma_restored_unique(
    cached: Seq<CachedUvBound>,
    a: Map<Seq<char>, (usize, UvBound)>,
    b: Map<Seq<char>, (usize, UvBound)>,
)
    requires
        restores_bindings(a, cached),
        restores_bindings(b, cached),
    ensures
        a == b,
{
    assert forall|path: Seq<char>| #[trigger] a.dom().contains(path) <==> b.dom().contains(path) by {
        assert(b.dom().contains(path) <==> lists_path(cached, path));
    }
    assert forall|path: Seq<char>| #[trigger] a.dom().contains(path) implies a[path] == b[path] by {
        let k = lemma_last_bound(cached, path, cached.len() as int);
        assert(a[cached[k].path@] == b[cached[k].path@]);
    }
    assert(a =~= b);
}

proof fn lemma_last_bound(
    cached: Seq<CachedUvBound>,
    path: Seq<char>,
    end: int,
) -> (k: int)
    requires
        0 <= end <= cached.len(),
        exists|k: int| 0 <= k < end && (#[trigger] cached[k]).path@ == path,
        forall|j: int| end <= j < cached.len() ==> (#[trigger] cached[j]).path@ != path,
    ensures
        0 <= k < cached.len(),
        cached[k].path@ == path,
        is_last_bound(cached, k),
    decreases end,
{
    if cached[end - 1].path@ == path {
        end - 1
    } else {
        lemma_last_bound(cached, path, end - 1)
    }
}

// ---------------------------------------------------------------------------------------------
// The next run
// ---------------------------------------------------------------------------------------------

/// The second manager has the settings of the first and the evidence that validation takes over
/// from its plan, with the pages of that plan committed, and is asked for the same.
pub open spec fn follows<F: Fn(u32, u32) -> u32>(
    ratio: F,
    first: AtlasManager,
    inputs: PlanInputs,
    plan: AtlasPublishPlan,
    committed: Seq<String>,
    second: AtlasManager,
    next: PlanInputs,
) -> bool {
    &&& second.spec_shared() == first.spec_shared()
    &&& commits_pages(committed, plan.cache)
    &&& takes_over(ratio, second.spec_shared(), Some(plan.cache), committed, second.prior)
    &&& same_request(inputs.requests.opaque, next.requests.opaque)
    &&& same_request(inputs.requests.alpha, next.requests.alpha)
}

/// Evidence that answers a request answers one that asks for the same.
proof fn lemma_same_request_carried(
    family: CachedAtlasFamily,
    request: FamilyRequest,
    next: FamilyRequest,
)
    requires
        carries(family, request.family_config, request.keys@, request.fingerprints@),
        same_request(request, next),
    ensures
        carries(family, next.family_config, next.keys@, next.fingerprints@),
{
    assert(texts(request.keys@).len() == request.keys@.len());
    assert(texts(next.keys@).len() == next.keys@.len());
    assert forall|i: int|
        0 <= i < next.keys@.len() && i < next.fingerprints@.len() implies same_fingerprint(
        #[trigger] next.keys@[i],
        next.fingerprints@[i],
        family.texture_fingerprints@[i],
    ) by {
        assert(texts(request.keys@)[i] == request.keys@[i]@);
        assert(texts(next.keys@)[i] == next.keys@[i]@);
        assert(same_fingerprint(
            request.keys@[i],
            request.fingerprints@[i],
            family.texture_fingerprints@[i],
        ));
    }
    let a = family.family_config.sizing_overrides@;
    let b = request.family_config.sizing_overrides@;
    let c = next.family_config.sizing_overrides@;
    assert forall|i: int| 0 <= i < a.len() implies (#[trigger] a[i]).0@ == c[i].0@ && a[i].1
        == c[i].1 by {
        assert(a[i].0@ == b[i].0@ && a[i].1 == b[i].1);
        assert(b[i].0@ == c[i].0@ && b[i].1 == c[i].1);
    }
}

/// Pages of valid evidence keep to the cap.
proof fn lemma_valid_within_cap<F: Fn(u32, u32) -> u32>(
    ratio: F,
    family: CachedAtlasFamily,
    shared: AtlasSharedConfig,
)
    requires
        family_valid(ratio, family, shared),
    ensures
        within_cap(family.pages@, shared),
{
    assert forall|p: int| 0 <= p < family.pages@.len() implies (#[trigger] family.pages@[p]).width
        <= shared.gpu_max && family.pages@[p].height <= shared.gpu_max by {
        assert(page_valid(family.pages@[p], shared));
    }
}

/// Where the page cap is a power of two, the pages of a plan keep to it.
pub proof fn lemma_plan_within_cap<F: Fn(u32, u32) -> u32>(
    ratio: F,
    manager: AtlasManager,
    inputs: PlanInputs,
    domain: AtlasDomain,
    planned: PlannedFamily,
)
    requires
        is_power_of_two(manager.spec_shared().gpu_max),
        plannable(ratio, manager, inputs, domain),
        plans(ratio, manager, inputs, domain, planned),
    ensures
        within_cap(planned.cache.pages@, manager.spec_shared()),
{
    let request = of_domain(inputs.requests, domain);
    let decoded = of_domain(inputs.decoded, domain)@;
    let prior = of_domain(manager.prior, domain);
    let shared = manager.spec_shared();
    if carried_whole(request, prior) {
        lemma_valid_within_cap(ratio, prior->0, shared);
    } else {
        let staged = choose|staged: Staged| #[trigger]
            completes(ratio, request, prior, shared, decoded, staged, planned);
        let groups = staged.groups;
        let family = staged.family;
        match planned.plan_mode {
            AtlasFamilyPlanMode::ExactCarry => {},
            AtlasFamilyPlanMode::Fresh => {
                if groups.len() > 0 {
                    let layout = choose|layout: FreshLayout| #[trigger]
                        records_layout(
                            ratio,
                            groups,
                            shared,
                            layout,
                            family.cache,
                            family.bindings@,
                        );
                    lemma_packed_within_cap(layout.pages, shared);
                }
            },
            AtlasFamilyPlanMode::Reconciled => {
                let run = choose|run: Reconciliation| #[trigger]
                    is_reconciled(ratio, prior->0, groups, shared, run, family);
                lemma_valid_within_cap(ratio, prior->0, shared);
                let appended = run.appended.pages;
                lemma_packed_within_cap(appended, shared);
                let before = (prior->0).pages@;
                assert forall|p: int| 0 <= p < family.cache.pages@.len() implies (
                #[trigger] family.cache.pages@[p]).width <= shared.gpu_max
                    && family.cache.pages@[p].height <= shared.gpu_max by {
                    assert(family.cache.pages@[p] == all_pages(prior->0, run)[p]);
                    if p < before.len() {
                        assert(family.cache.pages@[p] == before[p]);
                    } else {
                        assert(family.cache.pages@[p] == page_sizes(appended)[p - before.len()]);
                    }
                }
            },
        }
    }
}

/// The evidence that a plan leaves, with pages that keep to the page cap, is carried whole by the
/// next run on the same inputs, and planning from it does not fail.
pub proof fn lemma_next_run_carries<F: Fn(u32, u32) -> u32>(
    ratio: F,
    first: AtlasManager,
    inputs: PlanInputs,
    opaque: PlannedFamily,
    alpha: PlannedFamily,
    plan: AtlasPublishPlan,
    committed: Seq<String>,
    second: AtlasManager,
    next: PlanInputs,
)
    requires
        single_valued(ratio),
        plannable(ratio, first, inputs, AtlasDomain::Opaque),
        plannable(ratio, first, inputs, AtlasDomain::Alpha),
        plans(ratio, first, inputs, AtlasDomain::Opaque, opaque),
        plans(ratio, first, inputs, AtlasDomain::Alpha, alpha),
        combines(first, first.spec_shared(), opaque, alpha, plan),
        within_cap(plan.cache.opaque.pages@, first.spec_shared()),
        within_cap(plan.cache.alpha.pages@, first.spec_shared()),
        follows(ratio, first, inputs, plan, committed, second, next),
    ensures
        carried_whole(next.requests.opaque, second.prior.opaque),
        carried_whole(next.requests.alpha, second.prior.alpha),
        second.prior.opaque == Some(plan.cache.opaque),
        second.prior.alpha == Some(plan.cache.alpha),
        forall|error: PlanError| !#[trigger]
            planning_fails(
                ratio,
                next.requests.opaque,
                second.prior.opaque,
                second.spec_shared(),
                next.decoded.opaque@,
                error,
            ),
        forall|error: PlanError| !#[trigger]
            planning_fails(
                ratio,
                next.requests.alpha,
                second.prior.alpha,
                second.spec_shared(),
                next.decoded.alpha@,
                error,
            ),
{
    let shared = first.spec_shared();
    lemma_plan_leaves_evidence(ratio, first, inputs, AtlasDomain::Opaque, opaque);
    lemma_plan_leaves_evidence(ratio, first, inputs, AtlasDomain::Alpha, alpha);
    lemma_valid_page_count(ratio, plan.cache.opaque, shared);
    lemma_valid_page_count(ratio, plan.cache.alpha, shared);
    lemma_inventory(committed, plan.cache);
    assert(cache_comparable(plan.cache, shared, committed));
    lemma_validity_decided(ratio, plan.cache.opaque, shared);
    lemma_validity_decided(ratio, plan.cache.alpha, shared);
    lemma_same_request_carried(
        plan.cache.opaque,
        inputs.requests.opaque,
        next.requests.opaque,
    );
    lemma_same_request_carried(plan.cache.alpha, inputs.requests.alpha, next.requests.alpha);
}

/// Where nothing changed, the plan of the next run is a hit: no page is composed, nothing is
/// decoded, the bindings and their digest are those of the first plan, and so is the evidence.
pub proof fn lemma_next_run_hits<F: Fn(u32, u32) -> u32>(
    ratio: F,
    first: AtlasManager,
    inputs: PlanInputs,
    opaque: PlannedFamily,
    alpha: PlannedFamily,
    plan: AtlasPublishPlan,
    committed: Seq<String>,
    second: AtlasManager,
    next: PlanInputs,
    next_opaque: PlannedFamily,
    next_alpha: PlannedFamily,
    next_plan: AtlasPublishPlan,
)
    requires
        single_valued(ratio),
        plannable(ratio, first, inputs, AtlasDomain::Opaque),
        plannable(ratio, first, inputs, AtlasDomain::Alpha),
        plans(ratio, first, inputs, AtlasDomain::Opaque, opaque),
        plans(ratio, first, inputs, AtlasDomain::Alpha, alpha),
        combines(first, first.spec_shared(), opaque, alpha, plan),
        within_cap(plan.cache.opaque.pages@, first.spec_shared()),
        within_cap(plan.cache.alpha.pages@, first.spec_shared()),
        follows(ratio, first, inputs, plan, committed, second, next),
        plans(ratio, second, next, AtlasDomain::Opaque, next_opaque),
        plans(ratio, second, next, AtlasDomain::Alpha, next_alpha),
        combines(second, second.spec_shared(), next_opaque, next_alpha, next_plan),
    ensures
        next_plan.cache_hit,
        next_plan.metrics.dirty_page_count == 0,
        next_plan.metrics.decoded_texture_count == 0,
        next_plan.binding_digest@ == plan.binding_digest@,
        next_opaque.bindings@ == opaque.bindings@,
        next_alpha.bindings@ == alpha.bindings@,
        same_family(next_plan.cache.opaque, plan.cache.opaque),
        same_family(next_plan.cache.alpha, plan.cache.alpha),
{
    lemma_next_run_carries(
        ratio,
        first,
        inputs,
        opaque,
        alpha,
        plan,
        committed,
        second,
        next,
    );
    lemma_carry_changes_nothing(ratio, second, next, next_opaque, next_alpha, next_plan);
    assert(is_carried(
        next_opaque,
        next.requests.opaque.domain,
        plan.cache.opaque,
        second.spec_shared(),
    ));
    assert(is_carried(
        next_alpha,
        next.requests.alpha.domain,
        plan.cache.alpha,
        second.spec_shared(),
    ));
    lemma_plan_bindings_restored(
        ratio,
        first,
        inputs,
        AtlasDomain::Opaque,
        opaque,
        next_opaque.bindings@,
    );
    lemma_plan_bindings_restored(
        ratio,
        first,
        inputs,
        AtlasDomain::Alpha,
        alpha,
        next_alpha.bindings@,
    );
    lemma_binding_digest_determined(
        opaque.bindings@,
        alpha.bindings@,
        plan.binding_digest@,
        next_plan.binding_digest@,
    );
}

} // verus!
