//! Planning one atlas family: exact carry, reconciliation, or a fresh pack.

use crate::atlas::allocate::{
    allocation_stats, stats_of, AllocatedAtlasFamily, AtlasAllocationStats, describes_pages,
};
use crate::atlas::cache::{fingerprints_match, same_fingerprint};
use crate::atlas::error::AtlasError;
use crate::atlas::fresh::{fresh_allocate_family, fresh_fails, is_fresh_family, items_measurable};
use crate::atlas::group::{
    groups_partition, lists_text, provider_in, provider_of, providers_settle, provides,
    AtlasAliasRelation, GroupError, PreparedAtlasGroup,
};
use crate::atlas::metrics::{family_metrics, metrics_of, AtlasFamilyMetrics, AtlasFamilyPlanMode};
use crate::atlas::pack::{
    aliases_decoded, aliases_first, build_alias_map, canonicals_before, decoded_keys,
    decoded_prints, first_same, keys_distinct, lemma_first_same, DecodedTexture, PixelImage,
};
use crate::atlas::publish::{
    built_before, carried_work, carry_publish, count_built, domain_publish, pages_work, publishes,
    AtlasDomainPublishPlan,
};
use crate::atlas::reconcile::{
    is_reconciled, reconcile_family, reconcile_fails, slots_on_pages, Reconciliation,
};
use crate::atlas::renames::{
    all_liftable, apply_provider_renames, refiled, unclaimed,
};
use crate::atlas::sizing::AtlasDomain;
use crate::atlas::types::{
    digest_eq, same_family, AtlasFamilyConfig, AtlasSharedConfig, CachedAtlasFamily,
    CachedTextureFingerprint, CachedUvBound, TextureDedupeMode,
};
use crate::atlas::uv::{
    binding_delta, bound_of, cached_uv_map, delta_between, is_last_bound, lists_path, BindingDelta,
    FrameMap,
};
use crate::text::{clone_texts, str_eq};
use crate::text_map::TextMap;
use vstd::prelude::*;

verus! {

/// The outcome of planning one family.
pub struct PlannedFamily {
    pub publish: Option<AtlasDomainPublishPlan>,
    pub bindings: FrameMap,
    pub cache: CachedAtlasFamily,
    pub layout_hit: bool,
    pub decoded_texture_count: usize,
    pub carried_page_count: usize,
    pub built_page_count: usize,
    pub plan_mode: AtlasFamilyPlanMode,
    pub binding_delta: Option<BindingDelta>,
    pub metrics: AtlasFamilyMetrics,
}

/// Why a family could not be planned.
#[derive(Debug)]
pub enum PlanError {
    /// Groups could not be built from the prepared textures.
    Group(GroupError),
    /// The layout could not be computed.
    Layout(AtlasError),
}

// ---------------------------------------------------------------------------------------------
// Exact carry
// ---------------------------------------------------------------------------------------------

/// Two family configurations list the same sizing deviations.
pub open spec fn same_config(a: AtlasFamilyConfig, b: AtlasFamilyConfig) -> bool {
    &&& a.sizing_overrides@.len() == b.sizing_overrides@.len()
    &&& forall|i: int|
        0 <= i < a.sizing_overrides@.len() ==> (#[trigger] a.sizing_overrides@[i]).0@
            == b.sizing_overrides@[i].0@ && a.sizing_overrides@[i].1 == b.sizing_overrides@[i].1
}

impl AtlasFamilyConfig {
    /// Whether two family configurations list the same sizing deviations.
    pub fn same_as(&self, other: &Self) -> (r: bool)
        ensures
            r == same_config(*self, *other),
    {
        if self.sizing_overrides.len() != other.sizing_overrides.len() {
            return false;
        }
        let mut i: usize = 0;
        while i < self.sizing_overrides.len()
            invariant
                i <= self.sizing_overrides@.len() == other.sizing_overrides@.len(),
                forall|k: int|
                    0 <= k < i ==> (#[trigger] self.sizing_overrides@[k]).0@
                        == other.sizing_overrides@[k].0@ && self.sizing_overrides@[k].1
                        == other.sizing_overrides@[k].1,
            decreases self.sizing_overrides@.len() - i,
        {
            let a = &self.sizing_overrides[i];
            let b = &other.sizing_overrides[i];
            if !str_eq(a.0.as_str(), b.0.as_str()) || a.1 != b.1 {
                return false;
            }
            i = i + 1;
        }
        true
    }
}

/// The prior evidence answers the current inputs exactly.
pub open spec fn carries(
    prior: CachedAtlasFamily,
    family_config: AtlasFamilyConfig,
    keys: Seq<String>,
    fingerprints: Seq<(u64, [u8; 32])>,
) -> bool {
    &&& same_config(prior.family_config, family_config)
    &&& keys.len() == prior.texture_fingerprints@.len()
    &&& forall|i: int|
        0 <= i < keys.len() && i < fingerprints.len() ==> same_fingerprint(
            #[trigger] keys[i],
            fingerprints[i],
            prior.texture_fingerprints@[i],
        )
}

/// Whether the prior evidence answers the current inputs exactly.
pub fn carries_exactly(
    prior: &CachedAtlasFamily,
    family_config: &AtlasFamilyConfig,
    keys: &[String],
    fingerprints: &[(u64, [u8; 32])],
) -> (r: bool)
    ensures
        r == carries(*prior, *family_config, keys@, fingerprints@),
{
    prior.family_config.same_as(family_config) && fingerprints_match(
        keys,
        fingerprints,
        prior.texture_fingerprints.as_slice(),
    )
}

/// The bindings are the cached ones.
pub open spec fn restores_bindings(
    bindings: Map<Seq<char>, (usize, crate::atlas::types::UvBound)>,
    cached: Seq<CachedUvBound>,
) -> bool {
    &&& forall|path: Seq<char>| #[trigger]
        bindings.dom().contains(path) <==> lists_path(cached, path)
    &&& forall|k: int|
        0 <= k < cached.len() && is_last_bound(cached, k) ==> bindings[(#[trigger] cached[k]).path@]
            == (cached[k].page as usize, bound_of(cached[k]))
}

/// The plan keeps the prior evidence, bindings, and pages as they are.
pub open spec fn is_carried(
    planned: PlannedFamily,
    domain: AtlasDomain,
    prior: CachedAtlasFamily,
    shared: AtlasSharedConfig,
) -> bool {
    let pages = prior.pages@.len() as usize;
    &&& publishes(planned.publish, domain, carried_work(prior.pages@.len()), Map::empty(), 0)
    &&& planned.bindings.wf()
    &&& restores_bindings(planned.bindings@, prior.bindings@)
    &&& same_family(planned.cache, prior)
    &&& planned.layout_hit
    &&& planned.decoded_texture_count == 0
    &&& planned.carried_page_count == prior.pages@.len()
    &&& planned.built_page_count == 0
    &&& planned.plan_mode == AtlasFamilyPlanMode::ExactCarry
    &&& planned.binding_delta matches Some(delta) && {
        &&& delta.added@.len() == 0
        &&& delta.removed@.len() == 0
        &&& delta.changed@.len() == 0
        &&& delta.unchanged == prior.bindings@.len()
    }
    &&& stats_of(prior, shared) matches Ok(stats) && planned.metrics == metrics_of(
        AtlasFamilyPlanMode::ExactCarry,
        AtlasAllocationStats { retained_slots: prior.slots@.len() as usize, ..stats },
        pages,
        0,
        planned.binding_delta,
    )
}

/// Carries a family whole.
pub fn carry_family(
    domain: AtlasDomain,
    prior: &CachedAtlasFamily,
    shared: &AtlasSharedConfig,
) -> (r: Result<PlannedFamily, AtlasError>)
    ensures
        match r {
            Ok(planned) => is_carried(planned, domain, *prior, *shared),
            Err(e) => stats_of(*prior, *shared) == Err::<AtlasAllocationStats, AtlasError>(e),
        },
{
    let carried_page_count: usize = prior.pages.len();
    let mut allocation = match allocation_stats(prior, shared) {
        Ok(allocation) => allocation,
        Err(e) => return Err(e),
    };
    allocation.retained_slots = prior.slots.len();
    // Exact carry republishes the prior bindings verbatim.
    let mut delta = BindingDelta::default();
    proof {
        assert(delta@.added.len() == 0);
        assert(delta@.removed.len() == 0);
        assert(delta@.changed.len() == 0);
        assert(delta.added@.len() == 0);
        assert(delta.removed@.len() == 0);
        assert(delta.changed@.len() == 0);
    }
    delta.unchanged = prior.bindings.len();
    let binding_delta = Some(delta);
    let metrics = family_metrics(
        AtlasFamilyPlanMode::ExactCarry,
        &allocation,
        carried_page_count,
        0,
        &binding_delta,
    );
    Ok(
        PlannedFamily {
            publish: carry_publish(domain, carried_page_count),
            bindings: cached_uv_map(prior.bindings.as_slice()),
            cache: prior.clone(),
            layout_hit: true,
            decoded_texture_count: 0,
            carried_page_count,
            built_page_count: 0,
            plan_mode: AtlasFamilyPlanMode::ExactCarry,
            binding_delta,
            metrics,
        },
    )
}

// ---------------------------------------------------------------------------------------------
// Allocation
// ---------------------------------------------------------------------------------------------

/// The family is packed afresh; every page is composed anew.
pub open spec fn is_fresh_allocation<F: Fn(u32, u32) -> u32>(
    ratio: F,
    groups: Seq<PreparedAtlasGroup>,
    shared: AtlasSharedConfig,
    family: AllocatedAtlasFamily,
) -> bool {
    &&& is_fresh_family(ratio, groups, shared, family.cache, family.bindings@)
    &&& describes_pages(
        family.cache,
        Seq::new(family.cache.pages@.len(), |p: int| true),
        family.pages@,
    )
    &&& family.provider_renames@.len() == 0
    &&& stats_of(family.cache, shared) is Ok
    &&& family.stats == (AtlasAllocationStats {
        allocated_slots: family.cache.slots@.len() as usize,
        ..stats_of(family.cache, shared)->Ok_0
    })
}

/// The family is allocated in this way: reconciled where prior evidence allows it, else fresh.
pub open spec fn allocates<F: Fn(u32, u32) -> u32>(
    ratio: F,
    prior: Option<CachedAtlasFamily>,
    groups: Seq<PreparedAtlasGroup>,
    shared: AtlasSharedConfig,
    plan_mode: AtlasFamilyPlanMode,
    family: AllocatedAtlasFamily,
) -> bool {
    match plan_mode {
        AtlasFamilyPlanMode::ExactCarry => false,
        AtlasFamilyPlanMode::Reconciled => {
            &&& prior is Some
            &&& reconciles(ratio, prior->0, groups, shared, family)
        },
        AtlasFamilyPlanMode::Fresh => {
            &&& is_fresh_allocation(ratio, groups, shared, family)
            &&& prior is Some ==> reconcile_refused(ratio, prior->0, groups, shared)
        },
    }
}

/// The family is the outcome of reconciling with the prior evidence.
pub open spec fn reconciles<F: Fn(u32, u32) -> u32>(
    ratio: F,
    prior: CachedAtlasFamily,
    groups: Seq<PreparedAtlasGroup>,
    shared: AtlasSharedConfig,
    family: AllocatedAtlasFamily,
) -> bool {
    exists|run: Reconciliation| #[trigger]
        is_reconciled(ratio, prior, groups, shared, run, family)
}

/// Reconciling with the prior evidence stops with some error.
pub open spec fn reconcile_refused<F: Fn(u32, u32) -> u32>(
    ratio: F,
    prior: CachedAtlasFamily,
    groups: Seq<PreparedAtlasGroup>,
    shared: AtlasSharedConfig,
) -> bool {
    exists|error: AtlasError| #[trigger] reconcile_fails(ratio, prior, groups, shared, error)
}

/// What a family's evidence says of its inputs.
pub open spec fn records_inputs(
    family: CachedAtlasFamily,
    family_config: AtlasFamilyConfig,
    layout_input_digest: [u8; 32],
    texture_fingerprints: Seq<CachedTextureFingerprint>,
) -> bool {
    &&& family.family_config.sizing_overrides@ == family_config.sizing_overrides@
    &&& family.layout_input_digest == layout_input_digest
    &&& family.texture_fingerprints@ == texture_fingerprints
}

/// Reconciles with prior evidence, or packs afresh where there is none or it cannot be kept.
pub fn allocate_family<F: Fn(u32, u32) -> u32>(
    ratio: &F,
    prior: Option<&CachedAtlasFamily>,
    family_config: AtlasFamilyConfig,
    layout_input_digest: [u8; 32],
    groups: &[PreparedAtlasGroup],
    texture_fingerprints: Vec<CachedTextureFingerprint>,
    shared: &AtlasSharedConfig,
) -> (r: Result<(AllocatedAtlasFamily, AtlasFamilyPlanMode), AtlasError>)
    requires
        forall|a: u32, b: u32| #[trigger] call_requires(*ratio, (a, b)),
        groups_partition(groups@),
        items_measurable(groups@),
        shared.gpu_max <= 0x8000_0000,
        prior matches Some(prior) ==> {
            &&& slots_on_pages(*prior)
            &&& groups@.len() + prior.slots@.len() + 2 <= usize::MAX
            &&& groups@.len() + prior.pages@.len() <= usize::MAX
        },
    ensures
        match r {
            Ok((family, plan_mode)) => {
                &&& allocates(*ratio, owned(prior), groups@, *shared, plan_mode, family)
                &&& records_inputs(
                    family.cache,
                    family_config,
                    layout_input_digest,
                    texture_fingerprints@,
                )
                &&& family.bindings.wf()
            },
            Err(e) => {
                &&& fresh_fails(*ratio, groups@, *shared, e)
                &&& prior is Some ==> reconcile_refused(*ratio, *prior->0, groups@, *shared)
            },
        },
{
    if let Some(prior) = prior {
        let fingerprints = texture_fingerprints.clone();
        assert(fingerprints@ =~= texture_fingerprints@);
        match reconcile_family(
            ratio,
            prior,
            family_config.clone(),
            layout_input_digest,
            groups,
            fingerprints,
            shared,
        ) {
            Ok(family) => {
                assert(reconciles(*ratio, *prior, groups@, *shared, family));
                return Ok((family, AtlasFamilyPlanMode::Reconciled));
            },
            Err(_) => {},
        }
    }
    match fresh_allocate_family(
        ratio,
        family_config,
        layout_input_digest,
        groups,
        texture_fingerprints,
        shared,
    ) {
        Ok(family) => Ok((family, AtlasFamilyPlanMode::Fresh)),
        Err(e) => Err(e),
    }
}

/// The evidence behind an optional reference.
pub open spec fn owned<T>(value: Option<&T>) -> Option<T> {
    match value {
        Some(value) => Some(*value),
        None => None,
    }
}

/// The plan carries out the allocation.
pub open spec fn carries_out(
    planned: PlannedFamily,
    domain: AtlasDomain,
    prior: Option<CachedAtlasFamily>,
    family: AllocatedAtlasFamily,
    images: Map<Seq<char>, PixelImage>,
    prepared_source_bytes: u64,
    decoded_texture_count: usize,
) -> bool {
    let renames = family.provider_renames@;
    let built = built_before(family.pages@, family.pages@.len() as int);
    &&& all_liftable(images, renames)
    &&& forall|i: int| 0 <= i < renames.len() ==> #[trigger] unclaimed(images, renames, i)
    &&& publishes(
        planned.publish,
        domain,
        pages_work(family.pages@),
        refiled(images, renames, renames.len() as int),
        prepared_source_bytes,
    )
    &&& planned.bindings == family.bindings
    &&& planned.cache == family.cache
    &&& planned.layout_hit == (prior is Some && prior->0.layout_input_digest@
        == family.cache.layout_input_digest@)
    &&& planned.decoded_texture_count == decoded_texture_count
    &&& planned.built_page_count == built
    &&& planned.carried_page_count == family.pages@.len() - built
    &&& match prior {
        Some(prior) => planned.binding_delta is Some && planned.binding_delta->0@ == delta_between(
            prior.bindings@,
            family.cache.bindings@,
        ),
        None => planned.binding_delta is None,
    }
    &&& planned.metrics == metrics_of(
        planned.plan_mode,
        family.stats,
        planned.carried_page_count,
        planned.built_page_count,
        planned.binding_delta,
    )
}

/// The images cannot be refiled, and `error` says why.
pub open spec fn renames_fail(
    images: Map<Seq<char>, PixelImage>,
    renames: Seq<(String, String)>,
    error: AtlasError,
) -> bool {
    ||| error == AtlasError::PreparedImageMissing && !all_liftable(images, renames)
    ||| error == AtlasError::ProviderClaimedTwice && all_liftable(images, renames) && exists|i: int|
        0 <= i < renames.len() && !#[trigger] unclaimed(images, renames, i)
}

/// Turns an allocation into publication work.
pub fn plan_allocation(
    domain: AtlasDomain,
    prior: Option<&CachedAtlasFamily>,
    allocated: AllocatedAtlasFamily,
    plan_mode: AtlasFamilyPlanMode,
    images: TextMap<PixelImage>,
    prepared_source_bytes: u64,
    decoded_texture_count: usize,
) -> (r: Result<PlannedFamily, AtlasError>)
    requires
        images.wf(),
    ensures
        match r {
            Ok(planned) => {
                &&& planned.plan_mode == plan_mode
                &&& carries_out(
                    planned,
                    domain,
                    owned(prior),
                    allocated,
                    images@,
                    prepared_source_bytes,
                    decoded_texture_count,
                )
            },
            Err(e) => renames_fail(images@, allocated.provider_renames@, e),
        },
{
    let mut images = images;
    match apply_provider_renames(&mut images, allocated.provider_renames.as_slice()) {
        Ok(_) => {},
        Err(e) => return Err(e),
    }
    let (delta, layout_hit) = match prior {
        Some(prior) => (
            Some(binding_delta(prior.bindings.as_slice(), allocated.cache.bindings.as_slice())),
            digest_eq(&prior.layout_input_digest, &allocated.cache.layout_input_digest),
        ),
        None => (None, false),
    };
    let built_page_count: usize = count_built(allocated.pages.as_slice());
    let carried_page_count: usize = allocated.pages.len() - built_page_count;
    let metrics = family_metrics(
        plan_mode,
        &allocated.stats,
        carried_page_count,
        built_page_count,
        &delta,
    );
    Ok(
        PlannedFamily {
            publish: domain_publish(domain, allocated.pages, images, prepared_source_bytes),
            bindings: allocated.bindings,
            cache: allocated.cache,
            layout_hit,
            decoded_texture_count,
            carried_page_count,
            built_page_count,
            plan_mode,
            binding_delta: delta,
            metrics,
        },
    )
}

// ---------------------------------------------------------------------------------------------
// Source aliases
// ---------------------------------------------------------------------------------------------

/// How the keys resolve to the ones that are decoded.
pub open spec fn aliases_sources(
    keys: Seq<String>,
    fingerprints: Seq<(u64, [u8; 32])>,
    dedupe_mode: TextureDedupeMode,
    alias: AtlasAliasRelation,
) -> bool {
    match dedupe_mode {
        TextureDedupeMode::Off => alias is Identity,
        TextureDedupeMode::Exact => alias matches AtlasAliasRelation::Complete(aliases)
            && aliases.wf() && aliases_first(keys, fingerprints, aliases@),
    }
}

/// The keys that are decoded: each one, or the first of identical sources.
pub open spec fn decoded_sources(
    keys: Seq<String>,
    fingerprints: Seq<(u64, [u8; 32])>,
    dedupe_mode: TextureDedupeMode,
) -> Seq<String> {
    match dedupe_mode {
        TextureDedupeMode::Off => keys,
        TextureDedupeMode::Exact => canonicals_before(keys, fingerprints, keys.len() as int),
    }
}

/// Aliases byte-identical sources; the first of them is decoded for all.
pub fn alias_sources(
    keys: &[String],
    fingerprints: &[(u64, [u8; 32])],
    dedupe_mode: TextureDedupeMode,
) -> (r: (Vec<String>, AtlasAliasRelation))
    requires
        keys@.len() == fingerprints@.len(),
        keys_distinct(keys@),
    ensures
        r.0@ == decoded_sources(keys@, fingerprints@, dedupe_mode),
        r.1.wf(),
        aliases_sources(keys@, fingerprints@, dedupe_mode, r.1),
{
    match dedupe_mode {
        TextureDedupeMode::Off => {
            (clone_texts(keys), AtlasAliasRelation::Identity)
        },
        TextureDedupeMode::Exact => {
            let (canonicals, aliases) = build_alias_map(keys, fingerprints);
            (canonicals, AtlasAliasRelation::Complete(aliases))
        },
    }
}

/// A key is among the first of identical sources exactly where it comes first with its print.
proof fn lemma_canonical_listed(keys: Seq<String>, prints: Seq<(u64, [u8; 32])>, end: int, key: Seq<char>)
    requires
        0 <= end <= keys.len(),
        lists_text(canonicals_before(keys, prints, end), key),
    ensures
        exists|i: int|
            0 <= i < end && (#[trigger] keys[i])@ == key && first_same(prints, i) == i,
    decreases end,
{
    if end > 0 {
        let list = canonicals_before(keys, prints, end);
        let before = canonicals_before(keys, prints, end - 1);
        let k = choose|k: int| 0 <= k < list.len() && (#[trigger] list[k])@ == key;
        if k < before.len() {
            assert(before[k]@ == key);
            lemma_canonical_listed(keys, prints, end - 1, key);
        } else {
            assert(keys[end - 1]@ == key);
        }
    }
}

/// Providers provide for themselves where only the decoded sources are prepared.
pub proof fn lemma_providers_settle(
    keys: Seq<String>,
    fingerprints: Seq<(u64, [u8; 32])>,
    dedupe_mode: TextureDedupeMode,
    tier0: AtlasAliasRelation,
    decoded: Seq<DecodedTexture>,
    tier1: AtlasAliasRelation,
)
    requires
        keys.len() == fingerprints.len(),
        aliases_sources(keys, fingerprints, dedupe_mode, tier0),
        aliases_decoded(decoded, dedupe_mode, tier1),
        forall|i: int|
            0 <= i < decoded.len() ==> lists_text(
                decoded_sources(keys, fingerprints, dedupe_mode),
                (#[trigger] decoded[i]).key@,
            ),
    ensures
        providers_settle(keys, tier0, tier1),
{
    assert forall|p: Seq<char>| #[trigger] provides(keys, tier0, tier1, p) implies lists_text(
        keys,
        p,
    ) && provider_of(tier0, tier1, p) == Some(p) by {
        let i = choose|i: int|
            0 <= i < keys.len() && provider_of(tier0, tier1, (#[trigger] keys[i])@) == Some(p);
        match dedupe_mode {
            TextureDedupeMode::Off => {
                assert(keys[i]@ == p);
            },
            TextureDedupeMode::Exact => {
                let names = decoded_keys(decoded);
                let prints = decoded_prints(decoded);
                let c = provider_in(tier0, keys[i]@)->0;
                assert(lists_text(names, c));
                let k = choose|k: int| 0 <= k < names.len() && (#[trigger] names[k])@ == c;
                lemma_first_same(prints, k);
                let f = first_same(prints, k);
                assert(names[f]@ == p);
                assert(decoded[f].key@ == p);
                lemma_canonical_listed(keys, fingerprints, keys.len() as int, p);
                let j = choose|j: int|
                    0 <= j < keys.len() && (#[trigger] keys[j])@ == p && first_same(fingerprints, j)
                        == j;
                assert(lists_text(keys, p));
                assert(lists_text(names, p));
                assert(provider_in(tier0, keys[j]@) == Some(p));
                assert(provider_in(tier1, names[f]@) == Some(p));
            },
        }
    }
}

} // verus!
