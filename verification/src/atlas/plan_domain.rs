//! Planning one atlas family from its decoded textures.

use crate::atlas::allocate::{stats_of, AllocatedAtlasFamily, AtlasAllocationStats};
use crate::atlas::cache::{build_fingerprint_entries, records_fingerprints};
use crate::atlas::digest::{family_layout_digest, lacks_source, layout_bytes, sources_known};
use crate::atlas::domain::{
    alias_sources, aliases_sources, allocate_family, allocates, carries, carries_exactly,
    carries_out, carry_family, decoded_sources, is_carried, lemma_providers_settle, owned,
    plan_allocation, reconcile_refused, records_inputs, renames_fail, PlanError, PlannedFamily,
};
use crate::atlas::error::AtlasError;
use crate::atlas::fresh::{fresh_fails, items_measurable};
use crate::atlas::group::{
    all_resolve, build_prepared_groups, explains_failure, has_provider, is_group_of, last_item,
    lemma_groups_partition, lemma_last_item_bound, lists_text, providers, provides,
    AtlasAliasRelation, PreparedAtlasGroup,
};
use crate::atlas::metrics::AtlasFamilyPlanMode;
use crate::atlas::pack::{
    is_preparation, keys_distinct, lemma_prepared_subset, prepare_textures, prepared_before,
    prepares, sorts_textures, DecodedTexture, PreparedAtlasInputs,
};
use crate::atlas::reconcile::slots_on_pages;
use crate::atlas::sizing::AtlasDomain;
use crate::atlas::types::{
    AtlasFamilyConfig, AtlasSharedConfig, CachedAtlasFamily, CachedTextureFingerprint,
    TextureDedupeMode,
};
use crate::bytes::blake3_of;
use crate::sort::{lemma_same_multiset, Ranked};
use crate::text::{ascending, lemma_text_order, text_lt, texts};
use vstd::prelude::*;

verus! {

/// What a family is planned from.
pub struct FamilyRequest {
    pub domain: AtlasDomain,
    pub family_config: AtlasFamilyConfig,
    pub dedupe_mode: TextureDedupeMode,
    /// Logical texture keys in ascending order.
    pub keys: Vec<String>,
    /// Size and content hash of each key's source.
    pub fingerprints: Vec<(u64, [u8; 32])>,
    /// The serialized shared configuration.
    pub shared_bytes: Vec<u8>,
    /// The serialized family configuration.
    pub family_bytes: Vec<u8>,
}

impl FamilyRequest {
    /// Keys ascend, and each has its fingerprint.
    pub open spec fn wf(&self) -> bool {
        ascending(texts(self.keys@)) && self.keys@.len() == self.fingerprints@.len()
    }

    /// The keys that are decoded.
    pub open spec fn sources(&self) -> Seq<String> {
        decoded_sources(self.keys@, self.fingerprints@, self.dedupe_mode)
    }
}

/// The decoded textures are images of sources of the request, each at most once.
pub open spec fn answers(request: FamilyRequest, decoded: Seq<DecodedTexture>) -> bool {
    &&& forall|i: int|
        0 <= i < decoded.len() ==> (#[trigger] decoded[i]).image.wf() && decoded[i].image.width
            * decoded[i].image.height <= u32::MAX
    &&& forall|i: int, j: int|
        0 <= i < j < decoded.len() ==> (#[trigger] decoded[i]).key@ != (#[trigger] decoded[j]).key@
    &&& forall|i: int|
        0 <= i < decoded.len() ==> lists_text(request.sources(), (#[trigger] decoded[i]).key@)
}

/// The intermediate results of planning a family.
pub struct Staged {
    pub tier0: AtlasAliasRelation,
    pub sorted: Seq<DecodedTexture>,
    pub prepared: PreparedAtlasInputs,
    pub tier1: AtlasAliasRelation,
    pub groups: Seq<PreparedAtlasGroup>,
    pub layout_input_digest: [u8; 32],
    pub texture_fingerprints: Seq<CachedTextureFingerprint>,
    pub family: AllocatedAtlasFamily,
}

/// The textures are aliased and prepared.
pub open spec fn stages_textures(
    request: FamilyRequest,
    decoded: Seq<DecodedTexture>,
    staged: Staged,
) -> bool {
    &&& aliases_sources(request.keys@, request.fingerprints@, request.dedupe_mode, staged.tier0)
    &&& sorts_textures(decoded, staged.sorted)
    &&& is_preparation(staged.sorted, request.dedupe_mode, staged.prepared, staged.tier1)
}

/// The logical keys are grouped by prepared content.
pub open spec fn stages_groups(request: FamilyRequest, staged: Staged) -> bool {
    &&& all_resolve(request.keys@, request.keys@.len() as int, staged.tier0, staged.tier1)
    &&& ascending(providers(staged.groups))
    &&& forall|g: int|
        0 <= g < staged.groups.len() ==> is_group_of(
            #[trigger] staged.groups[g],
            request.keys@,
            staged.tier0,
            staged.tier1,
            staged.prepared.layout_items@,
            staged.prepared.content_fingerprints@,
        )
    &&& forall|p: Seq<char>| #[trigger]
        provides(request.keys@, staged.tier0, staged.tier1, p) <==> has_provider(staged.groups, p)
}

/// The layout's inputs are fingerprinted.
pub open spec fn stages_digest(request: FamilyRequest, staged: Staged) -> bool {
    &&& sources_known(staged.groups, staged.groups.len() as int)
    &&& staged.layout_input_digest@ == blake3_of(
        layout_bytes(
            request.domain,
            request.shared_bytes@,
            request.family_bytes@,
            staged.groups,
        ),
    )
    &&& records_fingerprints(request.keys@, request.fingerprints@, staged.texture_fingerprints)
}

/// Slots are allocated to the groups.
pub open spec fn stages_family<F: Fn(u32, u32) -> u32>(
    ratio: F,
    request: FamilyRequest,
    prior: Option<CachedAtlasFamily>,
    shared: AtlasSharedConfig,
    plan_mode: AtlasFamilyPlanMode,
    staged: Staged,
) -> bool {
    &&& allocates(ratio, prior, staged.groups, shared, plan_mode, staged.family)
    &&& records_inputs(
        staged.family.cache,
        request.family_config,
        staged.layout_input_digest,
        staged.texture_fingerprints,
    )
    &&& staged.family.bindings.wf()
}

/// Every stage is as it should be, and the plan carries the last one out.
pub open spec fn completes<F: Fn(u32, u32) -> u32>(
    ratio: F,
    request: FamilyRequest,
    prior: Option<CachedAtlasFamily>,
    shared: AtlasSharedConfig,
    decoded: Seq<DecodedTexture>,
    staged: Staged,
    planned: PlannedFamily,
) -> bool {
    &&& stages_textures(request, decoded, staged)
    &&& stages_groups(request, staged)
    &&& stages_digest(request, staged)
    &&& stages_family(ratio, request, prior, shared, planned.plan_mode, staged)
    &&& carries_out(
        planned,
        request.domain,
        prior,
        staged.family,
        staged.prepared.images@,
        staged.prepared.prepared_source_bytes,
        staged.prepared.decoded_texture_count,
    )
}

/// The prior evidence is carried whole.
pub open spec fn carried_whole(
    request: FamilyRequest,
    prior: Option<CachedAtlasFamily>,
) -> bool {
    prior is Some && carries(
        prior->0,
        request.family_config,
        request.keys@,
        request.fingerprints@,
    )
}

/// The family's plan.
pub open spec fn plans_family<F: Fn(u32, u32) -> u32>(
    ratio: F,
    request: FamilyRequest,
    prior: Option<CachedAtlasFamily>,
    shared: AtlasSharedConfig,
    decoded: Seq<DecodedTexture>,
    planned: PlannedFamily,
) -> bool {
    if carried_whole(request, prior) {
        is_carried(planned, request.domain, prior->0, shared)
    } else {
        exists|staged: Staged| #[trigger]
            completes(ratio, request, prior, shared, decoded, staged, planned)
    }
}

/// Some stage fails with the error.
pub open spec fn stage_fails<F: Fn(u32, u32) -> u32>(
    ratio: F,
    request: FamilyRequest,
    prior: Option<CachedAtlasFamily>,
    shared: AtlasSharedConfig,
    decoded: Seq<DecodedTexture>,
    staged: Staged,
    error: PlanError,
) -> bool {
    &&& stages_textures(request, decoded, staged)
    &&& match error {
        PlanError::Group(error) => explains_failure(
            error,
            request.keys@,
            staged.tier0,
            staged.tier1,
            staged.prepared.layout_items@,
            staged.prepared.content_fingerprints@,
        ),
        PlanError::Layout(error) => {
            &&& stages_groups(request, staged)
            &&& {
                ||| exists|g: int| #[trigger] lacks_source(staged.groups, g, error)
                ||| {
                    &&& stages_digest(request, staged)
                    &&& fresh_fails(ratio, staged.groups, shared, error)
                    &&& prior is Some ==> reconcile_refused(ratio, prior->0, staged.groups, shared)
                }
                ||| {
                    &&& stages_digest(request, staged)
                    &&& exists|plan_mode: AtlasFamilyPlanMode| #[trigger]
                        stages_family(ratio, request, prior, shared, plan_mode, staged)
                    &&& renames_fail(
                        staged.prepared.images@,
                        staged.family.provider_renames@,
                        error,
                    )
                }
            }
        },
    }
}

/// Planning the family fails with the error.
pub open spec fn planning_fails<F: Fn(u32, u32) -> u32>(
    ratio: F,
    request: FamilyRequest,
    prior: Option<CachedAtlasFamily>,
    shared: AtlasSharedConfig,
    decoded: Seq<DecodedTexture>,
    error: PlanError,
) -> bool {
    if carried_whole(request, prior) {
        error matches PlanError::Layout(error) && stats_of(prior->0, shared) == Err::<
            AtlasAllocationStats,
            AtlasError,
        >(error)
    } else {
        exists|staged: Staged| #[trigger]
            stage_fails(ratio, request, prior, shared, decoded, staged, error)
    }
}

/// Ascending keys are distinct.
pub proof fn lemma_ascending_distinct(keys: Seq<String>)
    requires
        ascending(texts(keys)),
    ensures
        keys_distinct(keys),
{
    assert forall|i: int, j: int| 0 <= i < j < keys.len() implies (#[trigger] keys[i])@ != (
    #[trigger] keys[j])@ by {
        assert(text_lt(texts(keys)[i], texts(keys)[j]));
        lemma_text_order(keys[i]@, keys[j]@);
    }
}

/// The staged textures are the decoded ones.
pub proof fn lemma_staged_textures(request: FamilyRequest, decoded: Seq<DecodedTexture>, sorted: Seq<DecodedTexture>)
    requires
        answers(request, decoded),
        sorts_textures(decoded, sorted),
    ensures
        answers(request, sorted),
{
    lemma_same_multiset(sorted, decoded);
    assert forall|i: int| 0 <= i < sorted.len() implies decoded.contains(#[trigger] sorted[i]) by {
        assert(sorted.contains(sorted[i]));
    }
    assert forall|i: int, j: int| 0 <= i < j < sorted.len() implies (#[trigger] sorted[i]).key@ != (
    #[trigger] sorted[j]).key@ by {
        assert(sorted[i].ranks_le(sorted[j]) && !sorted[j].ranks_le(sorted[i]));
        lemma_text_order(sorted[i].key@, sorted[j].key@);
    }
    assert forall|i: int| 0 <= i < sorted.len() implies (#[trigger] sorted[i]).image.wf()
        && sorted[i].image.width * sorted[i].image.height <= u32::MAX && lists_text(
        request.sources(),
        sorted[i].key@,
    ) by {
        assert(decoded.contains(sorted[i]));
        let k = choose|k: int| 0 <= k < decoded.len() && decoded[k] == sorted[i];
        assert(decoded[k].image.wf());
    }
}

/// The items of the groups are no larger than their images.
pub proof fn lemma_items_measurable(request: FamilyRequest, staged: Staged)
    requires
        answers(request, staged.sorted),
        is_preparation(staged.sorted, request.dedupe_mode, staged.prepared, staged.tier1),
        stages_groups(request, staged),
    ensures
        items_measurable(staged.groups),
{
    let sorted = staged.sorted;
    let kept = prepared_before(sorted, request.dedupe_mode, sorted.len() as int);
    let items = staged.prepared.layout_items@;
    lemma_prepared_subset(sorted, request.dedupe_mode, sorted.len() as int);
    assert(sorted.take(sorted.len() as int) =~= sorted);
    assert forall|g: int| 0 <= g < staged.groups.len() implies (
    #[trigger] staged.groups[g]).item.w * staged.groups[g].item.h <= u32::MAX by {
        let group = staged.groups[g];
        assert(is_group_of(
            group,
            request.keys@,
            staged.tier0,
            staged.tier1,
            items,
            staged.prepared.content_fingerprints@,
        ));
        lemma_last_item_bound(items, group.item.key@);
        let k = last_item(items, group.item.key@)->0;
        assert(prepares(staged.prepared, kept[k], k));
        let image = kept[k].image;
        assert(sorted.contains(kept[k]));
        let s = choose|s: int| 0 <= s < sorted.len() && sorted[s] == kept[k];
        assert(sorted[s].image.width * sorted[s].image.height <= u32::MAX);
        let w = group.item.w as int;
        let h = group.item.h as int;
        let iw = image.width as int;
        let ih = image.height as int;
        assert(w <= iw && h <= ih);
        assert(w * h <= iw * ih) by (nonlinear_arith)
            requires
                0 <= w <= iw,
                0 <= h <= ih,
        ;
    }
}

/// There are no more groups than keys.
pub proof fn lemma_groups_counted(request: FamilyRequest, staged: Staged)
    requires
        stages_groups(request, staged),
        crate::atlas::group::providers_settle(request.keys@, staged.tier0, staged.tier1),
    ensures
        staged.groups.len() <= request.keys@.len(),
{
    let names = providers(staged.groups);
    let keys = texts(request.keys@);
    assert forall|i: int, j: int| 0 <= i < names.len() && 0 <= j < names.len() && i != j implies names[i]
        != names[j] by {
        let (a, b) = if i < j {
            (i, j)
        } else {
            (j, i)
        };
        assert(text_lt(names[a], names[b]));
        lemma_text_order(names[a], names[b]);
    }
    assert(names.no_duplicates());
    names.unique_seq_to_set();
    assert forall|name: Seq<char>| names.to_set().contains(name) implies keys.to_set().contains(
        name,
    ) by {
        let g = choose|g: int| 0 <= g < names.len() && names[g] == name;
        assert(staged.groups[g].item.key@ == name);
        assert(has_provider(staged.groups, name));
        assert(provides(request.keys@, staged.tier0, staged.tier1, name));
        assert(lists_text(request.keys@, name));
        let k = choose|k: int| 0 <= k < request.keys@.len() && (#[trigger] request.keys@[k])@ == name;
        assert(keys[k] == name);
    }
    keys.lemma_cardinality_of_set();
    vstd::seq_lib::seq_to_set_is_finite(keys);
    vstd::set_lib::lemma_len_subset(names.to_set(), keys.to_set());
}

/// Plans one family.
///
/// Where the prior evidence answers the request exactly, the decoded textures are not looked at.
pub fn plan_domain<F: Fn(u32, u32) -> u32>(
    ratio: &F,
    request: &FamilyRequest,
    prior: Option<&CachedAtlasFamily>,
    shared: &AtlasSharedConfig,
    decoded: Vec<DecodedTexture>,
) -> (r: Result<PlannedFamily, PlanError>)
    requires
        forall|a: u32, b: u32| #[trigger] call_requires(*ratio, (a, b)),
        request.wf(),
        answers(*request, decoded@),
        shared.gpu_max <= 0x8000_0000,
        prior matches Some(prior) ==> {
            &&& slots_on_pages(*prior)
            &&& request.keys@.len() + prior.slots@.len() + 2 <= usize::MAX
            &&& request.keys@.len() + prior.pages@.len() <= usize::MAX
        },
    ensures
        match r {
            Ok(planned) => plans_family(
                *ratio,
                *request,
                owned(prior),
                *shared,
                decoded@,
                planned,
            ),
            Err(e) => planning_fails(*ratio, *request, owned(prior), *shared, decoded@, e),
        },
{
    if let Some(prior) = prior {
        if carries_exactly(
            prior,
            &request.family_config,
            request.keys.as_slice(),
            request.fingerprints.as_slice(),
        ) {
            return match carry_family(request.domain, prior, shared) {
                Ok(planned) => Ok(planned),
                Err(e) => Err(PlanError::Layout(e)),
            };
        }
    }
    let ghost source = decoded@;
    let ghost mut staged: Staged = arbitrary();
    proof {
        lemma_ascending_distinct(request.keys@);
    }
    let (_, tier0) = alias_sources(
        request.keys.as_slice(),
        request.fingerprints.as_slice(),
        request.dedupe_mode,
    );
    let (prepared, tier1) = prepare_textures(decoded, request.dedupe_mode);
    proof {
        let sorted = choose|sorted: Seq<DecodedTexture>|
            #[trigger] sorts_textures(source, sorted) && is_preparation(
                sorted,
                request.dedupe_mode,
                prepared,
                tier1,
            );
        staged.tier0 = tier0;
        staged.sorted = sorted;
        staged.prepared = prepared;
        staged.tier1 = tier1;
        lemma_staged_textures(*request, source, sorted);
        lemma_providers_settle(
            request.keys@,
            request.fingerprints@,
            request.dedupe_mode,
            tier0,
            sorted,
            tier1,
        );
        assert(stages_textures(*request, source, staged));
    }
    let groups = match build_prepared_groups(
        request.keys.as_slice(),
        &tier0,
        &tier1,
        prepared.layout_items.as_slice(),
        &prepared.content_fingerprints,
    ) {
        Ok(groups) => groups,
        Err(e) => {
            let error = PlanError::Group(e);
            assert(stage_fails(*ratio, *request, owned(prior), *shared, source, staged, error));
            return Err(error);
        },
    };
    proof {
        staged.groups = groups@;
        assert(stages_groups(*request, staged));
        lemma_groups_partition(
            groups@,
            request.keys@,
            tier0,
            tier1,
            prepared.layout_items@,
            prepared.content_fingerprints@,
        );
        lemma_items_measurable(*request, staged);
        lemma_groups_counted(*request, staged);
    }
    let layout_input_digest = match family_layout_digest(
        request.domain,
        request.shared_bytes.as_slice(),
        request.family_bytes.as_slice(),
        groups.as_slice(),
    ) {
        Ok(digest) => digest,
        Err(e) => {
            let error = PlanError::Layout(e);
            assert(stage_fails(*ratio, *request, owned(prior), *shared, source, staged, error));
            return Err(error);
        },
    };
    let texture_fingerprints = build_fingerprint_entries(
        request.keys.as_slice(),
        request.fingerprints.as_slice(),
    );
    proof {
        staged.layout_input_digest = layout_input_digest;
        staged.texture_fingerprints = texture_fingerprints@;
        assert(stages_digest(*request, staged));
    }
    let family_config = request.family_config.clone();
    let (family, plan_mode) = match allocate_family(
        ratio,
        prior,
        family_config,
        layout_input_digest,
        groups.as_slice(),
        texture_fingerprints,
        shared,
    ) {
        Ok((family, plan_mode)) => (family, plan_mode),
        Err(e) => {
            let error = PlanError::Layout(e);
            assert(stage_fails(*ratio, *request, owned(prior), *shared, source, staged, error));
            return Err(error);
        },
    };
    proof {
        staged.family = family;
        assert(stages_family(*ratio, *request, owned(prior), *shared, plan_mode, staged));
    }
    match plan_allocation(
        request.domain,
        prior,
        family,
        plan_mode,
        prepared.images,
        prepared.prepared_source_bytes,
        prepared.decoded_texture_count,
    ) {
        Ok(planned) => {
            assert(completes(*ratio, *request, owned(prior), *shared, source, staged, planned));
            Ok(planned)
        },
        Err(e) => {
            let error = PlanError::Layout(e);
            assert(stage_fails(*ratio, *request, owned(prior), *shared, source, staged, error));
            Err(error)
        },
    }
}

} // verus!
