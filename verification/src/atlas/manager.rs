//! Plans both atlas families and their publication.

use crate::atlas::apply::{
    static_bound, statics_fail_at, update_uv_bounds_from_maps, DistantStatics, UvUpdateError,
};
use crate::atlas::cache::{
    accepts_family, cache_comparable, family_valid, paths_of_domain, validate_cache,
};
use crate::atlas::domain::{
    alias_sources, carries_exactly, is_carried, owned, PlanError, PlannedFamily,
};
use crate::atlas::metrics::{AtlasFamilyPlanMode, AtlasPlanMetrics};
use crate::atlas::pack::DecodedTexture;
use crate::atlas::plan_domain::{
    answers, carried_whole, lemma_ascending_distinct, plan_domain, planning_fails, plans_family,
    FamilyRequest,
};
use crate::atlas::publish::{
    add_published, built_jobs, capped, carried_paths, carried_work, job_views, largest_built,
    largest_canvas, published_bytes, push_carried_paths, push_render_jobs, work_of,
    AtlasDomainPublishPlan, RenderJob, RenderJobView,
};
use crate::atlas::reconcile::slots_on_pages;
use crate::atlas::sizing::{AtlasDomain, SizingPlan, TextureAxisCaps};
use crate::atlas::types::{
    minus, same_family, shared_config_of, usable_texture_dim, AtlasCache, AtlasFamilyConfig,
    AtlasSharedConfig, AtlasTextureSet, CachedAtlasFamily, TextureDedupeMode, ATLAS_BORDER_PADDING,
    ATLAS_CACHE_VERSION, ATLAS_TEXTURE_EXTRUSION, ATLAS_TEXTURE_PADDING,
};
use crate::atlas::uv::{atlas_binding_digest, digests_bindings, BindingDelta};
use crate::defaults::DEFAULT_STATIC_ATLAS_MAX_SIZE;
use crate::list::copied;
use crate::model::TextureNames;
use crate::text::{ascending, texts};
use vstd::prelude::*;

verus! {

/// Plans atlases against the evidence of the previous run.
pub struct AtlasManager {
    /// Evidence of each family that held up.
    pub prior: AtlasTextureSet<Option<CachedAtlasFamily>>,
    /// Size and content hash of each texture's source.
    pub fingerprints: AtlasTextureSet<Vec<(u64, [u8; 32])>>,
    pub plan: SizingPlan,
    pub dedupe_mode: TextureDedupeMode,
    pub atlas_max_size: u32,
    /// Version of the recipe by which sources are deduplicated.
    pub recipe_version: u32,
    pub texture_dir: String,
}

/// The prior evidence can be reconciled.
pub open spec fn prior_usable(prior: Option<CachedAtlasFamily>) -> bool {
    prior matches Some(family) ==> slots_on_pages(family)
}

/// The family of a domain.
pub open spec fn of_domain<T>(set: AtlasTextureSet<T>, domain: AtlasDomain) -> T {
    match domain {
        AtlasDomain::Opaque => set.opaque,
        AtlasDomain::Alpha => set.alpha,
    }
}

/// A source to decode and the longest side that its image may have.
#[derive(Debug)]
pub struct DecodeRequest {
    pub key: String,
    pub longest: u32,
}

/// A fully rendered atlas page.
#[derive(Debug)]
pub struct AtlasPageWrite {
    pub path: String,
    pub bytes: Vec<u8>,
}

/// What planning is given besides the manager's own settings.
pub struct PlanInputs {
    pub requests: AtlasTextureSet<FamilyRequest>,
    /// The decoded sources of each family.
    pub decoded: AtlasTextureSet<Vec<DecodedTexture>>,
}

/// Why the atlases could not be planned.
#[derive(Debug)]
pub enum AtlasPlanError {
    /// A family could not be planned.
    Family { domain: AtlasDomain, error: PlanError },
    /// A subset could not be bound to its place.
    Uv(UvUpdateError),
}

/// Bindings, publication work and evidence of both families.
pub struct AtlasPublishPlan {
    pub opaque: Option<AtlasDomainPublishPlan>,
    pub alpha: Option<AtlasDomainPublishPlan>,
    pub texture_dir: String,
    pub cache_hit: bool,
    pub binding_digest: [u8; 32],
    pub binding_deltas: AtlasTextureSet<Option<BindingDelta>>,
    pub metrics: AtlasPlanMetrics,
    pub cache: AtlasCache,
}

impl AtlasPublishPlan {
    /// Whether both families were carried whole.
    pub fn cache_hit(&self) -> (r: bool)
        ensures
            r == self.cache_hit,
    {
        self.cache_hit
    }

    pub fn metrics(&self) -> (r: &AtlasPlanMetrics)
        ensures
            *r == self.metrics,
    {
        &self.metrics
    }

    pub fn binding_deltas(&self) -> (r: &AtlasTextureSet<Option<BindingDelta>>)
        ensures
            *r == self.binding_deltas,
    {
        &self.binding_deltas
    }

    pub fn binding_digest(&self) -> (r: [u8; 32])
        ensures
            r == self.binding_digest,
    {
        self.binding_digest
    }

    /// Paths of the pages that stay as they are, relative to the output root, opaque pages first.
    pub fn carried_relative_paths(&self) -> (r: Vec<String>)
        ensures
            texts(r@) == paths_carried(self.opaque) + paths_carried(self.alpha),
    {
        let mut paths: Vec<String> = Vec::new();
        push_carried_paths(&mut paths, &self.opaque);
        assert(texts(paths@) =~= paths_carried(self.opaque));
        push_carried_paths(&mut paths, &self.alpha);
        paths
    }
}

impl AtlasPublishPlan {
    /// The pages to compose, encode and write, opaque pages first.
    pub fn render_jobs(&self) -> (r: Vec<RenderJob>)
        ensures
            job_views(r@) == jobs_of(self.opaque) + jobs_of(self.alpha),
    {
        let mut jobs: Vec<RenderJob> = Vec::new();
        push_render_jobs(&mut jobs, &self.opaque);
        assert(job_views(jobs@) =~= jobs_of(self.opaque));
        push_render_jobs(&mut jobs, &self.alpha);
        jobs
    }
}

/// The pages of a family to compose, encode and write.
pub open spec fn jobs_of(publish: Option<AtlasDomainPublishPlan>) -> Seq<RenderJobView> {
    match publish {
        Some(plan) => built_jobs(plan.domain, plan.pages@, plan.pages@.len() as int),
        None => Seq::empty(),
    }
}

/// Paths of the pages of a family that stay as they are.
pub open spec fn paths_carried(publish: Option<AtlasDomainPublishPlan>) -> Seq<Seq<char>> {
    match publish {
        Some(plan) => carried_paths(plan.domain, plan.pages@, plan.pages@.len() as int),
        None => Seq::empty(),
    }
}

/// The family changed its evidence without composing a page.
pub open spec fn quietly_reconciled(planned: PlannedFamily) -> bool {
    planned.plan_mode == AtlasFamilyPlanMode::Reconciled && planned.built_page_count == 0
}

/// The family was carried whole.
pub open spec fn carried_over(planned: PlannedFamily) -> bool {
    planned.plan_mode == AtlasFamilyPlanMode::ExactCarry && planned.built_page_count == 0
}

/// Bytes of the prepared images of a family.
pub open spec fn source_bytes(publish: Option<AtlasDomainPublishPlan>) -> int {
    match publish {
        Some(plan) => plan.prepared_source_bytes as int,
        None => 0,
    }
}

/// The larger of two numbers.
pub open spec fn larger(a: u64, b: u64) -> u64 {
    if a >= b {
        a
    } else {
        b
    }
}

/// The sum, or the largest machine number.
pub open spec fn counted(a: usize, b: usize) -> usize {
    if a + b <= usize::MAX {
        (a + b) as usize
    } else {
        usize::MAX
    }
}

/// The metrics of two planned families.
pub open spec fn measures(opaque: PlannedFamily, alpha: PlannedFamily, m: AtlasPlanMetrics) -> bool {
    let opaque_work = work_of(opaque.publish);
    let alpha_work = work_of(alpha.publish);
    let prepared = capped(source_bytes(opaque.publish) + source_bytes(alpha.publish));
    let canvas = larger(
        largest_canvas(opaque_work, opaque_work.len() as int),
        largest_canvas(alpha_work, alpha_work.len() as int),
    );
    &&& m.page_counts.opaque == (opaque.cache.pages@.len() % 0x1_0000_0000)
    &&& m.page_counts.alpha == (alpha.cache.pages@.len() % 0x1_0000_0000)
    &&& m.layout_hits == (AtlasTextureSet { opaque: opaque.layout_hit, alpha: alpha.layout_hit })
    &&& m.decoded_texture_count == counted(
        opaque.decoded_texture_count,
        alpha.decoded_texture_count,
    )
    &&& m.carried_page_counts == (AtlasTextureSet {
        opaque: opaque.carried_page_count,
        alpha: alpha.carried_page_count,
    })
    &&& m.built_page_counts == (AtlasTextureSet {
        opaque: opaque.built_page_count,
        alpha: alpha.built_page_count,
    })
    &&& m.family_metrics == (AtlasTextureSet { opaque: opaque.metrics, alpha: alpha.metrics })
    &&& m.zero_page_write_reconciliation_count == (if quietly_reconciled(opaque) {
        1int
    } else {
        0
    }) + (if quietly_reconciled(alpha) {
        1int
    } else {
        0
    })
    &&& m.dirty_page_count == counted(opaque.built_page_count, alpha.built_page_count)
    &&& m.publication_bytes_estimate == capped(
        published_bytes(opaque_work, opaque_work.len() as int) + published_bytes(
            alpha_work,
            alpha_work.len() as int,
        ),
    )
    &&& m.planning_peak_bytes == prepared
    &&& m.publication_peak_bytes == capped(prepared + capped(canvas * 4))
}

/// The plan puts two planned families together.
pub open spec fn combines(
    manager: AtlasManager,
    shared: AtlasSharedConfig,
    opaque: PlannedFamily,
    alpha: PlannedFamily,
    plan: AtlasPublishPlan,
) -> bool {
    &&& plan.opaque == opaque.publish
    &&& plan.alpha == alpha.publish
    &&& plan.texture_dir@ == manager.texture_dir@
    &&& plan.cache_hit == (carried_over(opaque) && carried_over(alpha))
    &&& digests_bindings(opaque.bindings@, alpha.bindings@, plan.binding_digest@)
    &&& plan.binding_deltas.opaque == opaque.binding_delta
    &&& plan.binding_deltas.alpha == alpha.binding_delta
    &&& measures(opaque, alpha, plan.metrics)
    &&& plan.cache.version == ATLAS_CACHE_VERSION
    &&& plan.cache.shared_config == shared
    &&& plan.cache.opaque == opaque.cache
    &&& plan.cache.alpha == alpha.cache
}

fn add_counts(a: usize, b: usize) -> (r: usize)
    ensures
        r == counted(a, b),
{
    a.saturating_add(b)
}

fn prepared_bytes(publish: &Option<AtlasDomainPublishPlan>) -> (r: u64)
    ensures
        r == source_bytes(*publish),
{
    match publish {
        Some(plan) => plan.prepared_source_bytes,
        None => 0,
    }
}

fn is_quiet(planned: &PlannedFamily) -> (r: bool)
    ensures
        r == quietly_reconciled(*planned),
{
    planned.plan_mode == AtlasFamilyPlanMode::Reconciled && planned.built_page_count == 0
}

/// The metrics of two planned families.
pub fn plan_metrics(opaque: &PlannedFamily, alpha: &PlannedFamily) -> (r: AtlasPlanMetrics)
    ensures
        measures(*opaque, *alpha, r),
{
    let prepared: u64 = prepared_bytes(&opaque.publish).saturating_add(
        prepared_bytes(&alpha.publish),
    );
    let opaque_canvas: u64 = largest_built(&opaque.publish);
    let alpha_canvas: u64 = largest_built(&alpha.publish);
    let canvas: u64 = if opaque_canvas >= alpha_canvas {
        opaque_canvas
    } else {
        alpha_canvas
    };
    let canvases: u64 = if canvas > u64::MAX / 4 {
        u64::MAX
    } else {
        canvas * 4
    };
    proof {
        crate::atlas::publish::lemma_published_grows(
            work_of(opaque.publish),
            work_of(opaque.publish).len() as int,
        );
        crate::atlas::publish::lemma_published_grows(
            work_of(alpha.publish),
            work_of(alpha.publish).len() as int,
        );
    }
    let estimate: u64 = add_published(add_published(0, &opaque.publish), &alpha.publish);
    let quiet: usize = (if is_quiet(opaque) {
        1usize
    } else {
        0usize
    }) + (if is_quiet(alpha) {
        1usize
    } else {
        0usize
    });
    AtlasPlanMetrics {
        page_counts: AtlasTextureSet::new(
            (opaque.cache.pages.len() as u64 % 0x1_0000_0000) as u32,
            (alpha.cache.pages.len() as u64 % 0x1_0000_0000) as u32,
        ),
        layout_hits: AtlasTextureSet::new(opaque.layout_hit, alpha.layout_hit),
        decoded_texture_count: add_counts(
            opaque.decoded_texture_count,
            alpha.decoded_texture_count,
        ),
        carried_page_counts: AtlasTextureSet::new(
            opaque.carried_page_count,
            alpha.carried_page_count,
        ),
        built_page_counts: AtlasTextureSet::new(opaque.built_page_count, alpha.built_page_count),
        family_metrics: AtlasTextureSet::new(opaque.metrics, alpha.metrics),
        zero_page_write_reconciliation_count: quiet,
        dirty_page_count: add_counts(opaque.built_page_count, alpha.built_page_count),
        publication_bytes_estimate: estimate,
        planning_peak_bytes: prepared,
        publication_peak_bytes: prepared.saturating_add(canvases),
    }
}

/// The evidence that is taken over from a cache.
pub open spec fn takes_over<F: Fn(u32, u32) -> u32>(
    ratio: F,
    shared: AtlasSharedConfig,
    cache: Option<AtlasCache>,
    committed: Seq<String>,
    prior: AtlasTextureSet<Option<CachedAtlasFamily>>,
) -> bool {
    match cache {
        Some(cache) => if cache_comparable(cache, shared, committed) {
            &&& accepts_family(
                ratio,
                AtlasDomain::Opaque,
                cache.opaque,
                shared,
                paths_of_domain(committed, AtlasDomain::Opaque),
                prior.opaque,
            )
            &&& accepts_family(
                ratio,
                AtlasDomain::Alpha,
                cache.alpha,
                shared,
                paths_of_domain(committed, AtlasDomain::Alpha),
                prior.alpha,
            )
        } else {
            prior.opaque is None && prior.alpha is None
        },
        None => prior.opaque is None && prior.alpha is None,
    }
}

/// Evidence that holds up can be reconciled.
pub proof fn lemma_valid_usable<F: Fn(u32, u32) -> u32>(
    ratio: F,
    family: CachedAtlasFamily,
    shared: AtlasSharedConfig,
)
    requires
        family_valid(ratio, family, shared),
    ensures
        slots_on_pages(family),
{
    assert forall|s: int| 0 <= s < family.slots@.len() implies (
    #[trigger] family.slots@[s]).page_id < family.pages@.len() by {
        assert(crate::atlas::cache::slot_valid(family.slots@[s], family.pages@, shared));
    }
}

/// The request is one of the manager's settings.
pub open spec fn is_request_of(
    manager: AtlasManager,
    domain: AtlasDomain,
    request: FamilyRequest,
) -> bool {
    &&& request.wf()
    &&& request.domain == domain
    &&& request.family_config.sizing_overrides@ == manager.plan.overrides_of(domain).listed()
    &&& request.dedupe_mode == manager.dedupe_mode
    &&& request.fingerprints@ == of_domain(manager.fingerprints, domain)@
}

/// The sources to decode, with the longest side of each: none where prior evidence is carried.
pub open spec fn requests_of(manager: AtlasManager, request: FamilyRequest) -> Seq<
    (Seq<char>, u32),
> {
    if carried_whole(request, of_domain(manager.prior, request.domain)) {
        Seq::empty()
    } else {
        request.sources().map_values(
            |key: String| (key@, manager.plan.dim_of(key@, request.domain)),
        )
    }
}

/// Decode requests as mathematical values.
pub open spec fn request_views(requests: Seq<DecodeRequest>) -> Seq<(Seq<char>, u32)> {
    requests.map_values(|request: DecodeRequest| (request.key@, request.longest))
}

impl AtlasManager {
    /// The sizing plan is well formed and prior evidence can be reconciled.
    pub open spec fn wf(&self) -> bool {
        &&& self.plan.wf()
        &&& prior_usable(self.prior.opaque)
        &&& prior_usable(self.prior.alpha)
    }

    /// The shared configuration of the manager's settings.
    pub open spec fn spec_shared(&self) -> AtlasSharedConfig {
        shared_config_of(self.plan, self.dedupe_mode, self.atlas_max_size, self.recipe_version)
    }

    /// A manager without prior evidence. Sources keep their resolution as far as a page holds them.
    pub fn setup_without_cache(
        fingerprints: AtlasTextureSet<Vec<(u64, [u8; 32])>>,
        dedupe_mode: TextureDedupeMode,
        recipe_version: u32,
        texture_dir: String,
    ) -> (r: Self)
        ensures
            r.wf(),
            r.prior.opaque is None,
            r.prior.alpha is None,
            r.fingerprints == fingerprints,
            ({
                let usable = minus(
                    DEFAULT_STATIC_ATLAS_MAX_SIZE as int,
                    2 * ATLAS_BORDER_PADDING + ATLAS_TEXTURE_PADDING + 2 * ATLAS_TEXTURE_EXTRUSION,
                ) as u32;
                r.plan.caps == (TextureAxisCaps { long: usable, short: usable })
            }),
            r.plan.baselines@ == Map::<Seq<char>, u32>::empty(),
            r.plan.opaque_overrides@ == Map::<Seq<char>, u32>::empty(),
            r.plan.alpha_overrides@ == Map::<Seq<char>, u32>::empty(),
            r.dedupe_mode == dedupe_mode,
            r.atlas_max_size == DEFAULT_STATIC_ATLAS_MAX_SIZE,
            r.recipe_version == recipe_version,
            r.texture_dir == texture_dir,
    {
        AtlasManager {
            prior: AtlasTextureSet::new(None, None),
            fingerprints,
            plan: SizingPlan::uniform(usable_texture_dim(DEFAULT_STATIC_ATLAS_MAX_SIZE)),
            dedupe_mode,
            atlas_max_size: DEFAULT_STATIC_ATLAS_MAX_SIZE,
            recipe_version,
            texture_dir,
        }
    }

    /// A manager with the evidence of a cache, as far as it holds up. A cache that could not be
    /// decoded is none.
    pub fn setup_with_cache_state<F: Fn(u32, u32) -> u32>(
        ratio: &F,
        plan: SizingPlan,
        dedupe_mode: TextureDedupeMode,
        atlas_max_size: u32,
        recipe_version: u32,
        fingerprints: AtlasTextureSet<Vec<(u64, [u8; 32])>>,
        texture_dir: String,
        cache: Option<AtlasCache>,
        committed_atlas_paths: &[String],
    ) -> (r: Self)
        requires
            forall|a: u32, b: u32| #[trigger] call_requires(*ratio, (a, b)),
            plan.wf(),
        ensures
            r.wf(),
            takes_over(*ratio, r.spec_shared(), cache, committed_atlas_paths@, r.prior),
            r.fingerprints == fingerprints,
            r.plan == plan,
            r.dedupe_mode == dedupe_mode,
            r.atlas_max_size == atlas_max_size,
            r.recipe_version == recipe_version,
            r.texture_dir == texture_dir,
    {
        let ghost shared = shared_config_of(plan, dedupe_mode, atlas_max_size, recipe_version);
        let prior = match cache {
            Some(cache) => validate_cache(
                ratio,
                &plan,
                dedupe_mode,
                atlas_max_size,
                recipe_version,
                committed_atlas_paths,
                cache,
            ),
            None => AtlasTextureSet::new(None, None),
        };
        proof {
            if prior.opaque is Some {
                lemma_valid_usable(*ratio, prior.opaque->0, shared);
            }
            if prior.alpha is Some {
                lemma_valid_usable(*ratio, prior.alpha->0, shared);
            }
        }
        AtlasManager {
            prior,
            fingerprints,
            plan,
            dedupe_mode,
            atlas_max_size,
            recipe_version,
            texture_dir,
        }
    }

    /// Forgets the prior evidence of both families.
    pub fn clear_prior(&mut self)
        requires
            old(self).wf(),
        ensures
            final(self).wf(),
            final(self).prior.opaque is None,
            final(self).prior.alpha is None,
            final(self).fingerprints == old(self).fingerprints,
            final(self).plan == old(self).plan,
            final(self).dedupe_mode == old(self).dedupe_mode,
            final(self).atlas_max_size == old(self).atlas_max_size,
            final(self).recipe_version == old(self).recipe_version,
            final(self).texture_dir == old(self).texture_dir,
    {
        self.prior.opaque = None;
        self.prior.alpha = None;
    }

    /// The shared configuration of the manager's settings.
    pub fn shared_config(&self) -> (r: AtlasSharedConfig)
        ensures
            r == self.spec_shared(),
    {
        AtlasSharedConfig::current(
            &self.plan,
            self.dedupe_mode,
            self.atlas_max_size,
            self.recipe_version,
        )
    }

    fn fingerprints_of(&self, domain: AtlasDomain) -> (r: &Vec<(u64, [u8; 32])>)
        ensures
            *r == of_domain(self.fingerprints, domain),
    {
        match domain {
            AtlasDomain::Opaque => &self.fingerprints.opaque,
            AtlasDomain::Alpha => &self.fingerprints.alpha,
        }
    }

    fn prior_of(&self, domain: AtlasDomain) -> (r: Option<&CachedAtlasFamily>)
        ensures
            owned(r) == of_domain(self.prior, domain),
    {
        let prior = match domain {
            AtlasDomain::Opaque => &self.prior.opaque,
            AtlasDomain::Alpha => &self.prior.alpha,
        };
        match prior {
            Some(family) => Some(family),
            None => None,
        }
    }

    /// The configuration of a family by the manager's settings.
    pub fn family_config(&self, domain: AtlasDomain) -> (r: AtlasFamilyConfig)
        ensures
            r.sizing_overrides@ == self.plan.overrides_of(domain).listed(),
    {
        AtlasFamilyConfig::current(&self.plan, domain)
    }

    /// What a family is planned from. `shared_bytes` and `family_bytes` are its serialized
    /// configurations.
    pub fn family_request(
        &self,
        domain: AtlasDomain,
        keys: Vec<String>,
        shared_bytes: Vec<u8>,
        family_bytes: Vec<u8>,
    ) -> (r: FamilyRequest)
        requires
            ascending(texts(keys@)),
            keys@.len() == of_domain(self.fingerprints, domain)@.len(),
        ensures
            is_request_of(*self, domain, r),
            r.keys == keys,
            r.shared_bytes == shared_bytes,
            r.family_bytes == family_bytes,
    {
        FamilyRequest {
            domain,
            family_config: self.family_config(domain),
            dedupe_mode: self.dedupe_mode,
            keys,
            fingerprints: copied(self.fingerprints_of(domain).as_slice()),
            shared_bytes,
            family_bytes,
        }
    }

    /// The sources of a family to decode for planning: none where the prior evidence is carried,
    /// else one for each distinct source.
    pub fn decode_requests(&self, request: &FamilyRequest) -> (r: Vec<DecodeRequest>)
        requires
            self.wf(),
            request.wf(),
        ensures
            request_views(r@) == requests_of(*self, *request),
    {
        let mut requests: Vec<DecodeRequest> = Vec::new();
        if let Some(prior) = self.prior_of(request.domain) {
            if carries_exactly(
                prior,
                &request.family_config,
                request.keys.as_slice(),
                request.fingerprints.as_slice(),
            ) {
                assert(request_views(requests@) =~= Seq::empty());
                return requests;
            }
        }
        proof {
            lemma_ascending_distinct(request.keys@);
        }
        let (sources, _aliases) = alias_sources(
            request.keys.as_slice(),
            request.fingerprints.as_slice(),
            request.dedupe_mode,
        );
        let ghost all = requests_of(*self, *request);
        let mut i: usize = 0;
        assert(request_views(requests@) =~= all.take(0));
        while i < sources.len()
            invariant
                i <= sources@.len(),
                self.plan.wf(),
                all == sources@.map_values(
                    |key: String| (key@, self.plan.dim_of(key@, request.domain)),
                ),
                request_views(requests@) == all.take(i as int),
            decreases sources@.len() - i,
        {
            let ghost before = requests@;
            let longest: u32 = self.plan.dim_for(sources[i].as_str(), request.domain);
            let wanted = DecodeRequest { key: sources[i].clone(), longest };
            let ghost view = (wanted.key@, wanted.longest);
            requests.push(wanted);
            assert(request_views(requests@) =~= request_views(before).push(view));
            assert(all.take(i + 1) =~= all.take(i as int).push(all[i as int]));
            i = i + 1;
        }
        assert(all.take(i as int) =~= all);
        requests
    }

    /// Plans both families, binds the subsets of the statics to their places, and puts the
    /// publication work and the new evidence together.
    ///
    /// # Errors
    ///
    /// Fails where a family cannot be planned, and where a subset's texture has no place. The
    /// statics are untouched in the first case.
    pub fn plan<F: Fn(u32, u32) -> u32>(
        &self,
        ratio: &F,
        inputs: PlanInputs,
        names: &TextureNames,
        distant_statics: &mut DistantStatics,
    ) -> (r: Result<AtlasPublishPlan, AtlasPlanError>)
        requires
            forall|a: u32, b: u32| #[trigger] call_requires(*ratio, (a, b)),
            self.wf(),
            self.atlas_max_size <= 0x8000_0000,
            is_request_of(*self, AtlasDomain::Opaque, inputs.requests.opaque),
            is_request_of(*self, AtlasDomain::Alpha, inputs.requests.alpha),
            answers(inputs.requests.opaque, inputs.decoded.opaque@),
            answers(inputs.requests.alpha, inputs.decoded.alpha@),
            countable(self.prior.opaque, inputs.requests.opaque),
            countable(self.prior.alpha, inputs.requests.alpha),
        ensures
            match r {
                Ok(plan) => exists|opaque: PlannedFamily, alpha: PlannedFamily|
                    {
                        &&& #[trigger] plans(*ratio, *self, inputs, AtlasDomain::Opaque, opaque)
                        &&& #[trigger] plans(*ratio, *self, inputs, AtlasDomain::Alpha, alpha)
                        &&& combines(*self, self.spec_shared(), opaque, alpha, plan)
                        &&& statics_bound(
                            old(distant_statics)@,
                            final(distant_statics)@,
                            opaque,
                            alpha,
                            *names,
                        )
                    },
                Err(AtlasPlanError::Family { domain, error }) => {
                    &&& *final(distant_statics) == *old(distant_statics)
                    &&& planning_fails(
                        *ratio,
                        of_domain(inputs.requests, domain),
                        of_domain(self.prior, domain),
                        self.spec_shared(),
                        of_domain(inputs.decoded, domain)@,
                        error,
                    )
                    &&& domain == AtlasDomain::Alpha ==> exists|opaque: PlannedFamily| #[trigger]
                        plans(*ratio, *self, inputs, AtlasDomain::Opaque, opaque)
                },
                Err(AtlasPlanError::Uv(error)) => exists|
                    opaque: PlannedFamily,
                    alpha: PlannedFamily,
                |
                    {
                        &&& #[trigger] plans(*ratio, *self, inputs, AtlasDomain::Opaque, opaque)
                        &&& #[trigger] plans(*ratio, *self, inputs, AtlasDomain::Alpha, alpha)
                        &&& exists|i: int| #[trigger]
                            statics_fail_at(
                                old(distant_statics)@,
                                final(distant_statics)@,
                                opaque.bindings@,
                                alpha.bindings@,
                                *names,
                                error,
                                i,
                            )
                    },
            },
    {
        let shared = self.shared_config();
        let PlanInputs { requests, decoded } = inputs;
        let opaque = match plan_domain(
            ratio,
            &requests.opaque,
            self.prior_of(AtlasDomain::Opaque),
            &shared,
            decoded.opaque,
        ) {
            Ok(planned) => planned,
            Err(error) => {
                return Err(AtlasPlanError::Family { domain: AtlasDomain::Opaque, error });
            },
        };
        assert(plans(*ratio, *self, inputs, AtlasDomain::Opaque, opaque));
        let alpha = match plan_domain(
            ratio,
            &requests.alpha,
            self.prior_of(AtlasDomain::Alpha),
            &shared,
            decoded.alpha,
        ) {
            Ok(planned) => planned,
            Err(error) => {
                return Err(AtlasPlanError::Family { domain: AtlasDomain::Alpha, error });
            },
        };
        assert(plans(*ratio, *self, inputs, AtlasDomain::Alpha, alpha));
        proof {
            lemma_planned_bindings(*ratio, *self, inputs, AtlasDomain::Opaque, opaque);
            lemma_planned_bindings(*ratio, *self, inputs, AtlasDomain::Alpha, alpha);
        }
        let binding_digest = atlas_binding_digest(&opaque.bindings, &alpha.bindings);
        if let Err(error) = update_uv_bounds_from_maps(
            distant_statics,
            &opaque.bindings,
            &alpha.bindings,
            names,
        ) {
            return Err(AtlasPlanError::Uv(error));
        }
        let metrics = plan_metrics(&opaque, &alpha);
        let cache_hit: bool = opaque.plan_mode == AtlasFamilyPlanMode::ExactCarry
            && alpha.plan_mode == AtlasFamilyPlanMode::ExactCarry && opaque.built_page_count == 0
            && alpha.built_page_count == 0;
        let plan = AtlasPublishPlan {
            opaque: opaque.publish,
            alpha: alpha.publish,
            texture_dir: self.texture_dir.clone(),
            cache_hit,
            binding_digest,
            binding_deltas: AtlasTextureSet::new(opaque.binding_delta, alpha.binding_delta),
            metrics,
            cache: AtlasCache {
                version: ATLAS_CACHE_VERSION,
                shared_config: shared,
                opaque: opaque.cache,
                alpha: alpha.cache,
            },
        };
        assert(combines(*self, self.spec_shared(), opaque, alpha, plan));
        Ok(plan)
    }
}

/// Keys, slots and pages are few enough to be counted together.
pub open spec fn countable(prior: Option<CachedAtlasFamily>, request: FamilyRequest) -> bool {
    prior matches Some(family) ==> {
        &&& request.keys@.len() + family.slots@.len() + 2 <= usize::MAX
        &&& request.keys@.len() + family.pages@.len() <= usize::MAX
    }
}

/// The family of a domain is planned so.
pub open spec fn plans<F: Fn(u32, u32) -> u32>(
    ratio: F,
    manager: AtlasManager,
    inputs: PlanInputs,
    domain: AtlasDomain,
    planned: PlannedFamily,
) -> bool {
    plans_family(
        ratio,
        of_domain(inputs.requests, domain),
        of_domain(manager.prior, domain),
        manager.spec_shared(),
        of_domain(inputs.decoded, domain)@,
        planned,
    )
}

/// Every static is bound to its places.
pub open spec fn statics_bound(
    before: Seq<(String, crate::model::DistantStatic)>,
    after: Seq<(String, crate::model::DistantStatic)>,
    opaque: PlannedFamily,
    alpha: PlannedFamily,
    names: TextureNames,
) -> bool {
    &&& after.len() == before.len()
    &&& forall|i: int| 0 <= i < before.len() ==> (#[trigger] after[i]).0 == before[i].0
    &&& forall|i: int|
        0 <= i < before.len() ==> static_bound(
            (#[trigger] before[i]).1,
            after[i].1,
            opaque.bindings@,
            alpha.bindings@,
            names,
        )
}

proof fn lemma_planned_bindings<F: Fn(u32, u32) -> u32>(
    ratio: F,
    manager: AtlasManager,
    inputs: PlanInputs,
    domain: AtlasDomain,
    planned: PlannedFamily,
)
    requires
        plans(ratio, manager, inputs, domain, planned),
    ensures
        planned.bindings.wf(),
{
}

/// Where both families are carried, nothing is composed or published, nothing was decoded, and the
/// evidence stays what it was.
pub proof fn lemma_carry_changes_nothing<F: Fn(u32, u32) -> u32>(
    ratio: F,
    manager: AtlasManager,
    inputs: PlanInputs,
    opaque: PlannedFamily,
    alpha: PlannedFamily,
    plan: AtlasPublishPlan,
)
    requires
        plans(ratio, manager, inputs, AtlasDomain::Opaque, opaque),
        plans(ratio, manager, inputs, AtlasDomain::Alpha, alpha),
        combines(manager, manager.spec_shared(), opaque, alpha, plan),
        carried_whole(inputs.requests.opaque, manager.prior.opaque),
        carried_whole(inputs.requests.alpha, manager.prior.alpha),
    ensures
        plan.cache_hit,
        plan.metrics.dirty_page_count == 0,
        plan.metrics.decoded_texture_count == 0,
        plan.metrics.publication_bytes_estimate == 0,
        plan.metrics.planning_peak_bytes == 0,
        plan.metrics.publication_peak_bytes == 0,
        same_family(plan.cache.opaque, manager.prior.opaque->0),
        same_family(plan.cache.alpha, manager.prior.alpha->0),
{
    assert(is_carried(
        opaque,
        inputs.requests.opaque.domain,
        manager.prior.opaque->0,
        manager.spec_shared(),
    ));
    assert(is_carried(
        alpha,
        inputs.requests.alpha.domain,
        manager.prior.alpha->0,
        manager.spec_shared(),
    ));
    assert(work_of(opaque.publish) =~= carried_work(manager.prior.opaque->0.pages@.len()));
    assert(work_of(alpha.publish) =~= carried_work(manager.prior.alpha->0.pages@.len()));
    lemma_carried_weightless(opaque.publish, manager.prior.opaque->0.pages@.len());
    lemma_carried_weightless(alpha.publish, manager.prior.alpha->0.pages@.len());
}

proof fn lemma_carried_weightless(publish: Option<AtlasDomainPublishPlan>, count: nat)
    requires
        work_of(publish) == carried_work(count),
    ensures
        largest_canvas(work_of(publish), work_of(publish).len() as int) == 0,
        published_bytes(work_of(publish), work_of(publish).len() as int) == 0,
{
    lemma_carried_prefix(count, count as int);
}

proof fn lemma_carried_prefix(count: nat, end: int)
    requires
        0 <= end <= count,
    ensures
        largest_canvas(carried_work(count), end) == 0,
        published_bytes(carried_work(count), end) == 0,
    decreases end,
{
    if end > 0 {
        lemma_carried_prefix(count, end - 1);
    }
}

} // verus!
