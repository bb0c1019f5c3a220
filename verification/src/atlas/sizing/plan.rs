//! Turns per-texture density aggregates into a plan.

use crate::atlas::sizing::usage::{TextureUsageAggregate, INFINITE_DENSITY};
use crate::atlas::sizing::{
    baseline_dims_for, baseline_of, baselines_of, is_limiter, least, longer, longer_side, most,
    reduces_in, AtlasDomain, SizingPlan, SourceTextureInfo, StaticTextureSizingSettings,
    TextureAxisCaps,
};
use crate::atlas::types::AtlasTextureSet;
use crate::ordered_map::OrderedTextMap;
use crate::text_map::TextMap;
use vstd::arithmetic::power2::pow2;
use vstd::prelude::*;

verus! {

/// Counters of the sizing decisions.
#[derive(Clone, Copy, Debug, PartialEq, Eq, Structural)]
pub struct StaticTextureSizingMetrics {
    /// Pairs whose proposed selected dimension is below baseline, in every mode.
    ///
    /// This counts reductions that the selected mode leaves unapplied too, distinguishing measured
    /// work from no proposal.
    pub reduced_texture_count: u64,
}

impl Default for StaticTextureSizingMetrics {
    fn default() -> (r: Self)
        ensures
            r.reduced_texture_count == 0,
    {
        StaticTextureSizingMetrics { reduced_texture_count: 0 }
    }
}

/// `gauge` can be called on everything and gives one answer for one question.
///
/// `gauge(protected, density)` is the number of whole mips by which a texture used at `density` can
/// be reduced and still keep the `protected` density, zero where it cannot be reduced. Both
/// densities are IEEE single-precision bit patterns.
pub open spec fn is_gauge<G: Fn(u32, u32) -> u32>(gauge: G) -> bool {
    &&& forall|protected: u32, density: u32| #[trigger] call_requires(gauge, (protected, density))
    &&& forall|protected: u32, density: u32, a: u32, b: u32| #[trigger]
        call_ensures(gauge, (protected, density), a) && #[trigger] call_ensures(
            gauge,
            (protected, density),
            b,
        ) ==> a == b
}

/// The answer of `gauge`.
pub open spec fn spare_mips<G: Fn(u32, u32) -> u32>(gauge: G, protected: u32, density: u32) -> u32 {
    choose|mips: u32| call_ensures(gauge, (protected, density), mips)
}

/// The longest dimension that the reduction policy selects.
///
/// The baseline is reduced by the spare mips, at most `max_mip_reduction` of them, but not below
/// `min_texture_size`; a source already below that never grows.
pub open spec fn selected_longest(
    baseline_longest: u32,
    spare: u32,
    settings: StaticTextureSizingSettings,
) -> int {
    let reduction = least(spare as int, settings.max_mip_reduction as int) as nat;
    let floor = least(settings.min_texture_size as int, baseline_longest as int);
    least(most(baseline_longest as int / pow2(reduction) as int, floor), baseline_longest as int)
}

/// The dimension of a mip: halving 32 times or more leaves nothing.
fn shifted_down(dim: u32, mips: u32) -> (r: u32)
    ensures
        r == dim as int / pow2(mips as nat) as int,
{
    if mips >= 32 {
        proof {
            vstd::arithmetic::power2::lemma2_to64();
            if mips > 32 {
                vstd::arithmetic::power2::lemma_pow2_strictly_increases(32, mips as nat);
            }
            vstd::arithmetic::div_mod::lemma_basic_div(dim as int, pow2(mips as nat) as int);
        }
        0
    } else {
        proof {
            vstd::bits::lemma_u32_shr_is_div(dim, mips);
        }
        dim >> mips
    }
}

/// Applies the reduction policy to select a longest dimension.
pub fn select_longest(
    baseline_longest: u32,
    spare: u32,
    settings: &StaticTextureSizingSettings,
) -> (r: u32)
    ensures
        r == selected_longest(baseline_longest, spare, *settings),
{
    let limit: u32 = settings.max_mip_reduction as u32;
    let reduction: u32 = if spare <= limit {
        spare
    } else {
        limit
    };
    let floor: u32 = if settings.min_texture_size <= baseline_longest {
        settings.min_texture_size
    } else {
        baseline_longest
    };
    let reduced: u32 = shifted_down(baseline_longest, reduction);
    let raised: u32 = if reduced >= floor {
        reduced
    } else {
        floor
    };
    if raised <= baseline_longest {
        raised
    } else {
        baseline_longest
    }
}

/// A selected dimension lies between the floor and the baseline.
pub proof fn lemma_selected_bounds(
    baseline_longest: u32,
    spare: u32,
    settings: StaticTextureSizingSettings,
)
    ensures
        selected_longest(baseline_longest, spare, settings) <= baseline_longest,
        selected_longest(baseline_longest, spare, settings) >= least(
            settings.min_texture_size as int,
            baseline_longest as int,
        ),
        spare == 0 ==> selected_longest(baseline_longest, spare, settings) == baseline_longest,
{
    if spare == 0 {
        vstd::arithmetic::power2::lemma2_to64();
    }
}

/// The measurements of a texture can be relied on: its dimensions are known, something was
/// measured, and at most a quarter of the triangles were uncertain.
pub open spec fn trusts(usage: TextureUsageAggregate) -> bool {
    &&& !usage.needs_baseline
    &&& usage.valid_count > 0
    &&& 4 * usage.uncertain_count <= usage.valid_count + usage.uncertain_count
    &&& usage.area_density_min < INFINITE_DENSITY
}

/// The dimension below baseline that is proposed for a texture, if any.
pub open spec fn proposal<L: Fn(u32, u32, u32) -> (u32, u32), G: Fn(u32, u32) -> u32>(
    limit: L,
    gauge: G,
    info: Option<SourceTextureInfo>,
    usage: TextureUsageAggregate,
    settings: StaticTextureSizingSettings,
    caps: TextureAxisCaps,
) -> Option<u32> {
    let dims = match info {
        Some(info) => baseline_of(limit, info, caps),
        None => None,
    };
    if dims is None || !trusts(usage) {
        None
    } else {
        let baseline = longer(dims->0);
        let selected = selected_longest(
            baseline,
            spare_mips(gauge, settings.protected_density, usage.area_density_min),
            settings,
        );
        if selected < baseline {
            Some(selected as u32)
        } else {
            None
        }
    }
}

/// Triangle counts that double precision represents exactly.
pub open spec fn is_counted(usage: TextureUsageAggregate) -> bool {
    usage.valid_count + usage.uncertain_count <= 0x20_0000_0000_0000
}

/// The dimension below baseline that is proposed for a texture, if any.
///
/// Uncertain measurements leave the texture at its baseline.
pub fn propose<L: Fn(u32, u32, u32) -> (u32, u32), G: Fn(u32, u32) -> u32>(
    limit: &L,
    gauge: &G,
    info: Option<&SourceTextureInfo>,
    usage: &TextureUsageAggregate,
    settings: &StaticTextureSizingSettings,
    caps: TextureAxisCaps,
) -> (r: Option<u32>)
    requires
        is_limiter(*limit),
        is_gauge(*gauge),
        usage.wf(),
        is_counted(*usage),
    ensures
        r == proposal(
            *limit,
            *gauge,
            match info {
                Some(info) => Some(*info),
                None => None,
            },
            *usage,
            *settings,
            caps,
        ),
{
    let dims: (u32, u32) = match info {
        Some(info) => match baseline_dims_for(limit, info, caps) {
            Some(dims) => dims,
            None => return None,
        },
        None => return None,
    };
    let measured: u64 = usage.valid_count + usage.uncertain_count;
    if usage.needs_baseline || usage.valid_count == 0 || 4 * usage.uncertain_count > measured
        || usage.area_density_min >= INFINITE_DENSITY {
        return None;
    }
    let baseline: u32 = longer_side(dims);
    let spare: u32 = gauge(settings.protected_density, usage.area_density_min);
    assert(call_ensures(*gauge, (settings.protected_density, usage.area_density_min), spare));
    let selected: u32 = select_longest(baseline, spare, settings);
    if selected < baseline {
        Some(selected)
    } else {
        None
    }
}

/// What is proposed for a key.
pub open spec fn proposed_for<L: Fn(u32, u32, u32) -> (u32, u32), G: Fn(u32, u32) -> u32>(
    limit: L,
    gauge: G,
    source_info: Map<Seq<char>, SourceTextureInfo>,
    usage: Map<Seq<char>, TextureUsageAggregate>,
    settings: StaticTextureSizingSettings,
    caps: TextureAxisCaps,
    key: Seq<char>,
) -> Option<u32> {
    proposal(
        limit,
        gauge,
        if source_info.dom().contains(key) {
            Some(source_info[key])
        } else {
            None
        },
        usage[key],
        settings,
        caps,
    )
}

/// All proposals of a domain.
pub open spec fn proposals<L: Fn(u32, u32, u32) -> (u32, u32), G: Fn(u32, u32) -> u32>(
    limit: L,
    gauge: G,
    source_info: Map<Seq<char>, SourceTextureInfo>,
    usage: Map<Seq<char>, TextureUsageAggregate>,
    settings: StaticTextureSizingSettings,
    caps: TextureAxisCaps,
) -> Map<Seq<char>, u32> {
    Map::new(
        |key: Seq<char>|
            usage.dom().contains(key) && proposed_for(
                limit,
                gauge,
                source_info,
                usage,
                settings,
                caps,
                key,
            ) is Some,
        |key: Seq<char>|
            proposed_for(limit, gauge, source_info, usage, settings, caps, key)->0,
    )
}

/// The usage can be evaluated.
pub open spec fn usage_ready(usage: TextMap<TextureUsageAggregate>) -> bool {
    &&& usage.wf()
    &&& forall|i: int|
        0 <= i < usage.listed().len() ==> (#[trigger] usage.listed()[i]).1.wf() && is_counted(
            usage.listed()[i].1,
        )
}

/// Evaluates all textures of a domain.
fn propose_domain<L: Fn(u32, u32, u32) -> (u32, u32), G: Fn(u32, u32) -> u32>(
    limit: &L,
    gauge: &G,
    source_info: &TextMap<SourceTextureInfo>,
    usage: &TextMap<TextureUsageAggregate>,
    settings: &StaticTextureSizingSettings,
    caps: TextureAxisCaps,
) -> (r: (OrderedTextMap<u32>, usize))
    requires
        is_limiter(*limit),
        is_gauge(*gauge),
        source_info.wf(),
        usage_ready(*usage),
    ensures
        r.0.wf(),
        r.0@ == proposals(*limit, *gauge, source_info@, usage@, *settings, caps),
        r.0@.dom().finite(),
        r.1 == r.0@.dom().len(),
        r.1 <= usage.listed().len(),
{
    let mut selected: OrderedTextMap<u32> = OrderedTextMap::new();
    let mut count: usize = 0;
    let mut i: usize = 0;
    let ghost expected = proposals(*limit, *gauge, source_info@, usage@, *settings, caps);
    while i < usage.len()
        invariant
            is_limiter(*limit),
            is_gauge(*gauge),
            source_info.wf(),
            usage_ready(*usage),
                expected == proposals(*limit, *gauge, source_info@, usage@, *settings, caps),
            i <= usage.listed().len(),
            selected.wf(),
            count <= i,
            selected@.dom().finite(),
            count == selected@.dom().len(),
            forall|key: Seq<char>| #[trigger]
                selected@.dom().contains(key) ==> expected.dom().contains(key) && selected@[key]
                    == expected[key] && exists|k: int|
                    0 <= k < i && (#[trigger] usage.listed()[k]).0@ == key,
            forall|k: int|
                0 <= k < i && expected.dom().contains((#[trigger] usage.listed()[k]).0@)
                    ==> selected@.dom().contains(usage.listed()[k].0@),
        decreases usage.listed().len() - i,
    {
        proof {
            usage.lemma_listed();
        }
        let key = usage.key_at(i);
        let ghost before = selected@;
        let ghost listed = usage.listed();
        assert(usage@.dom().contains(listed[i as int].0@));
        assert(usage@[listed[i as int].0@] == listed[i as int].1);
        let proposed = propose(
            limit,
            gauge,
            source_info.get(key.as_str()),
            usage.value_at(i),
            settings,
            caps,
        );
        assert(proposed == proposed_for(
            *limit,
            *gauge,
            source_info@,
            usage@,
            *settings,
            caps,
            key@,
        ));
        assert(!before.dom().contains(key@)) by {
            if before.dom().contains(key@) {
                let k = choose|k: int| 0 <= k < i && (#[trigger] usage.listed()[k]).0@ == key@;
                assert(listed[k].0@ != listed[i as int].0@);
            }
        }
        match proposed {
            Some(dim) => {
                selected.insert(key.clone(), dim);
                count = count + 1;
                proof {
                    assert(selected@.dom() =~= before.dom().insert(key@));
                }
            },
            None => {},
        }
        proof {
            assert forall|k: int| 0 <= k < i + 1 && expected.dom().contains(
                (#[trigger] usage.listed()[k]).0@,
            ) implies selected@.dom().contains(usage.listed()[k].0@) by {}
            assert forall|other: Seq<char>| #[trigger] selected@.dom().contains(other) implies expected.dom().contains(
                other,
            ) && selected@[other] == expected[other] && exists|k: int|
                0 <= k < i + 1 && (#[trigger] usage.listed()[k]).0@ == other by {
                if before.dom().contains(other) {
                    let k = choose|k: int| 0 <= k < i && (#[trigger] usage.listed()[k]).0@ == other;
                    assert(usage.listed()[k].0@ == other);
                } else {
                    assert(usage.listed()[i as int].0@ == other);
                }
            }
        }
        i = i + 1;
    }
    proof {
        usage.lemma_listed();
        assert forall|key: Seq<char>| #[trigger] expected.dom().contains(key) implies selected@.dom().contains(
            key,
        ) by {
            let k = choose|k: int|
                0 <= k < usage.listed().len() && (#[trigger] usage.listed()[k]).0@ == key;
            assert(usage.listed()[k].0@ == key);
        }
        assert(selected@ =~= expected);
    }
    (selected, count)
}

/// The reductions that a mode applies to a domain.
pub open spec fn overlay_of<L: Fn(u32, u32, u32) -> (u32, u32), G: Fn(u32, u32) -> u32>(
    limit: L,
    gauge: G,
    source_info: Map<Seq<char>, SourceTextureInfo>,
    usage: Map<Seq<char>, TextureUsageAggregate>,
    settings: StaticTextureSizingSettings,
    caps: TextureAxisCaps,
    domain: AtlasDomain,
) -> Map<Seq<char>, u32> {
    if reduces_in(settings.mode, domain) {
        proposals(limit, gauge, source_info, usage, settings, caps)
    } else {
        Map::empty()
    }
}

/// Builds the per-texture atlas-dimension plan and its decision counters.
///
/// `Downscale` reduces both domains; `DownscaleOpaque` reduces opaque only, leaving alpha analyzed
/// and reported but unreduced. `Report` and `Off` populate no overlays.
pub fn plan_static_texture_resolutions<
    L: Fn(u32, u32, u32) -> (u32, u32),
    G: Fn(u32, u32) -> u32,
>(
    limit: &L,
    gauge: &G,
    source_info: &TextMap<SourceTextureInfo>,
    usage: &AtlasTextureSet<TextMap<TextureUsageAggregate>>,
    settings: &StaticTextureSizingSettings,
    caps: TextureAxisCaps,
) -> (r: (SizingPlan, StaticTextureSizingMetrics))
    requires
        is_limiter(*limit),
        is_gauge(*gauge),
        source_info.wf(),
        usage_ready(usage.opaque),
        usage_ready(usage.alpha),
        usage.opaque.listed().len() + usage.alpha.listed().len() <= u64::MAX,
    ensures
        ({
            let opaque = proposals(*limit, *gauge, source_info@, usage.opaque@, *settings, caps);
            let alpha = proposals(*limit, *gauge, source_info@, usage.alpha@, *settings, caps);
            &&& r.0.wf()
            &&& r.0.caps == caps
            &&& r.0.baselines@ == baselines_of(*limit, source_info@, caps)
            &&& r.0.opaque_overrides@ == overlay_of(
                *limit,
                *gauge,
                source_info@,
                usage.opaque@,
                *settings,
                caps,
                AtlasDomain::Opaque,
            )
            &&& r.0.alpha_overrides@ == overlay_of(
                *limit,
                *gauge,
                source_info@,
                usage.alpha@,
                *settings,
                caps,
                AtlasDomain::Alpha,
            )
            &&& r.1.reduced_texture_count == opaque.dom().len() + alpha.dom().len()
        }),
{
    let mut plan = SizingPlan::baseline(limit, caps, source_info);
    let (opaque, opaque_count) = propose_domain(
        limit,
        gauge,
        source_info,
        &usage.opaque,
        settings,
        caps,
    );
    let (alpha, alpha_count) = propose_domain(
        limit,
        gauge,
        source_info,
        &usage.alpha,
        settings,
        caps,
    );
    if settings.mode.reduces(AtlasDomain::Opaque) {
        plan.opaque_overrides = opaque;
    }
    if settings.mode.reduces(AtlasDomain::Alpha) {
        plan.alpha_overrides = alpha;
    }
    let reduced_texture_count: u64 = opaque_count as u64 + alpha_count as u64;
    (plan, StaticTextureSizingMetrics { reduced_texture_count })
}

/// A proposal only ever reduces a texture below its baseline, which stays an upper bound.
pub proof fn lemma_proposals_reduce<L: Fn(u32, u32, u32) -> (u32, u32), G: Fn(u32, u32) -> u32>(
    limit: L,
    gauge: G,
    source_info: Map<Seq<char>, SourceTextureInfo>,
    usage: Map<Seq<char>, TextureUsageAggregate>,
    settings: StaticTextureSizingSettings,
    caps: TextureAxisCaps,
    key: Seq<char>,
)
    requires
        proposals(limit, gauge, source_info, usage, settings, caps).dom().contains(key),
    ensures
        baselines_of(limit, source_info, caps).dom().contains(key),
        proposals(limit, gauge, source_info, usage, settings, caps)[key] < baselines_of(
            limit,
            source_info,
            caps,
        )[key],
{
    let dims = baseline_of(limit, source_info[key], caps);
    let selected = selected_longest(
        longer(dims->0),
        spare_mips(gauge, settings.protected_density, usage[key].area_density_min),
        settings,
    );
    lemma_selected_bounds(
        longer(dims->0),
        spare_mips(gauge, settings.protected_density, usage[key].area_density_min),
        settings,
    );
}

/// Two settings that differ in nothing but the mode.
pub open spec fn differ_in_mode(
    a: StaticTextureSizingSettings,
    b: StaticTextureSizingSettings,
) -> bool {
    &&& a.protected_density == b.protected_density
    &&& a.min_texture_size == b.min_texture_size
    &&& a.max_mip_reduction == b.max_mip_reduction
}

/// The mode decides only what is applied: what is proposed, and so what is counted, is the same in
/// every mode; `Off` and `Report` apply nothing, `DownscaleOpaque` nothing to the alpha domain; what
/// is applied lies below the baseline, not below the floor, and is the same wherever two modes
/// both reduce.
pub proof fn lemma_modes_share_proposals<
    L: Fn(u32, u32, u32) -> (u32, u32),
    G: Fn(u32, u32) -> u32,
>(
    limit: L,
    gauge: G,
    source_info: Map<Seq<char>, SourceTextureInfo>,
    usage: Map<Seq<char>, TextureUsageAggregate>,
    a: StaticTextureSizingSettings,
    b: StaticTextureSizingSettings,
    caps: TextureAxisCaps,
    domain: AtlasDomain,
)
    requires
        differ_in_mode(a, b),
    ensures
        proposals(limit, gauge, source_info, usage, a, caps) == proposals(
            limit,
            gauge,
            source_info,
            usage,
            b,
            caps,
        ),
        a.mode is Off || a.mode is Report ==> overlay_of(
            limit,
            gauge,
            source_info,
            usage,
            a,
            caps,
            domain,
        ) == Map::<Seq<char>, u32>::empty(),
        a.mode is DownscaleOpaque ==> overlay_of(
            limit,
            gauge,
            source_info,
            usage,
            a,
            caps,
            AtlasDomain::Alpha,
        ) == Map::<Seq<char>, u32>::empty(),
        reduces_in(a.mode, domain) && reduces_in(b.mode, domain) ==> overlay_of(
            limit,
            gauge,
            source_info,
            usage,
            a,
            caps,
            domain,
        ) == overlay_of(limit, gauge, source_info, usage, b, caps, domain),
        forall|key: Seq<char>| #[trigger]
            overlay_of(limit, gauge, source_info, usage, a, caps, domain).dom().contains(key)
                ==> baselines_of(limit, source_info, caps).dom().contains(key) && least(
                a.min_texture_size as int,
                baselines_of(limit, source_info, caps)[key] as int,
            ) <= overlay_of(limit, gauge, source_info, usage, a, caps, domain)[key]
                < baselines_of(limit, source_info, caps)[key],
{
    assert(proposals(limit, gauge, source_info, usage, a, caps) =~= proposals(
        limit,
        gauge,
        source_info,
        usage,
        b,
        caps,
    ));
    let overlay = overlay_of(limit, gauge, source_info, usage, a, caps, domain);
    assert forall|key: Seq<char>| #[trigger] overlay.dom().contains(key) implies baselines_of(
        limit,
        source_info,
        caps,
    ).dom().contains(key) && least(
        a.min_texture_size as int,
        baselines_of(limit, source_info, caps)[key] as int,
    ) <= overlay[key] < baselines_of(limit, source_info, caps)[key] by {
        lemma_proposals_reduce(limit, gauge, source_info, usage, a, caps, key);
        let dims = baseline_of(limit, source_info[key], caps);
        lemma_selected_bounds(
            longer(dims->0),
            spare_mips(gauge, a.protected_density, usage[key].area_density_min),
            a,
        );
    }
}

} // verus!
