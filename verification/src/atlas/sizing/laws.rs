//! Laws of texture resolutions: what the caps, the floor and the measured density promise.

use crate::atlas::sizing::plan::{
    proposals, proposed_for, selected_longest, spare_mips,
};
use crate::atlas::sizing::usage::{
    merged, TextureUsageAggregate, UsageView, INFINITE_DENSITY,
};
use crate::atlas::sizing::{
    baseline_of, baselines_of, lemma_mip_step, limited, longest_under, mip_step, SourceTextureInfo,
    StaticTextureSizingSettings, TextureAxisCaps,
};
use vstd::arithmetic::power2::{lemma_pow2_pos, lemma_pow2_strictly_increases, pow2};
use vstd::prelude::*;

verus! {

/// The longer of two sides.
pub open spec fn long_side(width: u32, height: u32) -> int {
    if width >= height {
        width as int
    } else {
        height as int
    }
}

/// The shorter of two sides.
pub open spec fn short_side(width: u32, height: u32) -> int {
    if width <= height {
        width as int
    } else {
        height as int
    }
}

/// `limit` scales a source down so that its longer side is the cap, and leaves it alone where that
/// side is within the cap.
pub open spec fn scales_to_cap<L: Fn(u32, u32, u32) -> (u32, u32)>(limit: L) -> bool {
    forall|w: u32, h: u32, cap: u32|
        w >= 1 && h >= 1 && cap >= 1 ==> {
            let dims = #[trigger] limited(limit, w, h, cap);
            &&& long_side(w, h) <= cap ==> dims == (w, h)
            &&& long_side(w, h) > cap ==> long_side(dims.0, dims.1) == cap
        }
}

/// A longest side of `dim` keeps a source within both caps: `long` bounds it as it is, and `short`
/// bounds the other side, scaled alike.
pub open spec fn keeps_caps(caps: TextureAxisCaps, width: u32, height: u32, dim: int) -> bool {
    &&& dim <= caps.long
    &&& dim * short_side(width, height) <= caps.short * long_side(width, height)
}

/// A baseline is listed for exactly the sources with known dimensions. It keeps both caps, it is a
/// whole mip of the source, and no finer mip keeps both caps.
pub proof fn lemma_baselines_keep_caps<L: Fn(u32, u32, u32) -> (u32, u32)>(
    limit: L,
    source_info: Map<Seq<char>, SourceTextureInfo>,
    caps: TextureAxisCaps,
    key: Seq<char>,
)
    requires
        scales_to_cap(limit),
        caps.long >= 1,
        caps.short >= 1,
    ensures
        baselines_of(limit, source_info, caps).dom().contains(key) <==> source_info.dom().contains(
            key,
        ) && source_info[key].width > 0 && source_info[key].height > 0,
        baselines_of(limit, source_info, caps).dom().contains(key) ==> ({
            let info = source_info[key];
            let dim = baselines_of(limit, source_info, caps)[key] as int;
            let long = long_side(info.width, info.height);
            &&& 1 <= dim <= long
            &&& keeps_caps(caps, info.width, info.height, dim)
            &&& exists|level: nat|
                {
                    &&& dim == long / #[trigger] (pow2(level) as int)
                    &&& forall|finer: nat|
                        finer < level ==> !keeps_caps(
                            caps,
                            info.width,
                            info.height,
                            long / #[trigger] (pow2(finer) as int),
                        )
                }
        }),
{
    let all = baselines_of(limit, source_info, caps);
    if all.dom().contains(key) {
        let info = source_info[key];
        let long = long_side(info.width, info.height);
        let short = short_side(info.width, info.height);
        let fit = caps.short * long / short;
        let cap = if caps.long <= fit {
            caps.long as int
        } else {
            fit
        };
        assert(fit >= 1 && fit * short <= caps.short * long && (fit + 1) * short > caps.short
            * long) by (nonlinear_arith)
            requires
                fit == caps.short * long / short,
                caps.short >= 1,
                long >= short >= 1,
        ;
        lemma_mip_step(long, cap);
        let dim = longest_under(caps, info.width, info.height);
        assert(dim == mip_step(long, cap));
        assert(limited(limit, info.width, info.height, dim as u32) == limited(
            limit,
            info.width,
            info.height,
            dim as u32,
        ));
        assert(baseline_of(limit, info, caps) == Some(
            limited(limit, info.width, info.height, dim as u32),
        ));
        assert(all[key] == dim);
        assert(dim * short <= fit * short) by (nonlinear_arith)
            requires
                dim <= fit,
                short >= 1,
        ;
        let level = choose|level: nat|
            {
                &&& mip_step(long, cap) == long / #[trigger] (pow2(level) as int)
                &&& forall|finer: nat| finer < level ==> long / #[trigger] (pow2(finer) as int) > cap
            };
        assert forall|finer: nat| finer < level implies !keeps_caps(
            caps,
            info.width,
            info.height,
            long / #[trigger] (pow2(finer) as int),
        ) by {
            let x = long / (pow2(finer) as int);
            assert(x > cap);
            if x > fit {
                assert(x * short >= (fit + 1) * short) by (nonlinear_arith)
                    requires
                        x >= fit + 1,
                        short >= 1,
                ;
            }
        }
        assert(dim == long / (pow2(level) as int));
    }
}

/// A reduction is proposed only for a texture that was measured reliably: its dimensions are known,
/// at least one triangle was measured, and at most a quarter of all triangles were uncertain. The
/// proposal is below the baseline; it gives up no more mips than the measured density spares, and
/// no more than the settings allow; and it does not go below the smallest size of the settings.
/// Where it stops short of both mip limits, that smallest size is what stopped it.
pub proof fn lemma_proposals_keep_density<
    L: Fn(u32, u32, u32) -> (u32, u32),
    G: Fn(u32, u32) -> u32,
>(
    limit: L,
    gauge: G,
    source_info: Map<Seq<char>, SourceTextureInfo>,
    usage: Map<Seq<char>, TextureUsageAggregate>,
    settings: StaticTextureSizingSettings,
    caps: TextureAxisCaps,
    key: Seq<char>,
)
    requires
        proposals(limit, gauge, source_info, usage, settings, caps).dom().contains(key),
    ensures
        usage.dom().contains(key),
        baselines_of(limit, source_info, caps).dom().contains(key),
        !usage[key].needs_baseline,
        usage[key].valid_count > 0,
        3 * usage[key].uncertain_count <= usage[key].valid_count,
        usage[key].area_density_min < INFINITE_DENSITY,
        ({
            let dim = proposals(limit, gauge, source_info, usage, settings, caps)[key] as int;
            let baseline = baselines_of(limit, source_info, caps)[key] as int;
            let spare = spare_mips(gauge, settings.protected_density, usage[key].area_density_min);
            let allowed = settings.max_mip_reduction;
            &&& dim < baseline
            &&& dim >= baseline / pow2(spare as nat) as int
            &&& dim >= baseline / pow2(allowed as nat) as int
            &&& dim >= settings.min_texture_size
            &&& dim == settings.min_texture_size || dim == baseline / pow2(spare as nat) as int || dim
                == baseline / pow2(allowed as nat) as int
        }),
{
    let dims = baseline_of(limit, source_info[key], caps);
    let baseline = baselines_of(limit, source_info, caps)[key];
    let spare = spare_mips(gauge, settings.protected_density, usage[key].area_density_min);
    let allowed = settings.max_mip_reduction;
    assert(proposed_for(limit, gauge, source_info, usage, settings, caps, key) is Some);
    assert(proposals(limit, gauge, source_info, usage, settings, caps)[key] == selected_longest(
        baseline,
        spare,
        settings,
    ));
    lemma_more_mips_smaller(baseline as int, spare as nat, allowed as nat);
    lemma_more_mips_smaller(baseline as int, allowed as nat, spare as nat);
}

/// Each further mip is no larger.
proof fn lemma_more_mips_smaller(dim: int, few: nat, many: nat)
    requires
        0 <= dim,
    ensures
        few <= many ==> dim / pow2(many) as int <= dim / pow2(few) as int,
        0 <= dim / pow2(few) as int <= dim,
{
    lemma_pow2_pos(few);
    lemma_pow2_pos(many);
    let f = pow2(few) as int;
    let m = pow2(many) as int;
    if few < many {
        lemma_pow2_strictly_increases(few, many);
    }
    if few <= many {
        assert(dim / m <= dim / f) by (nonlinear_arith)
            requires
                0 < f <= m,
                0 <= dim,
        ;
    }
    assert(0 <= dim / f <= dim) by (nonlinear_arith)
        requires
            0 < f,
            0 <= dim,
    ;
}

/// A texture that was measured reliably and can spare at least one mip, which the settings allow, is
/// proposed a reduction, unless the smallest size already stands in the way.
pub proof fn lemma_spare_mips_are_proposed<
    L: Fn(u32, u32, u32) -> (u32, u32),
    G: Fn(u32, u32) -> u32,
>(
    limit: L,
    gauge: G,
    source_info: Map<Seq<char>, SourceTextureInfo>,
    usage: Map<Seq<char>, TextureUsageAggregate>,
    settings: StaticTextureSizingSettings,
    caps: TextureAxisCaps,
    key: Seq<char>,
)
    requires
        usage.dom().contains(key),
        baselines_of(limit, source_info, caps).dom().contains(key),
        baselines_of(limit, source_info, caps)[key] >= 1,
        !usage[key].needs_baseline,
        usage[key].valid_count > 0,
        3 * usage[key].uncertain_count <= usage[key].valid_count,
        usage[key].area_density_min < INFINITE_DENSITY,
        spare_mips(gauge, settings.protected_density, usage[key].area_density_min) >= 1,
        settings.max_mip_reduction >= 1,
        settings.min_texture_size < baselines_of(limit, source_info, caps)[key],
    ensures
        proposals(limit, gauge, source_info, usage, settings, caps).dom().contains(key),
{
    let baseline = baselines_of(limit, source_info, caps)[key] as int;
    let spare = spare_mips(gauge, settings.protected_density, usage[key].area_density_min);
    vstd::arithmetic::power2::lemma2_to64();
    let reduction = if spare <= settings.max_mip_reduction {
        spare as nat
    } else {
        settings.max_mip_reduction as nat
    };
    lemma_more_mips_smaller(baseline, 1, reduction);
    assert(pow2(1) == 2);
    assert(baseline / 2 < baseline);
    assert(selected_longest(baseline as u32, spare, settings) < baseline);
}

/// Of merged measurements the one of lowest density limits, and it is one of those that limited
/// before; all triangles are counted, and a texture that needs its baseline keeps needing it.
pub proof fn lemma_merge_keeps_lowest(a: UsageView, b: UsageView)
    ensures
        merged(a, b).limiting is None <==> a.limiting is None && b.limiting is None,
        merged(a, b).limiting is Some ==> merged(a, b).limiting == a.limiting || merged(
            a,
            b,
        ).limiting == b.limiting,
        a.limiting matches Some(x) ==> (merged(a, b).limiting->0).0 <= x.0,
        b.limiting matches Some(y) ==> (merged(a, b).limiting->0).0 <= y.0,
        merged(a, b).valid == a.valid + b.valid,
        merged(a, b).uncertain == a.uncertain + b.uncertain,
        merged(a, b).needs_baseline <==> a.needs_baseline || b.needs_baseline,
{
}

} // verus!
