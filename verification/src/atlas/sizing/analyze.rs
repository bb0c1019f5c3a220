//! Aggregates texture usage from the statics.

use crate::atlas::apply::{domain_of, source_key, DistantStatics};
use crate::atlas::sizing::usage::{
    merged, no_usage, one_uncertain, one_use, TextureUsageAggregate, UsageView, INFINITE_DENSITY,
};
use crate::atlas::sizing::{
    baseline_dims_for, baseline_of, is_limiter, AtlasDomain, SourceTextureInfo, TextureAxisCaps,
};
use crate::atlas::types::AtlasTextureSet;
use crate::model::merge::Corners;
use crate::model::{DistantStatic, StaticType, Subset, TextureNames};
use crate::text_map::TextMap;
use vstd::prelude::*;

verus! {

/// What measuring one triangle gave.
#[derive(Clone, Copy, Debug, PartialEq, Eq, Structural)]
pub enum TriangleOutcome {
    /// Texels per game unit, averaged over the triangle, as a bit pattern without sign.
    Density(u32),
    /// The triangle covers no area, which is evidence neither way.
    Ignored,
    /// The mapping could not be measured.
    Uncertain,
}

/// `meter` can be called on everything, gives one answer for one question, and its densities have
/// no sign.
///
/// `meter(subset, triangle, width, height)` measures a triangle of a subset of the static against
/// baseline dimensions.
pub open spec fn is_meter<M: Fn(usize, usize, u32, u32) -> TriangleOutcome>(meter: M) -> bool {
    &&& forall|s: usize, t: usize, w: u32, h: u32| #[trigger] call_requires(meter, (s, t, w, h))
    &&& forall|s: usize, t: usize, w: u32, h: u32, a: TriangleOutcome, b: TriangleOutcome|
        #[trigger]
        call_ensures(meter, (s, t, w, h), a) && #[trigger] call_ensures(meter, (s, t, w, h), b)
            ==> a == b
    &&& forall|s: usize, t: usize, w: u32, h: u32, density: u32| #[trigger]
        call_ensures(meter, (s, t, w, h), TriangleOutcome::Density(density)) ==> density
            <= INFINITE_DENSITY
}

/// The answer of `meter`.
pub open spec fn measured<M: Fn(usize, usize, u32, u32) -> TriangleOutcome>(
    meter: M,
    subset: usize,
    triangle: usize,
    width: u32,
    height: u32,
) -> TriangleOutcome {
    choose|outcome: TriangleOutcome|
        call_ensures(meter, (subset, triangle, width, height), outcome)
}

/// The usage with one more triangle.
pub open spec fn with_triangle(
    usage: UsageView,
    in_range: bool,
    outcome: TriangleOutcome,
    static_key: Seq<char>,
    subset_index: u32,
    triangle_index: u32,
) -> UsageView {
    if !in_range {
        merged(usage, one_uncertain())
    } else {
        match outcome {
            TriangleOutcome::Density(density) => merged(
                usage,
                one_use((density, static_key, subset_index, triangle_index)),
            ),
            TriangleOutcome::Ignored => usage,
            TriangleOutcome::Uncertain => merged(usage, one_uncertain()),
        }
    }
}

/// All corners are vertices.
pub open spec fn in_range(triangle: Corners, vertex_count: int) -> bool {
    triangle.0 < vertex_count && triangle.1 < vertex_count && triangle.2 < vertex_count
}

/// The usage with the first `end` triangles of a subset.
pub open spec fn with_triangles<M: Fn(usize, usize, u32, u32) -> TriangleOutcome>(
    usage: UsageView,
    meter: M,
    static_key: Seq<char>,
    subset_index: int,
    subset: Subset,
    width: u32,
    height: u32,
    end: int,
) -> UsageView
    decreases end,
{
    if end <= 0 {
        usage
    } else {
        with_triangle(
            with_triangles(
                usage,
                meter,
                static_key,
                subset_index,
                subset,
                width,
                height,
                end - 1,
            ),
            in_range(subset@.triangles[end - 1], subset.vertices@.len() as int),
            measured(meter, subset_index as usize, (end - 1) as usize, width, height),
            static_key,
            subset_index as u32,
            (end - 1) as u32,
        )
    }
}

fn accumulate_subset<M: Fn(usize, usize, u32, u32) -> TriangleOutcome>(
    entry: &mut TextureUsageAggregate,
    meter: &M,
    static_key: &str,
    subset_index: usize,
    subset: &Subset,
    width: u32,
    height: u32,
)
    requires
        is_meter(*meter),
        old(entry).wf(),
        subset_index <= u32::MAX,
        subset.triangles@.len() <= u32::MAX,
        old(entry).valid_count + subset.triangles@.len() <= u64::MAX,
        old(entry).uncertain_count + subset.triangles@.len() <= u64::MAX,
    ensures
        final(entry).wf(),
        final(entry)@ == with_triangles(
            old(entry)@,
            *meter,
            static_key@,
            subset_index as int,
            *subset,
            width,
            height,
            subset.triangles@.len() as int,
        ),
        final(entry).valid_count <= old(entry).valid_count + subset.triangles@.len(),
        final(entry).uncertain_count <= old(entry).uncertain_count + subset.triangles@.len(),
{
    let vertex_count: usize = subset.vertices.len();
    let mut t: usize = 0;
    while t < subset.triangles.len()
        invariant
            t <= subset.triangles@.len(),
            is_meter(*meter),
            vertex_count == subset.vertices@.len(),
            subset_index <= u32::MAX,
            subset.triangles@.len() <= u32::MAX,
            old(entry).valid_count + subset.triangles@.len() <= u64::MAX,
            old(entry).uncertain_count + subset.triangles@.len() <= u64::MAX,
            entry.valid_count <= old(entry).valid_count + t,
            entry.uncertain_count <= old(entry).uncertain_count + t,
            entry.wf(),
            entry@ == with_triangles(
                old(entry)@,
                *meter,
                static_key@,
                subset_index as int,
                *subset,
                width,
                height,
                t as int,
            ),
        decreases subset.triangles@.len() - t,
    {
        let triangle: [u16; 3] = subset.triangles[t];
        assert(subset@.triangles[t as int] == (triangle@[0], triangle@[1], triangle@[2]));
        if triangle[0] as usize >= vertex_count || triangle[1] as usize >= vertex_count
            || triangle[2] as usize >= vertex_count {
            entry.record_uncertain();
        } else {
            let outcome: TriangleOutcome = meter(subset_index, t, width, height);
            assert(call_ensures(*meter, (subset_index, t, width, height), outcome));
            assert(outcome == measured(*meter, subset_index, t, width, height));
            match outcome {
                TriangleOutcome::Density(density) => {
                    assert(call_ensures(
                        *meter,
                        (subset_index, t, width, height),
                        TriangleOutcome::Density(density),
                    ));
                    entry.record_valid(density, static_key, subset_index as u32, t as u32);
                },
                TriangleOutcome::Ignored => {},
                TriangleOutcome::Uncertain => {
                    entry.record_uncertain();
                },
            }
        }
        t = t + 1;
    }
}

/// Usage of all textures of a domain, as plain values.
pub open spec fn usage_views(map: Map<Seq<char>, TextureUsageAggregate>) -> Map<
    Seq<char>,
    UsageView,
> {
    map.map_values(|usage: TextureUsageAggregate| usage@)
}

/// Usage of a texture so far.
pub open spec fn usage_at(map: Map<Seq<char>, UsageView>, key: Seq<char>) -> UsageView {
    if map.dom().contains(key) {
        map[key]
    } else {
        no_usage()
    }
}

/// A texture whose dimensions are unknown.
pub open spec fn unprobed() -> UsageView {
    UsageView { limiting: None, valid: 0, uncertain: 1, needs_baseline: true }
}

/// The texture key under which a subset is counted, where it is.
pub open spec fn counted_key(
    subset: Subset,
    names: TextureNames,
    domain: AtlasDomain,
) -> Option<Seq<char>> {
    if subset.has_uv_controller || domain_of(subset@) != domain {
        None
    } else {
        source_key(subset@, names)
    }
}

/// The usage of a domain with one more subset.
pub open spec fn with_subset_usage<
    M: Fn(usize, usize, u32, u32) -> TriangleOutcome,
    L: Fn(u32, u32, u32) -> (u32, u32),
>(
    map: Map<Seq<char>, UsageView>,
    meter: M,
    limit: L,
    static_key: Seq<char>,
    subset_index: int,
    subset: Subset,
    names: TextureNames,
    source_info: Map<Seq<char>, SourceTextureInfo>,
    caps: TextureAxisCaps,
    domain: AtlasDomain,
) -> Map<Seq<char>, UsageView> {
    match counted_key(subset, names, domain) {
        None => map,
        Some(key) => {
            let dims = if source_info.dom().contains(key) {
                baseline_of(limit, source_info[key], caps)
            } else {
                None
            };
            map.insert(
                key,
                match dims {
                    None => merged(usage_at(map, key), unprobed()),
                    Some((width, height)) => with_triangles(
                        usage_at(map, key),
                        meter,
                        static_key,
                        subset_index,
                        subset,
                        width,
                        height,
                        subset.triangles@.len() as int,
                    ),
                },
            )
        },
    }
}

/// The usage of a domain with the first `end` subsets of a static.
pub open spec fn with_static_usage<
    M: Fn(usize, usize, u32, u32) -> TriangleOutcome,
    L: Fn(u32, u32, u32) -> (u32, u32),
>(
    map: Map<Seq<char>, UsageView>,
    meter: M,
    limit: L,
    static_key: Seq<char>,
    subsets: Seq<Subset>,
    names: TextureNames,
    source_info: Map<Seq<char>, SourceTextureInfo>,
    caps: TextureAxisCaps,
    domain: AtlasDomain,
    end: int,
) -> Map<Seq<char>, UsageView>
    decreases end,
{
    if end <= 0 {
        map
    } else {
        with_subset_usage(
            with_static_usage(
                map,
                meter,
                limit,
                static_key,
                subsets,
                names,
                source_info,
                caps,
                domain,
                end - 1,
            ),
            meter,
            limit,
            static_key,
            end - 1,
            subsets[end - 1],
            names,
            source_info,
            caps,
            domain,
        )
    }
}

/// Every accumulator is well formed and counts at most `limit` of each kind.
pub open spec fn usage_within(map: Map<Seq<char>, TextureUsageAggregate>, limit: int) -> bool {
    forall|key: Seq<char>| #[trigger]
        map.dom().contains(key) ==> map[key].wf() && map[key].valid_count <= limit
            && map[key].uncertain_count <= limit
}

/// Most that the first `end` subsets can add to a counter.
pub open spec fn count_budget(subsets: Seq<Subset>, end: int) -> nat
    decreases end,
{
    if end <= 0 {
        0
    } else {
        count_budget(subsets, end - 1) + subsets[end - 1].triangles@.len() + 1
    }
}

proof fn lemma_budget_grows(subsets: Seq<Subset>, i: int, j: int)
    requires
        0 <= i <= j,
    ensures
        count_budget(subsets, i) <= count_budget(subsets, j),
    decreases j,
{
    if i < j {
        lemma_budget_grows(subsets, i, j - 1);
    }
}

fn account_subset<
    M: Fn(usize, usize, u32, u32) -> TriangleOutcome,
    L: Fn(u32, u32, u32) -> (u32, u32),
>(
    map: &mut TextMap<TextureUsageAggregate>,
    meter: &M,
    limit: &L,
    static_key: &str,
    subset_index: usize,
    subset: &Subset,
    names: &TextureNames,
    source_info: &TextMap<SourceTextureInfo>,
    caps: TextureAxisCaps,
    domain: AtlasDomain,
    Ghost(room): Ghost<int>,
)
    requires
        is_meter(*meter),
        is_limiter(*limit),
        old(map).wf(),
        source_info.wf(),
        subset_index <= u32::MAX,
        subset.triangles@.len() <= u32::MAX,
        0 <= room,
        usage_within(old(map)@, room),
        room + subset.triangles@.len() + 1 <= u64::MAX,
    ensures
        final(map).wf(),
        usage_within(final(map)@, room + subset.triangles@.len() + 1),
        usage_views(final(map)@) == with_subset_usage(
            usage_views(old(map)@),
            *meter,
            *limit,
            static_key@,
            subset_index as int,
            *subset,
            *names,
            source_info@,
            caps,
            domain,
        ),
{
    let ghost before = map@;
    if subset.has_uv_controller {
        return;
    }
    let own: AtlasDomain = if subset.has_alpha {
        AtlasDomain::Alpha
    } else {
        AtlasDomain::Opaque
    };
    if own != domain {
        return;
    }
    let key = match subset.texture.source_sym() {
        Some(sym) => match names.texture_key_for_sym(sym) {
            Some(key) => key,
            None => return,
        },
        None => return,
    };
    let mut entry = match map.remove(key) {
        Some(entry) => entry,
        None => TextureUsageAggregate::default(),
    };
    proof {
        assert(entry@ == usage_at(usage_views(before), key@));
    }
    let dims: Option<(u32, u32)> = match source_info.get(key) {
        Some(info) => baseline_dims_for(limit, info, caps),
        None => None,
    };
    match dims {
        Some((width, height)) => {
            accumulate_subset(
                &mut entry,
                meter,
                static_key,
                subset_index,
                subset,
                width,
                height,
            );
        },
        None => {
            // Unknown source dimensions: fail closed and keep the baseline.
            entry.needs_baseline = true;
            entry.uncertain_count = entry.uncertain_count + 1;
        },
    }
    map.insert(key.to_owned(), entry);
    proof {
        let expected = with_subset_usage(
            usage_views(before),
            *meter,
            *limit,
            static_key@,
            subset_index as int,
            *subset,
            *names,
            source_info@,
            caps,
            domain,
        );
        assert(map@ =~= before.insert(key@, entry));
        assert(expected == usage_views(before).insert(key@, entry@));
        assert(usage_views(map@) =~= expected);
        assert forall|other: Seq<char>| #[trigger] map@.dom().contains(other) implies map@[other].wf()
            && map@[other].valid_count <= room + subset.triangles@.len() + 1
            && map@[other].uncertain_count <= room + subset.triangles@.len() + 1 by {
            if other != key@ {
                assert(before.dom().contains(other));
            }
        }
    }
}

/// Accumulates a static onto usage that counts at most `spare` of each kind.
fn account_static<
    M: Fn(usize, usize, u32, u32) -> TriangleOutcome,
    L: Fn(u32, u32, u32) -> (u32, u32),
>(
    usage: &mut AtlasTextureSet<TextMap<TextureUsageAggregate>>,
    meter: &M,
    limit: &L,
    static_key: &str,
    distant_static: &DistantStatic,
    names: &TextureNames,
    source_info: &TextMap<SourceTextureInfo>,
    caps: TextureAxisCaps,
    Ghost(spare): Ghost<int>,
)
    requires
        is_meter(*meter),
        is_limiter(*limit),
        old(usage).opaque.wf(),
        old(usage).alpha.wf(),
        source_info.wf(),
        distant_static.subsets@.len() <= u32::MAX,
        forall|s: int|
            0 <= s < distant_static.subsets@.len() ==> (
            #[trigger] distant_static.subsets@[s]).triangles@.len() <= u32::MAX,
        0 <= spare,
        spare + count_budget(distant_static.subsets@, distant_static.subsets@.len() as int)
            <= u64::MAX,
        usage_within(old(usage).opaque@, spare),
        usage_within(old(usage).alpha@, spare),
    ensures
        final(usage).opaque.wf(),
        final(usage).alpha.wf(),
        usage_within(
            final(usage).opaque@,
            spare + count_budget(distant_static.subsets@, distant_static.subsets@.len() as int),
        ),
        usage_within(
            final(usage).alpha@,
            spare + count_budget(distant_static.subsets@, distant_static.subsets@.len() as int),
        ),
        ({
            let end = if distant_static.static_type == StaticType::StaticGrass {
                0
            } else {
                distant_static.subsets@.len() as int
            };
            &&& usage_views(final(usage).opaque@) == with_static_usage(
                usage_views(old(usage).opaque@),
                *meter,
                *limit,
                static_key@,
                distant_static.subsets@,
                *names,
                source_info@,
                caps,
                AtlasDomain::Opaque,
                end,
            )
            &&& usage_views(final(usage).alpha@) == with_static_usage(
                usage_views(old(usage).alpha@),
                *meter,
                *limit,
                static_key@,
                distant_static.subsets@,
                *names,
                source_info@,
                caps,
                AtlasDomain::Alpha,
                end,
            )
        }),
{
    match distant_static.static_type {
        StaticType::StaticGrass => return,
        _ => {},
    }
    let subsets = &distant_static.subsets;
    let ghost whole = count_budget(subsets@, subsets@.len() as int);
    let ghost opaque = usage_views(usage.opaque@);
    let ghost alpha = usage_views(usage.alpha@);
    let mut s: usize = 0;
    while s < subsets.len()
        invariant
            s <= subsets@.len(),
            is_meter(*meter),
            is_limiter(*limit),
            source_info.wf(),
            usage.opaque.wf(),
            usage.alpha.wf(),
            subsets@.len() <= u32::MAX,
            forall|k: int|
                0 <= k < subsets@.len() ==> (#[trigger] subsets@[k]).triangles@.len() <= u32::MAX,
            whole == count_budget(subsets@, subsets@.len() as int),
            0 <= spare,
            spare + whole <= u64::MAX,
            usage_within(usage.opaque@, spare + count_budget(subsets@, s as int)),
            usage_within(usage.alpha@, spare + count_budget(subsets@, s as int)),
            usage_views(usage.opaque@) == with_static_usage(
                opaque,
                *meter,
                *limit,
                static_key@,
                subsets@,
                *names,
                source_info@,
                caps,
                AtlasDomain::Opaque,
                s as int,
            ),
            usage_views(usage.alpha@) == with_static_usage(
                alpha,
                *meter,
                *limit,
                static_key@,
                subsets@,
                *names,
                source_info@,
                caps,
                AtlasDomain::Alpha,
                s as int,
            ),
        decreases subsets@.len() - s,
    {
        let ghost room = spare + count_budget(subsets@, s as int);
        proof {
            lemma_budget_grows(subsets@, s + 1, subsets@.len() as int);
        }
        account_subset(
            &mut usage.opaque,
            meter,
            limit,
            static_key,
            s,
            &subsets[s],
            names,
            source_info,
            caps,
            AtlasDomain::Opaque,
            Ghost(room),
        );
        account_subset(
            &mut usage.alpha,
            meter,
            limit,
            static_key,
            s,
            &subsets[s],
            names,
            source_info,
            caps,
            AtlasDomain::Alpha,
            Ghost(room),
        );
        s = s + 1;
    }
}

/// Accumulates every atlas-eligible subset of one static. Grass is not atlased, so it must not
/// contribute.
pub fn accumulate_static<
    M: Fn(usize, usize, u32, u32) -> TriangleOutcome,
    L: Fn(u32, u32, u32) -> (u32, u32),
>(
    usage: &mut AtlasTextureSet<TextMap<TextureUsageAggregate>>,
    meter: &M,
    limit: &L,
    static_key: &str,
    distant_static: &DistantStatic,
    names: &TextureNames,
    source_info: &TextMap<SourceTextureInfo>,
    caps: TextureAxisCaps,
)
    requires
        is_meter(*meter),
        is_limiter(*limit),
        old(usage).opaque.wf(),
        old(usage).alpha.wf(),
        source_info.wf(),
        distant_static.subsets@.len() <= u32::MAX,
        forall|s: int|
            0 <= s < distant_static.subsets@.len() ==> (
            #[trigger] distant_static.subsets@[s]).triangles@.len() <= u32::MAX,
        count_budget(distant_static.subsets@, distant_static.subsets@.len() as int) <= u64::MAX,
        usage_within(
            old(usage).opaque@,
            u64::MAX - count_budget(
                distant_static.subsets@,
                distant_static.subsets@.len() as int,
            ),
        ),
        usage_within(
            old(usage).alpha@,
            u64::MAX - count_budget(
                distant_static.subsets@,
                distant_static.subsets@.len() as int,
            ),
        ),
    ensures
        final(usage).opaque.wf(),
        final(usage).alpha.wf(),
        usage_within(final(usage).opaque@, u64::MAX as int),
        usage_within(final(usage).alpha@, u64::MAX as int),
        ({
            let end = if distant_static.static_type == StaticType::StaticGrass {
                0
            } else {
                distant_static.subsets@.len() as int
            };
            &&& usage_views(final(usage).opaque@) == with_static_usage(
                usage_views(old(usage).opaque@),
                *meter,
                *limit,
                static_key@,
                distant_static.subsets@,
                *names,
                source_info@,
                caps,
                AtlasDomain::Opaque,
                end,
            )
            &&& usage_views(final(usage).alpha@) == with_static_usage(
                usage_views(old(usage).alpha@),
                *meter,
                *limit,
                static_key@,
                distant_static.subsets@,
                *names,
                source_info@,
                caps,
                AtlasDomain::Alpha,
                end,
            )
        }),
{
    account_static(
        usage,
        meter,
        limit,
        static_key,
        distant_static,
        names,
        source_info,
        caps,
        Ghost(
            u64::MAX - count_budget(
                distant_static.subsets@,
                distant_static.subsets@.len() as int,
            ),
        ),
    );
}

/// Most that the first `end` statics can add to a counter.
pub open spec fn statics_budget(statics: Seq<(String, DistantStatic)>, end: int) -> nat
    decreases end,
{
    if end <= 0 {
        0
    } else {
        statics_budget(statics, end - 1) + count_budget(
            statics[end - 1].1.subsets@,
            statics[end - 1].1.subsets@.len() as int,
        )
    }
}

proof fn lemma_statics_budget_grows(statics: Seq<(String, DistantStatic)>, a: int, b: int)
    requires
        0 <= a <= b <= statics.len(),
    ensures
        statics_budget(statics, a) <= statics_budget(statics, b),
    decreases b,
{
    if a < b {
        lemma_statics_budget_grows(statics, a, b - 1);
    }
}

/// The usage of a domain by the first `end` statics, each measured by its own meter.
pub open spec fn statics_usage<
    M: Fn(usize, usize, u32, u32) -> TriangleOutcome,
    L: Fn(u32, u32, u32) -> (u32, u32),
>(
    meters: Seq<M>,
    limit: L,
    statics: Seq<(String, DistantStatic)>,
    names: TextureNames,
    source_info: Map<Seq<char>, SourceTextureInfo>,
    caps: TextureAxisCaps,
    domain: AtlasDomain,
    end: int,
) -> Map<Seq<char>, UsageView>
    decreases end,
{
    if end <= 0 {
        Map::empty()
    } else {
        let next = statics[end - 1];
        with_static_usage(
            statics_usage(meters, limit, statics, names, source_info, caps, domain, end - 1),
            meters[end - 1],
            limit,
            next.0@,
            next.1.subsets@,
            names,
            source_info,
            caps,
            domain,
            if next.1.static_type == StaticType::StaticGrass {
                0
            } else {
                next.1.subsets@.len() as int
            },
        )
    }
}

/// The statics can be analyzed: every position fits its number and every count its counter.
pub open spec fn can_analyze(statics: Seq<(String, DistantStatic)>) -> bool {
    &&& statics_budget(statics, statics.len() as int) <= u64::MAX
    &&& forall|i: int|
        0 <= i < statics.len() ==> (#[trigger] statics[i]).1.subsets@.len() <= u32::MAX
    &&& forall|i: int, s: int|
        0 <= i < statics.len() && 0 <= s < statics[i].1.subsets@.len() ==> (
        #[trigger] statics[i].1.subsets@[s]).triangles@.len() <= u32::MAX
}

/// Aggregates the use of every texture, by domain. `meters` holds the meter of each static.
pub fn analyze_static_texture_usage<
    M: Fn(usize, usize, u32, u32) -> TriangleOutcome,
    L: Fn(u32, u32, u32) -> (u32, u32),
>(
    meters: &[M],
    limit: &L,
    names: &TextureNames,
    distant_statics: &DistantStatics,
    source_info: &TextMap<SourceTextureInfo>,
    caps: TextureAxisCaps,
) -> (r: AtlasTextureSet<TextMap<TextureUsageAggregate>>)
    requires
        meters@.len() == distant_statics@.len(),
        forall|i: int| 0 <= i < meters@.len() ==> is_meter(#[trigger] meters@[i]),
        is_limiter(*limit),
        source_info.wf(),
        can_analyze(distant_statics@),
    ensures
        r.opaque.wf(),
        r.alpha.wf(),
        usage_views(r.opaque@) == statics_usage(
            meters@,
            *limit,
            distant_statics@,
            *names,
            source_info@,
            caps,
            AtlasDomain::Opaque,
            distant_statics@.len() as int,
        ),
        usage_views(r.alpha@) == statics_usage(
            meters@,
            *limit,
            distant_statics@,
            *names,
            source_info@,
            caps,
            AtlasDomain::Alpha,
            distant_statics@.len() as int,
        ),
{
    let mut usage = AtlasTextureSet { opaque: TextMap::new(), alpha: TextMap::new() };
    assert(usage_views(usage.opaque@) =~= Map::empty());
    assert(usage_views(usage.alpha@) =~= Map::empty());
    let mut i: usize = 0;
    while i < distant_statics.len()
        invariant
            i <= distant_statics@.len(),
            meters@.len() == distant_statics@.len(),
            forall|k: int| 0 <= k < meters@.len() ==> is_meter(#[trigger] meters@[k]),
            is_limiter(*limit),
            source_info.wf(),
            can_analyze(distant_statics@),
            usage.opaque.wf(),
            usage.alpha.wf(),
            usage_within(usage.opaque@, statics_budget(distant_statics@, i as int) as int),
            usage_within(usage.alpha@, statics_budget(distant_statics@, i as int) as int),
            usage_views(usage.opaque@) == statics_usage(
                meters@,
                *limit,
                distant_statics@,
                *names,
                source_info@,
                caps,
                AtlasDomain::Opaque,
                i as int,
            ),
            usage_views(usage.alpha@) == statics_usage(
                meters@,
                *limit,
                distant_statics@,
                *names,
                source_info@,
                caps,
                AtlasDomain::Alpha,
                i as int,
            ),
        decreases distant_statics@.len() - i,
    {
        let entry = &distant_statics[i];
        proof {
            lemma_statics_budget_grows(distant_statics@, i + 1, distant_statics@.len() as int);
            assert(distant_statics@[i as int].1.subsets@.len() <= u32::MAX);
        }
        account_static(
            &mut usage,
            &meters[i],
            limit,
            entry.0.as_str(),
            &entry.1,
            names,
            source_info,
            caps,
            Ghost(statics_budget(distant_statics@, i as int) as int),
        );
        i = i + 1;
    }
    usage
}

// ---------------------------------------------------------------------------------------------
// Merging partial results
// ---------------------------------------------------------------------------------------------

/// Two partial results of a domain as one.
pub open spec fn merged_maps(
    a: Map<Seq<char>, UsageView>,
    b: Map<Seq<char>, UsageView>,
) -> Map<Seq<char>, UsageView> {
    Map::new(
        |key: Seq<char>| a.dom().contains(key) || b.dom().contains(key),
        |key: Seq<char>| merged(usage_at(a, key), usage_at(b, key)),
    )
}

/// Partial results merge alike in either order.
pub proof fn lemma_maps_commutative(a: Map<Seq<char>, UsageView>, b: Map<Seq<char>, UsageView>)
    ensures
        merged_maps(a, b) == merged_maps(b, a),
{
    assert forall|key: Seq<char>| merged(usage_at(a, key), usage_at(b, key)) == merged(
        usage_at(b, key),
        usage_at(a, key),
    ) by {
        crate::atlas::sizing::usage::lemma_merge_commutative(usage_at(a, key), usage_at(b, key));
    }
    assert(merged_maps(a, b) =~= merged_maps(b, a));
}

/// How partial results are bracketed does not matter.
pub proof fn lemma_maps_associative(
    a: Map<Seq<char>, UsageView>,
    b: Map<Seq<char>, UsageView>,
    c: Map<Seq<char>, UsageView>,
)
    ensures
        merged_maps(merged_maps(a, b), c) == merged_maps(a, merged_maps(b, c)),
{
    let left = merged_maps(merged_maps(a, b), c);
    let right = merged_maps(a, merged_maps(b, c));
    assert forall|key: Seq<char>| #[trigger] left.dom().contains(key) implies left[key]
        == right[key] by {
        crate::atlas::sizing::usage::lemma_merge_associative(
            usage_at(a, key),
            usage_at(b, key),
            usage_at(c, key),
        );
        crate::atlas::sizing::usage::lemma_merge_identity(usage_at(a, key));
        crate::atlas::sizing::usage::lemma_merge_identity(usage_at(b, key));
        crate::atlas::sizing::usage::lemma_merge_identity(usage_at(c, key));
        assert(usage_at(merged_maps(a, b), key) == merged(usage_at(a, key), usage_at(b, key)));
        assert(usage_at(merged_maps(b, c), key) == merged(usage_at(b, key), usage_at(c, key)));
    }
    assert(left =~= right);
}

/// Adds one domain's partial result to another.
pub fn merge_usage_map(
    into: &mut TextMap<TextureUsageAggregate>,
    from: TextMap<TextureUsageAggregate>,
)
    requires
        old(into).wf(),
        from.wf(),
        usage_within(old(into)@, 0x7fff_ffff_ffff_ffff),
        usage_within(from@, 0x7fff_ffff_ffff_ffff),
    ensures
        final(into).wf(),
        usage_views(final(into)@) == merged_maps(usage_views(old(into)@), usage_views(from@)),
        usage_within(final(into)@, u64::MAX as int),
{
    let ghost start = into@;
    let ghost added = from@;
    let keys = from.sorted_keys();
    let mut rest = from;
    let mut i: usize = 0;
    let ghost names = crate::text::texts(keys@);
    proof {
        assert forall|k: int| 0 <= k < keys@.len() implies rest@.dom().contains(
            (#[trigger] keys@[k])@,
        ) && rest@[keys@[k]@] == added[keys@[k]@] by {
            assert(names[k] == keys@[k]@);
            assert(names.contains(names[k]));
        }
    }
    while i < keys.len()
        invariant
            i <= keys@.len(),
            names == crate::text::texts(keys@),
            crate::text_map::lists_domain(added, names),
            into.wf(),
            rest.wf(),
            usage_within(start, 0x7fff_ffff_ffff_ffff),
            usage_within(added, 0x7fff_ffff_ffff_ffff),
            forall|k: int|
                i <= k < keys@.len() ==> rest@.dom().contains((#[trigger] keys@[k])@)
                    && rest@[keys@[k]@] == added[keys@[k]@],
            forall|k: int|
                0 <= k < i ==> into@.dom().contains((#[trigger] keys@[k])@) && into@[keys@[k]@]@
                    == merged(
                    usage_at(usage_views(start), keys@[k]@),
                    added[keys@[k]@]@,
                ) && into@[keys@[k]@].wf(),
            forall|key: Seq<char>| #[trigger]
                into@.dom().contains(key) ==> start.dom().contains(key) || names.take(
                    i as int,
                ).contains(key),
            forall|key: Seq<char>| #[trigger]
                start.dom().contains(key) ==> into@.dom().contains(key),
            forall|key: Seq<char>| #[trigger]
                start.dom().contains(key) && !names.take(i as int).contains(key) ==> into@[key]
                    == start[key],
        decreases keys@.len() - i,
    {
        let key = keys[i].as_str();
        let ghost done = names.take(i as int);
        let ghost now = names.take(i + 1);
        let ghost before = into@;
        let ghost pool = rest@;
        proof {
            assert(rest@.dom().contains(keys@[i as int]@));
            assert(added.dom().contains(keys@[i as int]@)) by {
                assert(names[i as int] == keys@[i as int]@);
                assert(names.contains(names[i as int]));
            }
            assert forall|k: int, n: int| 0 <= k < n < keys@.len() implies (#[trigger] keys@[k])@
                != (#[trigger] keys@[n])@ by {
                assert(crate::text::text_lt(names[k], names[n]));
                crate::text::lemma_text_order(names[k], names[n]);
            }
            assert(!done.contains(keys@[i as int]@)) by {
                if done.contains(keys@[i as int]@) {
                    let k = choose|k: int| 0 <= k < done.len() && done[k] == keys@[i as int]@;
                    assert(keys@[k]@ != keys@[i as int]@);
                }
            }
        }
        let other = rest.remove(key).unwrap();
        let mut entry = match into.remove(key) {
            Some(entry) => entry,
            None => TextureUsageAggregate::default(),
        };
        proof {
            assert(entry@ == usage_at(usage_views(start), key@)) by {
                if start.dom().contains(key@) {
                    assert(before.dom().contains(key@));
                    assert(before[key@] == start[key@]);
                } else {
                    assert(!before.dom().contains(key@));
                }
            }
            assert(entry.wf() && entry.valid_count <= 0x7fff_ffff_ffff_ffff
                && entry.uncertain_count <= 0x7fff_ffff_ffff_ffff) by {
                if start.dom().contains(key@) {
                    assert(before[key@] == start[key@]);
                }
            }
        }
        entry.merge_from(other);
        into.insert(keys[i].clone(), entry);
        proof {
            assert(now =~= done.push(names[i as int]));
            assert(into@ =~= before.insert(key@, entry));
            assert forall|k: int| i + 1 <= k < keys@.len() implies rest@.dom().contains(
                (#[trigger] keys@[k])@,
            ) && rest@[keys@[k]@] == added[keys@[k]@] by {
                assert(keys@[i as int]@ != keys@[k]@);
                assert(pool.dom().contains(keys@[k]@));
            }
            assert forall|k: int| 0 <= k < i + 1 implies into@.dom().contains(
                (#[trigger] keys@[k])@,
            ) && into@[keys@[k]@]@ == merged(
                usage_at(usage_views(start), keys@[k]@),
                added[keys@[k]@]@,
            ) && into@[keys@[k]@].wf() by {
                if k < i {
                    assert(keys@[k]@ != keys@[i as int]@);
                    assert(before.dom().contains(keys@[k]@));
                }
            }
            assert forall|other_key: Seq<char>| #[trigger] into@.dom().contains(
                other_key,
            ) implies start.dom().contains(other_key) || now.contains(other_key) by {
                if other_key == key@ {
                    assert(now[i as int] == key@);
                } else if !start.dom().contains(other_key) {
                    assert(before.dom().contains(other_key));
                    let k = choose|k: int| 0 <= k < done.len() && done[k] == other_key;
                    assert(now[k] == other_key);
                }
            }
            assert forall|other_key: Seq<char>| #[trigger] start.dom().contains(other_key)
                && !now.contains(other_key) implies into@[other_key] == start[other_key] by {
                if other_key == key@ {
                    assert(now[i as int] == key@);
                }
                if done.contains(other_key) {
                    let k = choose|k: int| 0 <= k < done.len() && done[k] == other_key;
                    assert(now[k] == other_key);
                }
            }
        }
        i = i + 1;
    }
    proof {
        assert(names.take(i as int) =~= names);
        let expected = merged_maps(usage_views(start), usage_views(added));
        assert forall|key: Seq<char>| names.contains(key) <==> added.dom().contains(key) by {}
        assert forall|key: Seq<char>| into@.dom().contains(key) <==> expected.dom().contains(
            key,
        ) by {
            if added.dom().contains(key) {
                assert(names.contains(key));
                let k = choose|k: int| 0 <= k < names.len() && names[k] == key;
                assert(into@.dom().contains(keys@[k]@));
            }
        }
        assert forall|key: Seq<char>| #[trigger] into@.dom().contains(key) implies into@[key]@
            == expected[key] && into@[key].wf() by {
            if names.contains(key) {
                let k = choose|k: int| 0 <= k < names.len() && names[k] == key;
                assert(into@.dom().contains(keys@[k]@));
                assert(keys@[k]@ == key);
            } else {
                assert(start.dom().contains(key));
                crate::atlas::sizing::usage::lemma_merge_identity(start[key]@);
            }
        }
        assert(usage_views(into@) =~= expected);
    }
}

} // verus!
