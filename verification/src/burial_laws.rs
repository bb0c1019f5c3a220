//! Laws of burial: what is counted of a static, and what the verdict on it means.

use crate::burial::{
    after_subset, after_subsets, after_triangle, after_triangles, clear_height, has_area,
    measured, reports, shared, triangles_before, stats_add_up, unseen, verdict_of, with_report,
    BurialLimits, BurialReport, BurialStats, BurialVerdict, Progress, SphereBurial, Survey, TriangleBurial,
};
use crate::float_bits::{at_least, below, calculated, is_number};
use crate::picks::{lemma_list_next_row, lemma_list_step, lemma_lists_same, lists};
use vstd::prelude::*;

verus! {

/// Bit pattern of one.
pub const WHOLE_SHARE: u32 = 0x3f80_0000;

/// The subset stands over the terrain by more than the limit for exposed triangles.
pub open spec fn stands_over(limits: BurialLimits, sphere: SphereBurial) -> bool {
    sphere.clearance matches Some(height) && below(limits.exposed_height_epsilon, height)
}

/// The triangle is more than a sliver.
pub open spec fn has_size(limits: BurialLimits, triangle: TriangleBurial) -> bool {
    !at_least(limits.area_epsilon, triangle.area)
}

/// The triangle is counted: its subset does not lie below the terrain, it is more than a sliver, and
/// it is known how it lies to the terrain.
pub open spec fn counts(
    limits: BurialLimits,
    sphere: SphereBurial,
    triangle: TriangleBurial,
) -> bool {
    &&& !sphere.below
    &&& has_size(limits, triangle)
    &&& stands_over(limits, sphere) || triangle.known
}

/// The triangle lies higher over the terrain than the limit for exposed triangles, by its own height
/// or with its whole subset.
pub open spec fn lies_high(
    limits: BurialLimits,
    sphere: SphereBurial,
    triangle: TriangleBurial,
) -> bool {
    stands_over(limits, sphere) || below(limits.exposed_height_epsilon, triangle.height)
}

/// The triangle, or its subset, reaches the height at which one triangle is enough. Every triangle
/// does where that height is not above the terrain.
pub open spec fn reaches_up(
    limits: BurialLimits,
    sphere: SphereBurial,
    triangle: TriangleBurial,
) -> bool {
    if at_least(0, limits.max_exposed_height) {
        true
    } else if stands_over(limits, sphere) {
        at_least(sphere.clearance->0, limits.max_exposed_height)
    } else {
        at_least(triangle.exposure, limits.max_exposed_height)
    }
}

/// The terrain is asked for the height of the triangle: its subset neither lies below the terrain
/// nor stands over it as a whole, and the triangle is more than a sliver.
pub open spec fn is_probed(
    limits: BurialLimits,
    sphere: SphereBurial,
    triangle: TriangleBurial,
) -> bool {
    !sphere.below && !stands_over(limits, sphere) && has_size(limits, triangle)
}

/// Numbers added up from left to right.
pub open spec fn added_up<P: Fn(u32, u32) -> u32>(sum: P, areas: Seq<u32>) -> u32
    decreases areas.len(),
{
    if areas.len() == 0 {
        0
    } else {
        calculated(sum, added_up(sum, areas.drop_last()), areas.last())
    }
}

/// The areas of the listed triangles.
pub open spec fn areas_of<M: Fn(usize, usize) -> TriangleBurial>(
    measure: M,
    list: Seq<(int, int)>,
) -> Seq<u32> {
    list.map_values(|at: (int, int)| measured(measure, at.0 as usize, at.1 as usize).area)
}

/// Which triangles are counted.
pub open spec fn counted_ones<M: Fn(usize, usize) -> TriangleBurial>(
    measure: M,
    limits: BurialLimits,
    spheres: Seq<SphereBurial>,
) -> spec_fn(int, int) -> bool {
    |s: int, t: int| counts(limits, spheres[s], measured(measure, s as usize, t as usize))
}

/// Which triangles are counted and lie high.
pub open spec fn high_ones<M: Fn(usize, usize) -> TriangleBurial>(
    measure: M,
    limits: BurialLimits,
    spheres: Seq<SphereBurial>,
) -> spec_fn(int, int) -> bool {
    |s: int, t: int|
        counts(limits, spheres[s], measured(measure, s as usize, t as usize)) && lies_high(
            limits,
            spheres[s],
            measured(measure, s as usize, t as usize),
        )
}

/// Which triangles the terrain is asked for.
pub open spec fn probed_ones<M: Fn(usize, usize) -> TriangleBurial>(
    measure: M,
    limits: BurialLimits,
    spheres: Seq<SphereBurial>,
) -> spec_fn(int, int) -> bool {
    |s: int, t: int| is_probed(limits, spheres[s], measured(measure, s as usize, t as usize))
}

/// Which triangles are looked at.
pub open spec fn visited_ones(spheres: Seq<SphereBurial>) -> spec_fn(int, int) -> bool {
    |s: int, t: int| !spheres[s].below
}

/// Triangles of a static by what they are.
pub struct Sorted {
    pub counted: Seq<(int, int)>,
    pub high: Seq<(int, int)>,
    pub probed: Seq<(int, int)>,
    pub visited: Seq<(int, int)>,
}

/// The survey is that of the triangles before an end: it counts and adds up exactly those that
/// belong, and none of them reaches up to where the survey ends.
pub open spec fn surveys<M: Fn(usize, usize) -> TriangleBurial, P: Fn(u32, u32) -> u32>(
    measure: M,
    sum: P,
    limits: BurialLimits,
    spheres: Seq<SphereBurial>,
    sizes: Seq<nat>,
    se: int,
    te: int,
    sorted: Sorted,
    survey: Survey,
) -> bool {
    &&& lists(counted_ones(measure, limits, spheres), sizes, se, te, sorted.counted)
    &&& lists(high_ones(measure, limits, spheres), sizes, se, te, sorted.high)
    &&& lists(probed_ones(measure, limits, spheres), sizes, se, te, sorted.probed)
    &&& lists(visited_ones(spheres), sizes, se, te, sorted.visited)
    &&& survey.sampled == triangles_before(sizes, se) + te
    &&& survey.valid == sorted.counted.len()
    &&& survey.probed == sorted.probed.len()
    &&& survey.visited == sorted.visited.len()
    &&& survey.total_area == added_up(sum, areas_of(measure, sorted.counted))
    &&& survey.exposed_area == added_up(sum, areas_of(measure, sorted.high))
    &&& at_least(survey.highest, 0)
    &&& if sorted.counted.len() == 0 {
        survey.highest == 0
    } else {
        !at_least(survey.highest, limits.max_exposed_height)
    }
    &&& forall|i: int|
        0 <= i < sorted.counted.len() ==> !reaches_up(
            limits,
            spheres[(#[trigger] sorted.counted[i]).0],
            measured(measure, sorted.counted[i].0 as usize, sorted.counted[i].1 as usize),
        )
}

proof fn lemma_added_up_push<M: Fn(usize, usize) -> TriangleBurial, P: Fn(u32, u32) -> u32>(
    measure: M,
    sum: P,
    list: Seq<(int, int)>,
    at: (int, int),
)
    ensures
        added_up(sum, areas_of(measure, list.push(at))) == calculated(
            sum,
            added_up(sum, areas_of(measure, list)),
            measured(measure, at.0 as usize, at.1 as usize).area,
        ),
{
    let longer = areas_of(measure, list.push(at));
    assert(longer.drop_last() =~= areas_of(measure, list));
}

/// The clearance that counts is that of a subset that stands over the terrain.
proof fn lemma_clearance(limits: BurialLimits, sphere: SphereBurial)
    ensures
        clear_height(sphere, limits) is Some <==> stands_over(limits, sphere),
        stands_over(limits, sphere) ==> clear_height(sphere, limits) == sphere.clearance,
{
}

/// One more triangle keeps the survey what it is, or ends it because the triangle reaches up.
proof fn lemma_triangle_surveyed<M: Fn(usize, usize) -> TriangleBurial, P: Fn(u32, u32) -> u32>(
    measure: M,
    sum: P,
    limits: BurialLimits,
    spheres: Seq<SphereBurial>,
    sizes: Seq<nat>,
    se: int,
    te: int,
    sorted: Sorted,
    survey: Survey,
) -> (next: Sorted)
    requires
        surveys(measure, sum, limits, spheres, sizes, se, te, sorted, survey),
        spheres.len() == sizes.len(),
        0 <= se < sizes.len() <= usize::MAX,
        0 <= te < sizes[se] <= usize::MAX,
        !spheres[se].below,
    ensures
        match after_triangle(
            sum,
            limits,
            clear_height(spheres[se], limits),
            measured(measure, se as usize, te as usize),
            survey,
        ) {
            Progress::Going(now) => surveys(
                measure,
                sum,
                limits,
                spheres,
                sizes,
                se,
                te + 1,
                next,
                now,
            ),
            Progress::Ended(verdict, _) => {
                &&& verdict == BurialVerdict::HeightEarly
                &&& counts(limits, spheres[se], measured(measure, se as usize, te as usize))
                &&& reaches_up(limits, spheres[se], measured(measure, se as usize, te as usize))
            },
        },
{
    let sphere = spheres[se];
    let triangle = measured(measure, se as usize, te as usize);
    let at = (se, te);
    lemma_clearance(limits, sphere);
    lemma_list_step(counted_ones(measure, limits, spheres), sizes, se, te, sorted.counted);
    lemma_list_step(high_ones(measure, limits, spheres), sizes, se, te, sorted.high);
    lemma_list_step(probed_ones(measure, limits, spheres), sizes, se, te, sorted.probed);
    lemma_list_step(visited_ones(spheres), sizes, se, te, sorted.visited);
    lemma_added_up_push(measure, sum, sorted.counted, at);
    lemma_added_up_push(measure, sum, sorted.high, at);
    let counted = counts(limits, sphere, triangle);
    let next = Sorted {
        counted: if counted {
            sorted.counted.push(at)
        } else {
            sorted.counted
        },
        high: if counted && lies_high(limits, sphere, triangle) {
            sorted.high.push(at)
        } else {
            sorted.high
        },
        probed: if is_probed(limits, sphere, triangle) {
            sorted.probed.push(at)
        } else {
            sorted.probed
        },
        visited: sorted.visited.push(at),
    };
    let after = after_triangle(sum, limits, clear_height(sphere, limits), triangle, survey);
    assert(counted_ones(measure, limits, spheres)(se, te) == counted);
    assert(high_ones(measure, limits, spheres)(se, te) == (counted && lies_high(
        limits,
        sphere,
        triangle,
    )));
    assert(probed_ones(measure, limits, spheres)(se, te) == is_probed(limits, sphere, triangle));
    assert(visited_ones(spheres)(se, te));
    if let Progress::Going(now) = after {
        assert forall|i: int| 0 <= i < next.counted.len() implies !reaches_up(
            limits,
            spheres[(#[trigger] next.counted[i]).0],
            measured(measure, next.counted[i].0 as usize, next.counted[i].1 as usize),
        ) by {
            if i < sorted.counted.len() {
                assert(next.counted[i] == sorted.counted[i]);
            }
        }
        assert(surveys(measure, sum, limits, spheres, sizes, se, te + 1, next, now));
    }
    next
}

/// The survey of a static, as far as it goes, or why it ended.
pub open spec fn is_surveyed<M: Fn(usize, usize) -> TriangleBurial, P: Fn(u32, u32) -> u32>(
    measure: M,
    sum: P,
    limits: BurialLimits,
    spheres: Seq<SphereBurial>,
    sizes: Seq<nat>,
    se: int,
    te: int,
    progress: Progress,
) -> bool {
    match progress {
        Progress::Going(survey) => exists|sorted: Sorted| #[trigger]
            surveys(measure, sum, limits, spheres, sizes, se, te, sorted, survey),
        Progress::Ended(verdict, _) => ends_rightly(
            measure,
            limits,
            spheres,
            sizes,
            verdict,
        ),
    }
}

/// A survey ends early where a counted triangle reaches up, or where a subset with a triangle of
/// some area stands that high as a whole.
pub open spec fn ends_rightly<M: Fn(usize, usize) -> TriangleBurial>(
    measure: M,
    limits: BurialLimits,
    spheres: Seq<SphereBurial>,
    sizes: Seq<nat>,
    verdict: BurialVerdict,
) -> bool {
    ||| verdict == BurialVerdict::HeightEarly && exists|s: int, t: int|
        0 <= s < sizes.len() && 0 <= t < sizes[s] && #[trigger] shows_up(
            measure,
            limits,
            spheres,
            s,
            t,
        )
    ||| verdict == BurialVerdict::ClearanceShortcut && exists|s: int, t: int|
        0 <= s < sizes.len() && 0 <= t < sizes[s] && #[trigger] stands_clear(
            measure,
            limits,
            spheres,
            s,
            t,
        )
}

/// The triangle is counted and reaches up.
pub open spec fn shows_up<M: Fn(usize, usize) -> TriangleBurial>(
    measure: M,
    limits: BurialLimits,
    spheres: Seq<SphereBurial>,
    s: int,
    t: int,
) -> bool {
    let triangle = measured(measure, s as usize, t as usize);
    counts(limits, spheres[s], triangle) && reaches_up(limits, spheres[s], triangle)
}

/// The subset stands clear of the terrain as a whole, and the triangle of it has some area.
pub open spec fn stands_clear<M: Fn(usize, usize) -> TriangleBurial>(
    measure: M,
    limits: BurialLimits,
    spheres: Seq<SphereBurial>,
    s: int,
    t: int,
) -> bool {
    &&& !spheres[s].below
    &&& stands_over(limits, spheres[s])
    &&& at_least(spheres[s].clearance->0, limits.max_exposed_height)
    &&& below(limits.area_epsilon, measured(measure, s as usize, t as usize).area)
}

proof fn lemma_triangles_surveyed<M: Fn(usize, usize) -> TriangleBurial, P: Fn(u32, u32) -> u32>(
    measure: M,
    sum: P,
    limits: BurialLimits,
    spheres: Seq<SphereBurial>,
    sizes: Seq<nat>,
    se: int,
    end: int,
    sorted: Sorted,
    start: Survey,
)
    requires
        surveys(measure, sum, limits, spheres, sizes, se, 0, sorted, start),
        spheres.len() == sizes.len(),
        0 <= se < sizes.len() <= usize::MAX,
        0 <= end <= sizes[se] <= usize::MAX,
        !spheres[se].below,
    ensures
        is_surveyed(
            measure,
            sum,
            limits,
            spheres,
            sizes,
            se,
            end,
            after_triangles(
                measure,
                sum,
                limits,
                clear_height(spheres[se], limits),
                se as usize,
                end,
                start,
            ),
        ),
    decreases end,
{
    if end > 0 {
        lemma_triangles_surveyed(
            measure,
            sum,
            limits,
            spheres,
            sizes,
            se,
            end - 1,
            sorted,
            start,
        );
        let clearance = clear_height(spheres[se], limits);
        let before = after_triangles(measure, sum, limits, clearance, se as usize, end - 1, start);
        let whole = after_triangles(measure, sum, limits, clearance, se as usize, end, start);
        if before is Ended {
            assert(whole == before);
            assert(is_surveyed(measure, sum, limits, spheres, sizes, se, end, whole));
        }
        if let Progress::Going(now) = before {
            let so_far = choose|so_far: Sorted| #[trigger]
                surveys(measure, sum, limits, spheres, sizes, se, end - 1, so_far, now);
            let next = lemma_triangle_surveyed(
                measure,
                sum,
                limits,
                spheres,
                sizes,
                se,
                end - 1,
                so_far,
                now,
            );
            let after = after_triangle(
                sum,
                limits,
                clearance,
                measured(measure, se as usize, (end - 1) as usize),
                now,
            );
            assert(whole == after);
            match after {
                Progress::Going(later) => {
                    assert(surveys(measure, sum, limits, spheres, sizes, se, end, next, later));
                },
                Progress::Ended(_, _) => {
                    assert(shows_up(measure, limits, spheres, se, end - 1));
                },
            }
            assert(is_surveyed(measure, sum, limits, spheres, sizes, se, end, whole));
        }
    } else {
        assert(after_triangles(
            measure,
            sum,
            limits,
            clear_height(spheres[se], limits),
            se as usize,
            end,
            start,
        ) == Progress::Going(start));
        assert(surveys(measure, sum, limits, spheres, sizes, se, end, sorted, start));
    }
}

/// Nothing has been seen of no subsets.
proof fn lemma_nothing_surveyed<M: Fn(usize, usize) -> TriangleBurial, P: Fn(u32, u32) -> u32>(
    measure: M,
    sum: P,
    limits: BurialLimits,
    spheres: Seq<SphereBurial>,
    sizes: Seq<nat>,
)
    ensures
        is_surveyed(measure, sum, limits, spheres, sizes, 0, 0, Progress::Going(unseen())),
{
    let none = Sorted {
        counted: Seq::empty(),
        high: Seq::empty(),
        probed: Seq::empty(),
        visited: Seq::empty(),
    };
    assert(areas_of(measure, none.counted).len() == 0);
    assert(areas_of(measure, none.high).len() == 0);
    let progress = Progress::Going(unseen());
    assert(surveys(measure, sum, limits, spheres, sizes, 0, 0, none, progress->Going_0));
    assert(exists|sorted: Sorted| #[trigger]
        surveys(measure, sum, limits, spheres, sizes, 0, 0, sorted, progress->Going_0));
    assert(is_surveyed(measure, sum, limits, spheres, sizes, 0, 0, progress));
}

/// One more subset keeps the survey what it is, or ends it rightly.
proof fn lemma_subset_surveyed<M: Fn(usize, usize) -> TriangleBurial, P: Fn(u32, u32) -> u32>(
    measure: M,
    sum: P,
    limits: BurialLimits,
    spheres: Seq<SphereBurial>,
    sizes: Seq<nat>,
    s: int,
    sorted: Sorted,
    now: Survey,
)
    requires
        spheres.len() == sizes.len(),
        0 <= s < sizes.len() <= usize::MAX,
        sizes[s] <= usize::MAX,
        surveys(measure, sum, limits, spheres, sizes, s, 0, sorted, now),
    ensures
        is_surveyed(
            measure,
            sum,
            limits,
            spheres,
            sizes,
            s + 1,
            0,
            after_subset(measure, sum, limits, spheres[s], s as usize, sizes[s], now),
        ),
{
    let sphere = spheres[s];
    let count = sizes[s];
    lemma_clearance(limits, sphere);
    let after = after_subset(measure, sum, limits, sphere, s as usize, count, now);
    if sphere.below {
        lemma_lists_next_subset(measure, limits, spheres, sizes, s, 0, sorted);
        assert(surveys(
            measure,
            sum,
            limits,
            spheres,
            sizes,
            s + 1,
            0,
            sorted,
            after->Going_0,
        ));
    } else if clear_height(sphere, limits) is Some && at_least(
        clear_height(sphere, limits)->0,
        limits.max_exposed_height,
    ) && has_area(measure, limits, s as usize, count as int) {
        let t = choose|t: int|
            0 <= t < count && below(
                limits.area_epsilon,
                (#[trigger] measured(measure, s as usize, t as usize)).area,
            );
        assert(stands_clear(measure, limits, spheres, s, t));
        assert(ends_rightly(
            measure,
            limits,
            spheres,
            sizes,
            BurialVerdict::ClearanceShortcut,
        ));
    } else {
        lemma_triangles_surveyed(
            measure,
            sum,
            limits,
            spheres,
            sizes,
            s,
            count as int,
            sorted,
            now,
        );
        if let Progress::Going(later) = after {
            let all = choose|all: Sorted| #[trigger]
                surveys(measure, sum, limits, spheres, sizes, s, count as int, all, later);
            lemma_lists_next_subset(measure, limits, spheres, sizes, s, count as int, all);
            assert(surveys(measure, sum, limits, spheres, sizes, s + 1, 0, all, later));
        }
    }
}

/// What came of a survey is what its triangles make of it: a survey that went through has counted
/// and added up exactly the triangles that belong, and one that ended did so for a triangle or a
/// subset that stands high enough.
pub proof fn lemma_static_surveyed<M: Fn(usize, usize) -> TriangleBurial, P: Fn(u32, u32) -> u32>(
    measure: M,
    sum: P,
    limits: BurialLimits,
    spheres: Seq<SphereBurial>,
    sizes: Seq<nat>,
    end: int,
)
    requires
        spheres.len() == sizes.len(),
        sizes.len() <= usize::MAX,
        forall|s: int| 0 <= s < sizes.len() ==> #[trigger] sizes[s] <= usize::MAX,
        0 <= end <= sizes.len(),
    ensures
        is_surveyed(
            measure,
            sum,
            limits,
            spheres,
            sizes,
            end,
            0,
            after_subsets(measure, sum, limits, spheres, sizes, end),
        ),
    decreases end,
{
    if end <= 0 {
        lemma_nothing_surveyed(measure, sum, limits, spheres, sizes);
    } else {
        let s = end - 1;
        lemma_static_surveyed(measure, sum, limits, spheres, sizes, s);
        if let Progress::Going(now) = after_subsets(measure, sum, limits, spheres, sizes, s) {
            let sorted = choose|sorted: Sorted| #[trigger]
                surveys(measure, sum, limits, spheres, sizes, s, 0, sorted, now);
            lemma_subset_surveyed(measure, sum, limits, spheres, sizes, s, sorted, now);
        }
    }
}

proof fn lemma_lists_next_subset<M: Fn(usize, usize) -> TriangleBurial>(
    measure: M,
    limits: BurialLimits,
    spheres: Seq<SphereBurial>,
    sizes: Seq<nat>,
    s: int,
    t: int,
    sorted: Sorted,
)
    requires
        0 <= s < sizes.len(),
        t == sizes[s] || (t == 0 && spheres[s].below),
        lists(counted_ones(measure, limits, spheres), sizes, s, t, sorted.counted),
        lists(high_ones(measure, limits, spheres), sizes, s, t, sorted.high),
        lists(probed_ones(measure, limits, spheres), sizes, s, t, sorted.probed),
        lists(visited_ones(spheres), sizes, s, t, sorted.visited),
    ensures
        lists(counted_ones(measure, limits, spheres), sizes, s + 1, 0, sorted.counted),
        lists(high_ones(measure, limits, spheres), sizes, s + 1, 0, sorted.high),
        lists(probed_ones(measure, limits, spheres), sizes, s + 1, 0, sorted.probed),
        lists(visited_ones(spheres), sizes, s + 1, 0, sorted.visited),
{
    lemma_list_next_row(counted_ones(measure, limits, spheres), sizes, s, t, sorted.counted);
    lemma_list_next_row(high_ones(measure, limits, spheres), sizes, s, t, sorted.high);
    lemma_list_next_row(probed_ones(measure, limits, spheres), sizes, s, t, sorted.probed);
    lemma_list_next_row(visited_ones(spheres), sizes, s, t, sorted.visited);
}

/// So many triangles must be counted: the share of all, at least the fewest, at most all.
pub open spec fn enough_counted<Q: Fn(usize) -> usize>(
    share: Q,
    limits: BurialLimits,
    total: nat,
    counted: nat,
) -> bool {
    counted >= total || (counted >= shared(share, total as usize) && counted
        >= limits.min_valid_triangles)
}

/// A static that was surveyed to the end is judged by its counted triangles: too few of them, or no
/// area at all, is not enough to judge by; else it is buried exactly where the share of the area
/// that lies high is below the limit.
pub open spec fn judged_by<
    M: Fn(usize, usize) -> TriangleBurial,
    P: Fn(u32, u32) -> u32,
    Q: Fn(usize) -> usize,
    D: Fn(u32, u32) -> u32,
>(
    measure: M,
    sum: P,
    share: Q,
    quotient: D,
    limits: BurialLimits,
    total: nat,
    sorted: Sorted,
    r: BurialReport,
) -> bool {
    let area = added_up(sum, areas_of(measure, sorted.counted));
    let high = added_up(sum, areas_of(measure, sorted.high));
    let judgeable = enough_counted(share, limits, total, sorted.counted.len()) && !at_least(
        0,
        area,
    );
    &&& r.verdict == BurialVerdict::Insufficient <==> !judgeable
    &&& r.verdict == BurialVerdict::Buried <==> judgeable && below(
        calculated(quotient, high, area),
        limits.exposed_area_ratio,
    )
    &&& r.verdict == BurialVerdict::Exposed <==> judgeable && !below(
        calculated(quotient, high, area),
        limits.exposed_area_ratio,
    )
    &&& r.tris_visited == sorted.visited.len()
    &&& r.centroid_height_samples == sorted.probed.len()
}

/// What is reported of a static: it stands clear because a triangle or a subset of it does, or it is
/// judged by the triangles that count.
pub proof fn lemma_report_means<
    M: Fn(usize, usize) -> TriangleBurial,
    P: Fn(u32, u32) -> u32,
    Q: Fn(usize) -> usize,
    D: Fn(u32, u32) -> u32,
>(
    measure: M,
    sum: P,
    share: Q,
    quotient: D,
    limits: BurialLimits,
    spheres: Seq<SphereBurial>,
    sizes: Seq<nat>,
    r: BurialReport,
)
    requires
        spheres.len() == sizes.len(),
        sizes.len() <= usize::MAX,
        forall|s: int| 0 <= s < sizes.len() ==> #[trigger] sizes[s] <= usize::MAX,
        is_number(limits.max_exposed_height),
        reports(
            share,
            quotient,
            limits,
            after_subsets(measure, sum, limits, spheres, sizes, spheres.len() as int),
            r,
        ),
    ensures
        r.verdict is HeightEarly || r.verdict is ClearanceShortcut ==> ends_rightly(
            measure,
            limits,
            spheres,
            sizes,
            r.verdict,
        ),
        !(r.verdict is HeightEarly || r.verdict is ClearanceShortcut) ==> exists|sorted: Sorted|
            {
                &&& lists(
                    counted_ones(measure, limits, spheres),
                    sizes,
                    sizes.len() as int,
                    0,
                    sorted.counted,
                )
                &&& lists(
                    high_ones(measure, limits, spheres),
                    sizes,
                    sizes.len() as int,
                    0,
                    sorted.high,
                )
                &&& lists(
                    probed_ones(measure, limits, spheres),
                    sizes,
                    sizes.len() as int,
                    0,
                    sorted.probed,
                )
                &&& lists(visited_ones(spheres), sizes, sizes.len() as int, 0, sorted.visited)
                &&& #[trigger] judged_by(
                    measure,
                    sum,
                    share,
                    quotient,
                    limits,
                    triangles_before(sizes, sizes.len() as int),
                    sorted,
                    r,
                )
            },
        !(r.verdict is HeightEarly || r.verdict is ClearanceShortcut) ==> forall|s: int, t: int|
            0 <= s < sizes.len() && 0 <= t < sizes[s] ==> !#[trigger] shows_up(
                measure,
                limits,
                spheres,
                s,
                t,
            ),
{
    let n = sizes.len() as int;
    lemma_static_surveyed(measure, sum, limits, spheres, sizes, n);
    let progress = after_subsets(measure, sum, limits, spheres, sizes, n);
    if let Progress::Going(survey) = progress {
        let sorted = choose|sorted: Sorted| #[trigger]
            surveys(measure, sum, limits, spheres, sizes, n, 0, sorted, survey);
        assert(r.verdict == verdict_of(share, quotient, limits, survey));
        assert(judged_by(
            measure,
            sum,
            share,
            quotient,
            limits,
            triangles_before(sizes, n),
            sorted,
            r,
        ));
        assert forall|s: int, t: int|
            0 <= s < sizes.len() && 0 <= t < sizes[s] implies !#[trigger] shows_up(
            measure,
            limits,
            spheres,
            s,
            t,
        ) by {
            if shows_up(measure, limits, spheres, s, t) {
                assert(counted_ones(measure, limits, spheres)(s, t));
                assert(sorted.counted.contains((s, t)));
                let i = choose|i: int| 0 <= i < sorted.counted.len() && sorted.counted[i] == (s, t);
                assert(sorted.counted[i].0 == s);
            }
        }
    }
}

/// A static of which every counted triangle lies high is never buried, as long as the limit on the
/// share of exposed area is at most one.
pub proof fn lemma_all_high_never_buried<
    M: Fn(usize, usize) -> TriangleBurial,
    P: Fn(u32, u32) -> u32,
    Q: Fn(usize) -> usize,
    D: Fn(u32, u32) -> u32,
>(
    measure: M,
    sum: P,
    share: Q,
    quotient: D,
    limits: BurialLimits,
    spheres: Seq<SphereBurial>,
    sizes: Seq<nat>,
    r: BurialReport,
)
    requires
        spheres.len() == sizes.len(),
        sizes.len() <= usize::MAX,
        forall|s: int| 0 <= s < sizes.len() ==> #[trigger] sizes[s] <= usize::MAX,
        reports(
            share,
            quotient,
            limits,
            after_subsets(measure, sum, limits, spheres, sizes, spheres.len() as int),
            r,
        ),
        forall|s: int, t: int|
            0 <= s < sizes.len() && 0 <= t < sizes[s] && counts(
                limits,
                spheres[s],
                #[trigger] measured(measure, s as usize, t as usize),
            ) ==> lies_high(limits, spheres[s], measured(measure, s as usize, t as usize)),
        forall|x: u32| !at_least(0, x) ==> !below(
            #[trigger] calculated(quotient, x, x),
            WHOLE_SHARE,
        ),
        !below(WHOLE_SHARE, limits.exposed_area_ratio),
    ensures
        r.verdict != BurialVerdict::Buried,
{
    let n = sizes.len() as int;
    lemma_static_surveyed(measure, sum, limits, spheres, sizes, n);
    let progress = after_subsets(measure, sum, limits, spheres, sizes, n);
    if let Progress::Going(survey) = progress {
        let sorted = choose|sorted: Sorted| #[trigger]
            surveys(measure, sum, limits, spheres, sizes, n, 0, sorted, survey);
        let a = counted_ones(measure, limits, spheres);
        let b = high_ones(measure, limits, spheres);
        assert forall|s: int, t: int|
            0 <= s < sizes.len() && 0 <= t < sizes[s] implies #[trigger] a(s, t) == b(s, t) by {
            let triangle = measured(measure, s as usize, t as usize);
        }
        lemma_lists_same(a, b, sizes, n, 0, sorted.counted, sorted.high);
        assert(survey.exposed_area == survey.total_area);
        let x = survey.total_area;
        assert(!at_least(0, x) ==> !below(calculated(quotient, x, x), WHOLE_SHARE));
    }
}

/// A static of which no counted triangle lies high is buried wherever it can be judged and does not
/// reach up, as long as the limit on the share of exposed area is above nothing.
pub proof fn lemma_all_low_buried<
    M: Fn(usize, usize) -> TriangleBurial,
    P: Fn(u32, u32) -> u32,
    Q: Fn(usize) -> usize,
    D: Fn(u32, u32) -> u32,
>(
    measure: M,
    sum: P,
    share: Q,
    quotient: D,
    limits: BurialLimits,
    spheres: Seq<SphereBurial>,
    sizes: Seq<nat>,
    r: BurialReport,
)
    requires
        spheres.len() == sizes.len(),
        sizes.len() <= usize::MAX,
        forall|s: int| 0 <= s < sizes.len() ==> #[trigger] sizes[s] <= usize::MAX,
        is_number(limits.max_exposed_height),
        reports(
            share,
            quotient,
            limits,
            after_subsets(measure, sum, limits, spheres, sizes, spheres.len() as int),
            r,
        ),
        forall|s: int, t: int|
            0 <= s < sizes.len() && 0 <= t < sizes[s] && counts(
                limits,
                spheres[s],
                #[trigger] measured(measure, s as usize, t as usize),
            ) ==> !lies_high(limits, spheres[s], measured(measure, s as usize, t as usize)),
        forall|x: u32| !at_least(0, x) ==> below(
            #[trigger] calculated(quotient, 0, x),
            limits.exposed_area_ratio,
        ),
    ensures
        r.verdict is Buried || r.verdict is Insufficient || ends_rightly(
            measure,
            limits,
            spheres,
            sizes,
            r.verdict,
        ),
{
    let n = sizes.len() as int;
    lemma_static_surveyed(measure, sum, limits, spheres, sizes, n);
    let progress = after_subsets(measure, sum, limits, spheres, sizes, n);
    if let Progress::Going(survey) = progress {
        let sorted = choose|sorted: Sorted| #[trigger]
            surveys(measure, sum, limits, spheres, sizes, n, 0, sorted, survey);
        let none = |s: int, t: int| false;
        let b = high_ones(measure, limits, spheres);
        assert forall|s: int, t: int|
            0 <= s < sizes.len() && 0 <= t < sizes[s] implies #[trigger] b(s, t) == none(s, t) by {
            let triangle = measured(measure, s as usize, t as usize);
        }
        lemma_lists_same(b, none, sizes, n, 0, sorted.high, Seq::empty());
        assert(areas_of(measure, sorted.high).len() == 0);
        assert(survey.exposed_area == 0);
        let x = survey.total_area;
        assert(!at_least(0, x) ==> below(calculated(quotient, 0, x), limits.exposed_area_ratio));
    }
}

/// Every report counts once, with its triangles and samples, under its verdict and under no other.
pub proof fn lemma_report_counted(stats: BurialStats, report: BurialReport)
    requires
        stats_add_up(stats),
        stats.refs_considered < u64::MAX,
        stats.tris_visited + report.tris_visited <= u64::MAX,
        stats.centroid_height_samples + report.centroid_height_samples <= u64::MAX,
    ensures
        ({
            let after = with_report(stats, report);
            &&& after.refs_considered - stats.refs_considered == 1
            &&& after.tris_visited - stats.tris_visited == report.tris_visited
            &&& after.centroid_height_samples - stats.centroid_height_samples
                == report.centroid_height_samples
            &&& stats.keep_clearance_shortcut <= after.keep_clearance_shortcut
            &&& stats.keep_height_early <= after.keep_height_early
            &&& stats.keep_insufficient <= after.keep_insufficient
            &&& stats.keep_exposed <= after.keep_exposed
            &&& stats.buried <= after.buried
            &&& stats_add_up(after)
            &&& after.keep_clearance_shortcut > stats.keep_clearance_shortcut
                <==> report.verdict is ClearanceShortcut
            &&& after.keep_height_early > stats.keep_height_early <==> report.verdict is HeightEarly
            &&& after.keep_insufficient > stats.keep_insufficient
                <==> report.verdict is Insufficient
            &&& after.keep_exposed > stats.keep_exposed <==> report.verdict is Exposed
            &&& after.buried > stats.buried <==> report.verdict is Buried
        }),
{
}

} // verus!
